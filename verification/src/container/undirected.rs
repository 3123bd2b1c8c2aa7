use std::collections::{HashMap, HashSet};
use std::hash::Hash;
use vstd::prelude::*;
use vstd::std_specs::hash::{obeys_key_model, spec_hash_keys_iter, spec_hash_map_iter};
use vstd::std_specs::iter::IteratorSpec;
use vstd::set::fold::{is_fun_commutative, lemma_fold_empty};

use crate::base::container::undirected::{
    adjacent, degree_adder, degree_sum, lemma_degree_adder_commutative, lemma_degree_step,
    lemma_kept_iff_neighbor, lemma_link_unlink_round_trip, lemma_take_whole, lemma_unlink_absent,
    lemma_unlink_adjacent, link, neighbors_of, unlink,
};

verus! {

/// Undirected graph whose nodes are found by hashing.
///
/// Its model is a map from each node that has at least one edge to the set of
/// its neighbors. An edge between `a` and `b` is recorded on both sides.
pub struct UndirectedGraph<T> where T: Eq + Hash + Copy {
    edges: HashMap<T, HashSet<T>>,
}

impl<T> View for UndirectedGraph<T> where T: Eq + Hash + Copy {
    type V = Map<T, Set<T>>;

    closed spec fn view(&self) -> Map<T, Set<T>> {
        self.edges@.map_values(|s: HashSet<T>| s@)
    }
}

impl<T> UndirectedGraph<T> where T: Eq + Hash + Copy {
    /// The graph is well formed: the node type hashes and compares as the
    /// hash-table model of the standard library expects, every edge is
    /// recorded on both sides, and no node is kept without a neighbor.
    pub closed spec fn wf(&self) -> bool {
        &&& obeys_key_model::<T>()
        &&& forall|a: T, b: T| #[trigger] adjacent(self@, a, b) ==> adjacent(self@, b, a)
        &&& forall|a: T| #[trigger] self@.contains_key(a) ==> !self@[a].is_empty()
    }

    /// Whether there is an edge between `a` and `b`.
    pub open spec fn has_edge_spec(&self, a: T, b: T) -> bool {
        adjacent(self@, a, b)
    }

    /// Create a new undirected graph without edges.
    pub fn new() -> (g: Self)
        requires
            obeys_key_model::<T>(),
        ensures
            g.wf(),
            g@ == Map::<T, Set<T>>::empty(),
    {
        let g = Self { edges: HashMap::new() };
        assert(g@ =~= Map::<T, Set<T>>::empty());
        g
    }

    /// Record `b` as a neighbor of `a`, without touching the entry of `b`.
    fn insert_neighbor(&mut self, a: T, b: T)
        requires
            obeys_key_model::<T>(),
            forall|x: T| #[trigger] old(self)@.contains_key(x) ==> !old(self)@[x].is_empty(),
        ensures
            final(self)@ == link(old(self)@, a, b),
            forall|x: T| #[trigger] final(self)@.contains_key(x) ==> !final(self)@[x].is_empty(),
    {
        let ghost m0 = self@;
        let mut set = match self.edges.remove(&a) {
            Some(s) => s,
            None => HashSet::new(),
        };
        assert(set@ == neighbors_of(m0, a));
        set.insert(b);
        self.edges.insert(a, set);
        assert(self@ =~= link(m0, a, b));
        assert(self@[a].contains(b));
    }

    /// Drop `b` from the neighbors of `a`, and the entry of `a` where none is left.
    fn drop_neighbor(&mut self, a: T, b: T)
        requires
            obeys_key_model::<T>(),
            forall|x: T| #[trigger] old(self)@.contains_key(x) ==> !old(self)@[x].is_empty(),
        ensures
            final(self)@ == unlink(old(self)@, a, b),
            forall|x: T| #[trigger] final(self)@.contains_key(x) ==> !final(self)@[x].is_empty(),
    {
        let ghost m0 = self@;
        if let Some(mut set) = self.edges.remove(&a) {
            set.remove(&b);
            if !set.is_empty() {
                self.edges.insert(a, set);
            }
        }
        assert(self@ =~= unlink(m0, a, b));
    }

    /// Add an edge between `a` and `b` to the graph; an edge that is already
    /// there stays as it is.
    pub fn add_edge(&mut self, a: T, b: T)
        requires
            old(self).wf(),
        ensures
            final(self).wf(),
            final(self)@ == link(link(old(self)@, a, b), b, a),
    {
        let ghost m0 = self@;
        self.insert_neighbor(a, b);
        self.insert_neighbor(b, a);
        proof {
            let m2 = self@;
            assert forall|x: T, y: T| #[trigger] adjacent(m2, x, y) implies adjacent(
                m2,
                y,
                x,
            ) by {
                if !adjacent(m0, x, y) {
                    assert((x == a && y == b) || (x == b && y == a));
                }
            }
        }
    }

    /// Check if there is an edge between two nodes.
    pub fn has_edge(&self, a: T, b: T) -> (r: bool)
        requires
            self.wf(),
        ensures
            r == self.has_edge_spec(a, b),
    {
        match self.edges.get(&a) {
            Some(set) => set.contains(&b),
            None => false,
        }
    }

    /// Remove the edge between `a` and `b` from the graph.
    ///
    /// A node left without neighbors is no longer counted as a node of the graph.
    pub fn remove_edge(&mut self, a: T, b: T)
        requires
            old(self).wf(),
        ensures
            final(self).wf(),
            final(self)@ == unlink(unlink(old(self)@, a, b), b, a),
            !old(self).has_edge_spec(a, b) ==> final(self)@ == old(self)@,
    {
        let ghost m0 = self@;
        proof {
            if !adjacent(m0, a, b) {
                assert(!adjacent(m0, b, a));
                lemma_unlink_absent(m0, a, b);
                lemma_unlink_absent(m0, b, a);
            }
        }
        self.drop_neighbor(a, b);
        self.drop_neighbor(b, a);
        proof {
            let m2 = self@;
            assert forall|x: T, y: T| #[trigger] adjacent(m2, x, y) implies adjacent(
                m2,
                y,
                x,
            ) by {
                lemma_unlink_adjacent(m0, a, b, x, y);
                lemma_unlink_adjacent(unlink(m0, a, b), b, a, x, y);
                lemma_unlink_adjacent(m0, a, b, y, x);
                lemma_unlink_adjacent(unlink(m0, a, b), b, a, y, x);
            }
        }
    }

    /// Get the number of nodes in the graph: the nodes that have at least one edge.
    pub fn order(&self) -> (n: usize)
        requires
            self.wf(),
        ensures
            n == self@.dom().len(),
    {
        assert(self@.dom() =~= self.edges@.dom());
        self.edges.len()
    }

    /// Get the number of edges in the graph: half the sum of the numbers of
    /// neighbors over all nodes (an edge from a node to itself counts one half).
    pub fn size(&self) -> (n: usize)
        requires
            self.wf(),
            degree_sum(self@) <= usize::MAX,
        ensures
            n == degree_sum(self@) / 2,
    {
        let ghost m = self@;
        let ghost f = degree_adder(m);
        let ghost all = spec_hash_map_iter(&self.edges).remaining().unref();
        let ghost keys = all.map_values(|p: (T, HashSet<T>)| p.0);
        proof {
            lemma_degree_adder_commutative(m);
            lemma_fold_empty(0nat, f);
            assert(keys.take(0).to_set() =~= Set::<T>::empty());
            assert(m.dom() =~= self.edges@.dom());
        }
        let mut total: usize = 0;
        for (k, set) in it: self.edges.iter()
            invariant
                m == self@,
                f == degree_adder(m),
                self.wf(),
                all == it.seq().unref(),
                keys == all.map_values(|p: (T, HashSet<T>)| p.0),
                all.len() == m.dom().len(),
                m.dom() == self.edges@.dom(),
                m.dom().finite(),
                forall|i: int| #![trigger all[i]] 0 <= i < all.len() ==>
                    self.edges@.contains_key(all[i].0) && self.edges@[all[i].0] == all[i].1,
                forall|i: int, j: int| 0 <= i < j < all.len() ==> #[trigger] all[i] != #[trigger] all[j],
                total == keys.take(it.index()).to_set().fold(0nat, f),
                degree_sum(m) <= usize::MAX,
                is_fun_commutative(f),
        {
            let ghost i = it.index();
            proof {
                assert(all[i].0 == *k && all[i].1 == *set);
                assert forall|j: int| 0 <= j <= i implies m.dom().contains(#[trigger] keys[j]) by {
                    assert(keys[j] == all[j].0);
                }
                assert forall|j: int| 0 <= j < i implies #[trigger] keys[j] != keys[i] by {
                    if keys[j] == keys[i] {
                        assert(all[j] == all[i]);
                    }
                }
                lemma_degree_step(m, keys, i);
            }
            total = total + set.len();
        }
        proof {
            lemma_take_whole(keys);
            assert forall|k: T| m.dom().contains(k) implies keys.to_set().contains(k) by {
                let v = spec_hash_map_iter(&self.edges).remaining();
                assert(v.contains((&k, &self.edges@[k])));
                let j = choose|j: int| 0 <= j < v.len() && #[trigger] v[j] == (&k, &self.edges@[k]);
                assert(all[j] == (k, self.edges@[k]));
                assert(keys[j] == k);
            }
            assert(keys.to_set() =~= m.dom());
        }
        total / 2
    }

    /// Get the neighbors of a node, in the order in which the hash set holds them.
    ///
    /// Returns `None` where the node has no edge.
    pub fn neighbors_iter(&self, node: T) -> (r: Option<Vec<T>>)
        requires
            self.wf(),
        ensures
            r is None <==> !self@.contains_key(node),
            r is None <==> !exists|y: T| self.has_edge_spec(node, y),
            r matches Some(v) ==> v@.to_set() == self@[node] && v@.no_duplicates(),
    {
        proof {
            self.lemma_kept_iff_has_edge(node);
        }
        match self.edges.get(&node) {
            None => None,
            Some(set) => {
                let mut v: Vec<T> = Vec::new();
                let ghost all = spec_hash_keys_iter(set).remaining().unref();
                for x in it: set.iter()
                    invariant
                        all == it.seq().unref(),
                        v@ == all.take(it.index()),
                {
                    assert(*x == all[it.index()]);
                    v.push(*x);
                    proof {
                        assert(all.take(it.index() + 1) =~= all.take(it.index()).push(*x));
                    }
                }
                proof {
                    lemma_take_whole(all);
                    let s = spec_hash_keys_iter(set).remaining();
                    assert forall|i: int, j: int| 0 <= i < j < all.len() implies all[i] != all[j] by {
                        assert(s[i] != s[j]);
                    }
                    assert(all.to_set() =~= s.unref().to_set());
                }
                Some(v)
            },
        }
    }
}

impl<T> UndirectedGraph<T> where T: Eq + Hash + Copy {
    /// A node is kept in the graph exactly when it has an edge.
    pub proof fn lemma_kept_iff_has_edge(&self, x: T)
        requires
            self.wf(),
        ensures
            self@.contains_key(x) <==> exists|y: T| self.has_edge_spec(x, y),
    {
        lemma_kept_iff_neighbor(self@, x);
        if self@.contains_key(x) {
            let y = choose|y: T| adjacent(self@, x, y);
            assert(self.has_edge_spec(x, y));
        }
        if exists|y: T| self.has_edge_spec(x, y) {
            let y = choose|y: T| self.has_edge_spec(x, y);
            assert(adjacent(self@, x, y));
        }
    }

    /// An edge between `a` and `b` is also an edge between `b` and `a`.
    pub proof fn lemma_has_edge_symmetric(&self, a: T, b: T)
        requires
            self.wf(),
        ensures
            self.has_edge_spec(a, b) == self.has_edge_spec(b, a),
    {
    }

    /// Adding an edge between `a` and `b` makes exactly that edge (in both
    /// directions) appear, and keeps every other edge as it was.
    pub proof fn lemma_add_edge_effect(&self, a: T, b: T, x: T, y: T)
        requires
            self.wf(),
        ensures
            adjacent(link(link(self@, a, b), b, a), x, y) <==> self.has_edge_spec(x, y) || (x == a
                && y == b) || (x == b && y == a),
    {
    }

    /// Removing the edge between `a` and `b` makes exactly that edge (in both
    /// directions) disappear, and keeps every other edge as it was.
    pub proof fn lemma_remove_edge_effect(&self, a: T, b: T, x: T, y: T)
        requires
            self.wf(),
        ensures
            adjacent(unlink(unlink(self@, a, b), b, a), x, y) <==> self.has_edge_spec(x, y) && !((x
                == a && y == b) || (x == b && y == a)),
    {
        lemma_unlink_adjacent(self@, a, b, x, y);
        lemma_unlink_adjacent(unlink(self@, a, b), b, a, x, y);
    }

    /// Removing an edge that was just added to a graph without it gives back
    /// the graph as it was before.
    pub proof fn lemma_remove_undoes_add(&self, a: T, b: T)
        requires
            self.wf(),
            !self.has_edge_spec(a, b),
        ensures
            unlink(unlink(link(link(self@, a, b), b, a), a, b), b, a) == self@,
    {
        lemma_link_unlink_round_trip(self@, a, b);
    }
}

} // verus!
