use std::collections::{BTreeMap, BTreeSet};
use vstd::laws_cmp::obeys_cmp;
use vstd::prelude::*;
use vstd::set::fold::{is_fun_commutative, lemma_fold_empty, lemma_fold_insert};
use vstd::std_specs::btree::{increasing_seq, spec_btree_keys_iter, spec_btree_map_iter};
use vstd::std_specs::cmp::OrdSpec;
use vstd::std_specs::iter::IteratorSpec;

verus! {

/// What a node of an undirected graph must offer: it is compared, ordered and copied.
pub trait UndirectedGraphNodeTrait: Eq + Ord + Copy {

}

impl<T> UndirectedGraphNodeTrait for T where T: Eq + Ord + Copy {

}

/// The neighbors that `m` records for `a`, or none where `a` has no entry.
pub open spec fn neighbors_of<N>(m: Map<N, Set<N>>, a: N) -> Set<N> {
    if m.contains_key(a) {
        m[a]
    } else {
        Set::empty()
    }
}

/// Whether `m` records `b` as a neighbor of `a`.
pub open spec fn adjacent<N>(m: Map<N, Set<N>>, a: N, b: N) -> bool {
    m.contains_key(a) && m[a].contains(b)
}

/// `m` with `b` recorded as a neighbor of `a`.
pub open spec fn link<N>(m: Map<N, Set<N>>, a: N, b: N) -> Map<N, Set<N>> {
    m.insert(a, neighbors_of(m, a).insert(b))
}

/// `m` with `b` no longer recorded as a neighbor of `a`; an entry left without
/// neighbors is dropped.
pub open spec fn unlink<N>(m: Map<N, Set<N>>, a: N, b: N) -> Map<N, Set<N>> {
    if m.contains_key(a) {
        if m[a].remove(b).is_empty() {
            m.remove(a)
        } else {
            m.insert(a, m[a].remove(b))
        }
    } else {
        m
    }
}

/// Dropping `b` from the neighbors of `a` removes exactly that adjacency.
pub proof fn lemma_unlink_adjacent<N>(m: Map<N, Set<N>>, a: N, b: N, x: N, y: N)
    ensures
        adjacent(unlink(m, a, b), x, y) <==> adjacent(m, x, y) && !(x == a && y == b),
{
    if m.contains_key(a) {
        if x == a {
            assert(m[a].remove(b).contains(y) <==> m[a].contains(y) && y != b);
        }
    }
}

/// A value is in a sequence with one more element exactly when it is that
/// element or in the sequence.
pub proof fn lemma_push_contains<A>(s: Seq<A>, v: A, y: A)
    ensures
        s.push(v).contains(y) <==> s.contains(y) || y == v,
{
    if s.push(v).contains(y) && y != v {
        let m = choose|m: int| 0 <= m < s.push(v).len() && s.push(v)[m] == y;
        assert(s[m] == y);
    }
    if s.contains(y) {
        let m = choose|m: int| 0 <= m < s.len() && s[m] == y;
        assert(s.push(v)[m] == y);
    }
    if y == v {
        assert(s.push(v)[s.len() as int] == y);
    }
}

/// Taking all elements of a sequence gives the sequence.
pub proof fn lemma_take_whole<A>(s: Seq<A>)
    ensures
        s.take(s.len() as int) == s,
{
    assert(s.take(s.len() as int) =~= s);
}

/// Linking `a` and `b` both ways in a symmetric map without that link, and
/// then unlinking them both ways, gives back the map.
pub proof fn lemma_link_unlink_round_trip<N>(m: Map<N, Set<N>>, a: N, b: N)
    requires
        forall|x: N, y: N| #[trigger] adjacent(m, x, y) ==> adjacent(m, y, x),
        forall|x: N| #[trigger] m.contains_key(x) ==> !m[x].is_empty(),
        !adjacent(m, a, b),
    ensures
        unlink(unlink(link(link(m, a, b), b, a), a, b), b, a) == m,
{
        let m1 = link(m, a, b);
        let m2 = link(m1, b, a);
        let m3 = unlink(m2, a, b);
        let m4 = unlink(m3, b, a);
        assert(!adjacent(m, b, a));
        if a == b {
            assert(m1[a].insert(a) =~= m1[a]);
            assert(m2 =~= m1);
            assert(m1[a].remove(b) =~= neighbors_of(m, a));
            if m3.contains_key(a) {
                assert(m3[a] =~= neighbors_of(m, a));
                assert(m3[a].remove(a) =~= m3[a]);
            }
            assert(m4 =~= m3);
        } else {
            assert(m2[a].remove(b) =~= neighbors_of(m, a));
            assert(m3[b] == m2[b]);
            assert(m3[b].remove(a) =~= neighbors_of(m, b));
        }
        assert(m4 =~= m);
}

/// Where every kept entry has a neighbor, a node is kept exactly when it has one.
pub proof fn lemma_kept_iff_neighbor<N>(m: Map<N, Set<N>>, x: N)
    requires
        forall|z: N| #[trigger] m.contains_key(z) ==> !m[z].is_empty(),
    ensures
        m.contains_key(x) <==> exists|y: N| adjacent(m, x, y),
{
    if m.contains_key(x) {
        assert(!m[x].is_empty());
        assert(!(m[x] =~= Set::<N>::empty()));
        let y = choose|y: N| m[x].contains(y) != Set::<N>::empty().contains(y);
        assert(adjacent(m, x, y));
    }
}

/// Unlinking a pair that is not linked, where every kept entry has a
/// neighbor, changes nothing.
pub proof fn lemma_unlink_absent<N>(m: Map<N, Set<N>>, a: N, b: N)
    requires
        forall|z: N| #[trigger] m.contains_key(z) ==> !m[z].is_empty(),
        !adjacent(m, a, b),
    ensures
        unlink(m, a, b) == m,
{
    if m.contains_key(a) {
        assert(m[a].remove(b) =~= m[a]);
        assert(m.insert(a, m[a]) =~= m);
    }
}

/// Adds the number of neighbors of a node to a running total.
pub open spec fn degree_adder<N>(m: Map<N, Set<N>>) -> spec_fn(nat, N) -> nat {
    |acc: nat, k: N| acc + m[k].len()
}

/// The sum of the numbers of neighbors over all nodes of `m`.
pub open spec fn degree_sum<N>(m: Map<N, Set<N>>) -> nat {
    m.dom().fold(0nat, degree_adder(m))
}

/// The order in which the numbers of neighbors are added up does not matter.
pub proof fn lemma_degree_adder_commutative<N>(m: Map<N, Set<N>>)
    ensures
        is_fun_commutative(degree_adder(m)),
{
    let f = degree_adder(m);
    assert forall|a1: N, a2: N, b: nat| #[trigger] f(f(b, a2), a1) == f(f(b, a1), a2) by {}
}

/// The sum over part of the nodes is at most the sum over more of them.
pub proof fn lemma_degree_fold_subset<N>(m: Map<N, Set<N>>, s: Set<N>, t: Set<N>)
    requires
        t.finite(),
        s.subset_of(t),
    ensures
        s.fold(0nat, degree_adder(m)) <= t.fold(0nat, degree_adder(m)),
    decreases t.len(),
{
    lemma_degree_adder_commutative(m);
    if !(t =~= s) {
        assert(exists|y: N| #[trigger] t.contains(y) && !s.contains(y));
        let x = choose|y: N| #[trigger] t.contains(y) && !s.contains(y);
        let t1 = t.remove(x);
        lemma_degree_fold_subset(m, s, t1);
        assert(t1.insert(x) =~= t);
        lemma_fold_insert(t1, 0nat, degree_adder(m), x);
    }
}

/// One step of adding up neighbor counts key by key: where `keys[i]` is a
/// node of `m` not met among the keys before it, the sum over the first
/// `i + 1` keys is the sum over the first `i` plus its count, and at most
/// the sum over all nodes.
pub proof fn lemma_degree_step<N>(m: Map<N, Set<N>>, keys: Seq<N>, i: int)
    requires
        0 <= i < keys.len(),
        m.dom().finite(),
        forall|j: int| 0 <= j <= i ==> m.dom().contains(#[trigger] keys[j]),
        forall|j: int| 0 <= j < i ==> #[trigger] keys[j] != keys[i],
    ensures
        keys.take(i + 1).to_set().fold(0nat, degree_adder(m)) == keys.take(i).to_set().fold(
            0nat,
            degree_adder(m),
        ) + m[keys[i]].len(),
        keys.take(i + 1).to_set().fold(0nat, degree_adder(m)) <= degree_sum(m),
{
    let f = degree_adder(m);
    let k = keys[i];
    let seen = keys.take(i).to_set();
    let seen1 = keys.take(i + 1).to_set();
    lemma_degree_adder_commutative(m);
    assert(keys.take(i + 1) =~= keys.take(i).push(k));
    assert forall|x: N| seen1.contains(x) <==> seen.insert(k).contains(x) by {
        if seen1.contains(x) {
            let j = choose|j: int| 0 <= j < i + 1 && #[trigger] keys.take(i + 1)[j] == x;
            if j < i {
                assert(keys.take(i)[j] == x);
            }
        }
        if seen.contains(x) {
            let j = choose|j: int| 0 <= j < i && #[trigger] keys.take(i)[j] == x;
            assert(keys.take(i + 1)[j] == x);
        }
        if x == k {
            assert(keys.take(i + 1)[i] == x);
        }
    }
    assert(seen1 =~= seen.insert(k));
    assert(!seen.contains(k)) by {
        if seen.contains(k) {
            let j = choose|j: int| 0 <= j < i && #[trigger] keys.take(i)[j] == k;
            assert(keys[j] == k);
        }
    }
    lemma_fold_insert(seen, 0nat, f, k);
    assert forall|x: N| seen1.contains(x) implies m.dom().contains(x) by {
        let j = choose|j: int| 0 <= j < i + 1 && #[trigger] keys.take(i + 1)[j] == x;
        assert(keys[j] == x);
    }
    lemma_degree_fold_subset(m, seen1, m.dom());
}

/// Undirected graph.
///
/// Its model is a map from each node that has at least one edge to the set of
/// its neighbors. An edge between `a` and `b` is recorded on both sides.
#[derive(Debug, Clone)]
pub struct UndirectedGraph<N> where N: UndirectedGraphNodeTrait {
    edges: BTreeMap<N, BTreeSet<N>>,
}

impl<N> View for UndirectedGraph<N> where N: UndirectedGraphNodeTrait {
    type V = Map<N, Set<N>>;

    closed spec fn view(&self) -> Map<N, Set<N>> {
        self.edges@.map_values(|s: BTreeSet<N>| s@)
    }
}

impl<N> UndirectedGraph<N> where N: UndirectedGraphNodeTrait {
    /// The graph is well formed: the node type obeys the laws of `Ord`, every
    /// edge is recorded on both sides, and no node is kept without a neighbor.
    pub closed spec fn wf(&self) -> bool {
        &&& obeys_cmp::<N>()
        &&& forall|a: N, b: N| #[trigger]
            adjacent(self@, a, b) ==> adjacent(self@, b, a)
        &&& forall|a: N| #[trigger] self@.contains_key(a) ==> !self@[a].is_empty()
    }

    /// Whether there is an edge between `a` and `b`.
    pub open spec fn has_edge_spec(&self, a: N, b: N) -> bool {
        adjacent(self@, a, b)
    }

    /// Create a new undirected graph without edges.
    pub fn new() -> (g: Self)
        requires
            obeys_cmp::<N>(),
        ensures
            g.wf(),
            g@ == Map::<N, Set<N>>::empty(),
    {
        let g = Self { edges: BTreeMap::new() };
        assert(g@ =~= Map::<N, Set<N>>::empty());
        g
    }

    /// Add an edge to the graph.
    ///
    /// Returns `None`, and leaves the graph unchanged, where the edge is already there.
    pub fn add_edge(&mut self, a: N, b: N) -> (r: Option<(N, N)>)
        requires
            old(self).wf(),
        ensures
            final(self).wf(),
            old(self).has_edge_spec(a, b) ==> r is None && final(self)@ == old(self)@,
            !old(self).has_edge_spec(a, b) ==> r == Some((a, b)) && final(self)@ == link(
                link(old(self)@, a, b),
                b,
                a,
            ),
    {
        if self.has_edge(a, b) {
            return None;
        }
        let ghost m0 = self@;
        self.insert_neighbor(a, b);
        self.insert_neighbor(b, a);
        proof {
            let m2 = self@;
            assert(m2 == link(link(m0, a, b), b, a));
            assert forall|x: N, y: N| #[trigger] adjacent(m2, x, y) implies adjacent(
                m2,
                y,
                x,
            ) by {
                if !adjacent(m0, x, y) {
                    assert((x == a && y == b) || (x == b && y == a));
                }
            }
        }
        Some((a, b))
    }

    /// Record `b` as a neighbor of `a`, without touching the entry of `b`.
    fn insert_neighbor(&mut self, a: N, b: N)
        requires
            obeys_cmp::<N>(),
            forall|x: N| #[trigger] old(self)@.contains_key(x) ==> !old(self)@[x].is_empty(),
        ensures
            final(self)@ == link(old(self)@, a, b),
            forall|x: N| #[trigger] final(self)@.contains_key(x) ==> !final(self)@[x].is_empty(),
    {
        let ghost m0 = self@;
        let mut set = match self.edges.remove(&a) {
            Some(s) => s,
            None => BTreeSet::new(),
        };
        assert(set@ == neighbors_of(m0, a));
        set.insert(b);
        self.edges.insert(a, set);
        assert(self@ =~= link(m0, a, b));
        assert(self@[a].contains(b));
    }

    /// Check if there is an edge between two nodes.
    pub fn has_edge(&self, a: N, b: N) -> (r: bool)
        requires
            self.wf(),
        ensures
            r == self.has_edge_spec(a, b),
    {
        match self.edges.get(&a) {
            Some(set) => set.contains(&b),
            None => false,
        }
    }

    /// Drop `b` from the neighbors of `a`, and the entry of `a` where none is left.
    fn drop_neighbor(&mut self, a: N, b: N)
        requires
            obeys_cmp::<N>(),
            forall|x: N| #[trigger] old(self)@.contains_key(x) ==> !old(self)@[x].is_empty(),
        ensures
            final(self)@ == unlink(old(self)@, a, b),
            forall|x: N| #[trigger] final(self)@.contains_key(x) ==> !final(self)@[x].is_empty(),
    {
        let ghost m0 = self@;
        if let Some(mut set) = self.edges.remove(&a) {
            set.remove(&b);
            if !set.is_empty() {
                self.edges.insert(a, set);
            }
        }
        assert(self@ =~= unlink(m0, a, b));
    }

    /// Remove the edge between `a` and `b` from the graph.
    ///
    /// A node left without neighbors is no longer counted as a node of the graph.
    /// The result is always `Some((a, b))`, whether the edge was there or not.
    pub fn remove_edge(&mut self, a: N, b: N) -> (r: Option<(N, N)>)
        requires
            old(self).wf(),
        ensures
            final(self).wf(),
            r == Some((a, b)),
            final(self)@ == unlink(unlink(old(self)@, a, b), b, a),
            !old(self).has_edge_spec(a, b) ==> final(self)@ == old(self)@,
    {
        let ghost m0 = self@;
        proof {
            if !adjacent(m0, a, b) {
                assert(!adjacent(m0, b, a));
                lemma_unlink_absent(m0, a, b);
                lemma_unlink_absent(m0, b, a);
            }
        }
        self.drop_neighbor(a, b);
        self.drop_neighbor(b, a);
        proof {
            let m2 = self@;
            assert forall|x: N, y: N| #[trigger] adjacent(m2, x, y) implies adjacent(
                m2,
                y,
                x,
            ) by {
                lemma_unlink_adjacent(m0, a, b, x, y);
                lemma_unlink_adjacent(unlink(m0, a, b), b, a, x, y);
                lemma_unlink_adjacent(m0, a, b, y, x);
                lemma_unlink_adjacent(unlink(m0, a, b), b, a, y, x);
                assert(adjacent(m0, x, y));
                assert(adjacent(m0, y, x));
                assert(!((x == a && y == b) || (x == b && y == a)));
            }
        }
        Some((a, b))
    }

    /// Get the number of nodes in the graph: the nodes that have at least one edge.
    pub fn order(&self) -> (n: usize)
        requires
            self.wf(),
        ensures
            n == self@.dom().len(),
    {
        assert(self@.dom() =~= self.edges@.dom());
        self.edges.len()
    }

    /// Get the number of edges in the graph: half the sum of the numbers of
    /// neighbors over all nodes (an edge from a node to itself counts one half).
    pub fn size(&self) -> (n: usize)
        requires
            self.wf(),
            degree_sum(self@) <= usize::MAX,
        ensures
            n == degree_sum(self@) / 2,
    {
        let ghost m = self@;
        let ghost f = degree_adder(m);
        let ghost all = spec_btree_map_iter(&self.edges).remaining().unref();
        let ghost keys = all.map_values(|p: (N, BTreeSet<N>)| p.0);
        proof {
            lemma_degree_adder_commutative(m);
            lemma_fold_empty(0nat, f);
            assert(keys.take(0).to_set() =~= Set::<N>::empty());
            assert(m.dom() =~= self.edges@.dom());
        }
        let mut total: usize = 0;
        for (k, set) in it: self.edges.iter()
            invariant
                m == self@,
                f == degree_adder(m),
                self.wf(),
                all == it.seq().unref(),
                keys == all.map_values(|p: (N, BTreeSet<N>)| p.0),
                all.len() == m.dom().len(),
                m.dom() == self.edges@.dom(),
                m.dom().finite(),
                forall|i: int| #![trigger all[i]] 0 <= i < all.len() ==>
                    self.edges@.contains_key(all[i].0) && self.edges@[all[i].0] == all[i].1,
                forall|i: int, j: int| 0 <= i < j < all.len() ==> #[trigger] all[i] != #[trigger] all[j],
                total == keys.take(it.index()).to_set().fold(0nat, f),
                degree_sum(m) <= usize::MAX,
                is_fun_commutative(f),
        {
            let ghost i = it.index();
            proof {
                assert(all[i].0 == *k && all[i].1 == *set);
                assert forall|j: int| 0 <= j <= i implies m.dom().contains(#[trigger] keys[j]) by {
                    assert(keys[j] == all[j].0);
                }
                assert forall|j: int| 0 <= j < i implies #[trigger] keys[j] != keys[i] by {
                    if keys[j] == keys[i] {
                        assert(all[j] == all[i]);
                    }
                }
                lemma_degree_step(m, keys, i);
            }
            total = total + set.len();
        }
        proof {
            lemma_take_whole(keys);
            assert forall|k: N| m.dom().contains(k) implies keys.to_set().contains(k) by {
                let v = spec_btree_map_iter(&self.edges).remaining();
                assert(v.contains((&k, &self.edges@[k])));
                let j = choose|j: int| 0 <= j < v.len() && #[trigger] v[j] == (&k, &self.edges@[k]);
                assert(all[j] == (k, self.edges@[k]));
                assert(keys[j] == k);
            }
            assert(keys.to_set() =~= m.dom());
        }
        total / 2
    }

    /// Get the neighbors of a node, in increasing order.
    ///
    /// Returns `None` where the node has no edge.
    pub fn neighbors_iter(&self, node: N) -> (r: Option<Vec<N>>)
        requires
            self.wf(),
        ensures
            r is None <==> !self@.contains_key(node),
            r is None <==> !exists|y: N| self.has_edge_spec(node, y),
            r matches Some(v) ==> {
                &&& v@.to_set() == self@[node]
                &&& v@.no_duplicates()
                &&& increasing_seq(v@)
            },
    {
        proof {
            self.lemma_kept_iff_has_edge(node);
        }
        match self.edges.get(&node) {
            None => None,
            Some(set) => {
                let mut v: Vec<N> = Vec::new();
                let ghost all = set.iter().remaining().unref();
                for x in it: set.iter()
                    invariant
                        all == it.seq().unref(),
                        v@ == all.take(it.index()),
                {
                    assert(*x == all[it.index()]);
                    v.push(*x);
                    proof {
                        assert(all.take(it.index() + 1) =~= all.take(it.index()).push(*x));
                    }
                }
                proof {
                    lemma_take_whole(all);
                    assert(obeys_cmp::<&N>());
                    let s = spec_btree_keys_iter(set).remaining();
                    assert(increasing_seq(s));
                    assert forall|i: int, j: int| 0 <= i < j < all.len() implies #[trigger] all[i].cmp_spec(&all[j]) is Less by {
                        assert(OrdSpec::cmp_spec(&s[i], &s[j]) is Less);
                    }
                    assert(increasing_seq(all));
                }
                Some(v)
            },
        }
    }

    /// Remove every edge at `node`; the node is then no longer counted as a
    /// node of the graph, nor is any neighbor left without edges.
    pub fn remove_node(&mut self, node: N)
        requires
            old(self).wf(),
        ensures
            final(self).wf(),
            forall|x: N, y: N| #[trigger]
                final(self).has_edge_spec(x, y) <==> old(self).has_edge_spec(x, y) && x != node && y
                    != node,
    {
        let neighbors = match self.neighbors_iter(node) {
            Some(v) => v,
            None => Vec::new(),
        };
        let ghost m0 = self@;
        let mut i: usize = 0;
        while i < neighbors.len()
            invariant
                self.wf(),
                0 <= i <= neighbors@.len(),
                neighbors@.to_set() == neighbors_of(m0, node),
                forall|x: N, y: N| #[trigger] adjacent(self@, x, y) <==> adjacent(m0, x, y) && !((x
                    == node && neighbors@.take(i as int).contains(y)) || (y == node
                    && neighbors@.take(i as int).contains(x))),
            decreases neighbors@.len() - i,
        {
            let nb = neighbors[i];
            let ghost before = self@;
            proof {
                assert forall|x: N, y: N| #[trigger] adjacent(unlink(unlink(before, node, nb), nb, node), x, y)
                    <==> adjacent(m0, x, y) && !((x == node && neighbors@.take(i + 1).contains(y)) || (y == node
                    && neighbors@.take(i + 1).contains(x))) by {
                    lemma_unlink_adjacent(before, node, nb, x, y);
                    lemma_unlink_adjacent(unlink(before, node, nb), nb, node, x, y);
                    assert(neighbors@.take(i + 1) =~= neighbors@.take(i as int).push(nb));
                    lemma_push_contains(neighbors@.take(i as int), nb, y);
                    lemma_push_contains(neighbors@.take(i as int), nb, x);
                    assert(neighbors@.to_set().contains(nb));
                    self.lemma_has_edge_symmetric(x, y);
                }
            }
            self.remove_edge(node, nb);
            i = i + 1;
        }
        proof {
            lemma_take_whole(neighbors@);
            assert forall|x: N, y: N| #[trigger] adjacent(self@, x, y) <==> adjacent(m0, x, y) && x != node && y != node by {
                if adjacent(m0, x, y) && x == node {
                    assert(neighbors@.to_set().contains(y));
                }
                if adjacent(m0, x, y) && y == node {
                    assert(adjacent(m0, y, x));
                    assert(neighbors@.to_set().contains(x));
                }
            }
        }
    }

    /// A node is kept in the graph exactly when it has an edge.
    pub proof fn lemma_kept_iff_has_edge(&self, x: N)
        requires
            self.wf(),
        ensures
            self@.contains_key(x) <==> exists|y: N| self.has_edge_spec(x, y),
    {
        lemma_kept_iff_neighbor(self@, x);
        if self@.contains_key(x) {
            let y = choose|y: N| adjacent(self@, x, y);
            assert(self.has_edge_spec(x, y));
        }
        if exists|y: N| self.has_edge_spec(x, y) {
            let y = choose|y: N| self.has_edge_spec(x, y);
            assert(adjacent(self@, x, y));
        }
    }

    /// An edge between `a` and `b` is also an edge between `b` and `a`.
    pub proof fn lemma_has_edge_symmetric(&self, a: N, b: N)
        requires
            self.wf(),
        ensures
            self.has_edge_spec(a, b) == self.has_edge_spec(b, a),
    {
    }

    /// Adding an edge between `a` and `b` makes exactly that edge (in both
    /// directions) appear, and keeps every other edge as it was.
    pub proof fn lemma_add_edge_effect(&self, a: N, b: N, x: N, y: N)
        requires
            self.wf(),
        ensures
            adjacent(link(link(self@, a, b), b, a), x, y) <==> self.has_edge_spec(x, y) || (x == a
                && y == b) || (x == b && y == a),
    {
    }

    /// Removing the edge between `a` and `b` makes exactly that edge (in both
    /// directions) disappear, and keeps every other edge as it was.
    pub proof fn lemma_remove_edge_effect(&self, a: N, b: N, x: N, y: N)
        requires
            self.wf(),
        ensures
            adjacent(unlink(unlink(self@, a, b), b, a), x, y) <==> self.has_edge_spec(x, y) && !((x
                == a && y == b) || (x == b && y == a)),
    {
        lemma_unlink_adjacent(self@, a, b, x, y);
        lemma_unlink_adjacent(unlink(self@, a, b), b, a, x, y);
    }

    /// Removing an edge that was just added to a graph without it gives back
    /// the graph as it was before.
    pub proof fn lemma_remove_undoes_add(&self, a: N, b: N)
        requires
            self.wf(),
            !self.has_edge_spec(a, b),
        ensures
            unlink(unlink(link(link(self@, a, b), b, a), a, b), b, a) == self@,
    {
        lemma_link_unlink_round_trip(self@, a, b);
    }
}

} // verus!
