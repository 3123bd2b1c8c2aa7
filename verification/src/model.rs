use vstd::prelude::*;

verus! {

/// Keeps every number but `v`.
pub open spec fn other_than(v: usize) -> spec_fn(usize) -> bool {
    |x: usize| x != v
}

/// `c` with every `to` taken out of the list at `from`, and then every `from`
/// taken out of the list at `to`.
pub open spec fn disconnected(c: Seq<Seq<usize>>, from: usize, to: usize) -> Seq<Seq<usize>> {
    let c1 = c.update(from as int, c[from as int].filter(other_than(to)));
    c1.update(to as int, c1[to as int].filter(other_than(from)))
}

/// `c` with the connection between `from` and `to` made anew: any old one is
/// taken out, then `to` is appended to the list at `from` and `from` to the
/// list at `to`.
pub open spec fn connected(c: Seq<Seq<usize>>, from: usize, to: usize) -> Seq<Seq<usize>> {
    let c1 = disconnected(c, from, to);
    let c2 = c1.update(from as int, c1[from as int].push(to));
    c2.update(to as int, c2[to as int].push(from))
}

/// Two equal entries of `s` can only be `v`: every other number occurs in
/// `s` at most once.
pub open spec fn repeats_only(s: Seq<usize>, v: usize) -> bool {
    forall|j: int, k: int| 0 <= j < k < s.len() && s[j] == s[k] ==> s[j] == v
}

/// Whether `x` and `y` are the two ends `u` and `v`, in either order.
pub open spec fn is_pair(x: int, y: int, u: int, v: int) -> bool {
    (x == u && y == v) || (x == v && y == u)
}

/// What a chosen candidate does to the network it grows.
#[derive(Debug, Clone, Copy)]
pub enum CandidateNodeType<N> {
    /// A new node, to be connected to the parent.
    New(N),
    /// An existing node, by number, to be connected to the parent.
    Existing(usize),
    /// A new node that splits the connection between the two numbered nodes
    /// and is connected to the parent and to both of them.
    Branch(N, usize, usize),
}

/// Whether each node that `candidate` names is one of the `len` nodes.
pub open spec fn candidate_in_range<N>(candidate: CandidateNodeType<N>, len: nat) -> bool {
    match candidate {
        CandidateNodeType::New(_) => true,
        CandidateNodeType::Existing(e) => e < len,
        CandidateNodeType::Branch(_, a, b) => a < len && b < len,
    }
}

/// The nodes after `candidate` is applied to the nodes `s`.
pub open spec fn candidate_nodes<N>(s: Seq<N>, candidate: CandidateNodeType<N>) -> Seq<N> {
    match candidate {
        CandidateNodeType::New(node) => s.push(node),
        CandidateNodeType::Existing(_) => s,
        CandidateNodeType::Branch(node, _, _) => s.push(node),
    }
}

/// The connections after `candidate` is applied, with `parent` as its parent,
/// to the connections `c`: a new node is numbered `c.len()` and connected to
/// the parent; an existing node is connected to the parent; a branch node is
/// connected to the parent and to both ends of the connection it splits, and
/// that connection is removed.
pub open spec fn candidate_connections<N>(
    c: Seq<Seq<usize>>,
    candidate: CandidateNodeType<N>,
    parent: usize,
) -> Seq<Seq<usize>> {
    let n = c.len() as usize;
    let c1 = c.push(Seq::<usize>::empty());
    match candidate {
        CandidateNodeType::New(_) => connected(c1, parent, n),
        CandidateNodeType::Existing(e) => connected(c, parent, e),
        CandidateNodeType::Branch(_, a, b) => disconnected(
            connected(connected(connected(c1, parent, n), n, a), n, b),
            a,
            b,
        ),
    }
}

/// The number of the node that the parent is connected to when `candidate`
/// is applied to a network of `len` nodes.
pub open spec fn candidate_target<N>(candidate: CandidateNodeType<N>, len: nat) -> nat {
    match candidate {
        CandidateNodeType::Existing(e) => e as nat,
        _ => len,
    }
}

/// The nodes of a road network and the connections between them.
///
/// Nodes are numbered in the order in which they are added. Each node has
/// the list of the nodes it is connected to, in the order in which the
/// connections were made.
#[derive(Debug, Clone)]
pub struct Network<N: Copy> {
    nodes: Vec<N>,
    connection: Vec<Vec<usize>>,
}

impl<N: Copy> Network<N> {
    /// The nodes, by number.
    pub closed spec fn node_seq(&self) -> Seq<N> {
        self.nodes@
    }

    /// For each node, the numbers of the nodes it is connected to.
    pub closed spec fn connection_seq(&self) -> Seq<Seq<usize>> {
        self.connection@.map_values(|v: Vec<usize>| v@)
    }

    /// Whether `from` and `to` are connected.
    pub open spec fn connects(&self, from: usize, to: usize) -> bool {
        self.connection_seq()[from as int].contains(to)
    }

    /// The network is well formed: there is a list of connections for each
    /// node, every connection leads to a node, every connection is recorded
    /// at both of its ends, and a list names no node twice but its own node
    /// (which a connection of a node to itself records twice).
    pub open spec fn wf(&self) -> bool {
        &&& self.connection_seq().len() == self.node_seq().len()
        &&& forall|i: int, k: int|
            0 <= i < self.connection_seq().len() && 0 <= k < self.connection_seq()[i].len()
                ==> #[trigger] self.connection_seq()[i][k] < self.node_seq().len()
        &&& forall|a: usize, b: usize|
            a < self.node_seq().len() && b < self.node_seq().len() ==> (#[trigger] self.connects(a, b)
                <==> #[trigger] self.connects(b, a))
        &&& forall|i: usize|
            #![trigger self.connection_seq()[i as int]]
            i < self.connection_seq().len() ==> repeats_only(self.connection_seq()[i as int], i)
    }

    /// A network without nodes.
    pub fn new() -> (n: Self)
        ensures
            n.wf(),
            n.node_seq() == Seq::<N>::empty(),
    {
        let n = Self { nodes: Vec::new(), connection: Vec::new() };
        assert(n.connection_seq() =~= Seq::<Seq<usize>>::empty());
        n
    }

    /// Add a node without connections; its number is the number of nodes before.
    pub fn add_new_node(&mut self, node: N) -> (id: usize)
        requires
            old(self).wf(),
        ensures
            final(self).wf(),
            id == old(self).node_seq().len(),
            final(self).node_seq() == old(self).node_seq().push(node),
            final(self).connection_seq() == old(self).connection_seq().push(Seq::<usize>::empty()),
    {
        let id = self.nodes.len();
        self.nodes.push(node);
        self.connection.push(Vec::new());
        assert(self.connection_seq() =~= old(self).connection_seq().push(Seq::<usize>::empty()));
        proof {
            assert forall|a: usize, b: usize|
                a < self.node_seq().len() && b < self.node_seq().len() implies (#[trigger] self.connects(a, b)
                <==> #[trigger] self.connects(b, a)) by {
                if a < id && b < id {
                    assert(old(self).connects(a, b) <==> old(self).connects(b, a));
                }
            }
        }
        id
    }

    /// Remove every occurrence of `x` from the list of connections at `at`.
    fn drop_connection(&mut self, at: usize, x: usize)
        requires
            at < old(self).connection_seq().len(),
        ensures
            final(self).node_seq() == old(self).node_seq(),
            final(self).connection_seq() == old(self).connection_seq().update(
                at as int,
                old(self).connection_seq()[at as int].filter(other_than(x)),
            ),
    {
        let ghost keep = other_than(x);
        let ghost orig = self.connection_seq()[at as int];
        let list = &self.connection[at];
        let mut kept: Vec<usize> = Vec::new();
        let mut i: usize = 0;
        proof {
            reveal(Seq::filter);
            assert(orig.take(0).filter(keep) =~= Seq::<usize>::empty());
        }
        while i < list.len()
            invariant
                list@ == orig,
                0 <= i <= orig.len(),
                kept@ == orig.take(i as int).filter(keep),
                keep == other_than(x),
            decreases orig.len() - i,
        {
            proof {
                reveal(Seq::filter);
                assert(orig.take(i + 1).drop_last() =~= orig.take(i as int));
            }
            if list[i] != x {
                kept.push(list[i]);
            }
            i = i + 1;
        }
        proof {
            assert(orig.take(orig.len() as int) =~= orig);
        }
        self.connection.set(at, kept);
        assert(self.connection_seq() =~= old(self).connection_seq().update(at as int, orig.filter(keep)));
    }

    /// Remove the connection between `from` and `to`, from both ends.
    pub fn remove_connection(&mut self, from: usize, to: usize)
        requires
            old(self).wf(),
            from < old(self).node_seq().len(),
            to < old(self).node_seq().len(),
        ensures
            final(self).wf(),
            final(self).node_seq() == old(self).node_seq(),
            final(self).connection_seq() == disconnected(old(self).connection_seq(), from, to),
    {
        let ghost c = self.connection_seq();
        self.drop_connection(from, to);
        self.drop_connection(to, from);
        proof {
            let c2 = self.connection_seq();
            let n = self.node_seq().len();
            assert forall|i: int, k: int|
                0 <= i < c2.len() && 0 <= k < c2[i].len() implies #[trigger] c2[i][k] < n by {
                let c1 = c.update(from as int, c[from as int].filter(other_than(to)));
                if i == to {
                    c1[i].lemma_filter_pred(other_than(from), k);
                    let v = c1[i].filter(other_than(from))[k];
                    assert(c1[i].filter(other_than(from)).contains(v));
                    c1[i].lemma_filter_contains_rev(other_than(from), v);
                    let m = choose|m: int| 0 <= m < c1[i].len() && c1[i][m] == v;
                    if i == from {
                        assert(c[i].filter(other_than(to)).contains(v));
                        c[i].lemma_filter_contains_rev(other_than(to), v);
                        let m2 = choose|m2: int| 0 <= m2 < c[i].len() && c[i][m2] == v;
                        assert(c[i][m2] < n);
                    } else {
                        assert(c[i][m] < n);
                    }
                } else if i == from {
                    let v = c1[i][k];
                    assert(c[i].filter(other_than(to)).contains(v));
                    c[i].lemma_filter_contains_rev(other_than(to), v);
                    let m2 = choose|m2: int| 0 <= m2 < c[i].len() && c[i][m2] == v;
                    assert(c[i][m2] < n);
                } else {
                    assert(c2[i] == c[i]);
                }
            }
            assert forall|a: usize, b: usize|
                a < n && b < n implies (#[trigger] self.connects(a, b) <==> #[trigger] self.connects(
                b,
                a,
            )) by {
                lemma_disconnected_contains(c, from, to, a, b);
                lemma_disconnected_contains(c, from, to, b, a);
                assert(old(self).connects(a, b) <==> old(self).connects(b, a));
            }
            let c1 = c.update(from as int, c[from as int].filter(other_than(to)));
            assert(repeats_only(c[from as int], from));
            lemma_filter_repeats_only(c[from as int], other_than(to), from);
            assert(repeats_only(c1[to as int], to)) by {
                if to != from {
                    assert(c1[to as int] == c[to as int]);
                }
            }
            lemma_filter_repeats_only(c1[to as int], other_than(from), to);
            assert forall|i: usize| i < c2.len() implies repeats_only(
                #[trigger] c2[i as int],
                i,
            ) by {
                if i != from && i != to {
                    assert(c2[i as int] == c[i as int]);
                }
            }
        }
    }

    /// Connect `from` and `to`: any connection between them is made anew, and
    /// each is appended to the list of the other.
    pub fn connect_nodes(&mut self, from: usize, to: usize)
        requires
            old(self).wf(),
            from < old(self).node_seq().len(),
            to < old(self).node_seq().len(),
        ensures
            final(self).wf(),
            final(self).node_seq() == old(self).node_seq(),
            final(self).connection_seq() == connected(old(self).connection_seq(), from, to),
    {
        let ghost c = self.connection_seq();
        self.remove_connection(from, to);
        let ghost c1 = self.connection_seq();
        let mut list = self.connection[from].clone();
        assert(list@ =~= c1[from as int]);
        list.push(to);
        self.connection.set(from, list);
        assert(self.connection_seq() =~= c1.update(from as int, c1[from as int].push(to)));
        let ghost c2 = self.connection_seq();
        let mut list = self.connection[to].clone();
        assert(list@ =~= c2[to as int]);
        list.push(from);
        self.connection.set(to, list);
        assert(self.connection_seq() =~= c2.update(to as int, c2[to as int].push(from)));
        proof {
            let c3 = self.connection_seq();
            let n = self.node_seq().len();
            assert forall|i: int, k: int|
                0 <= i < c3.len() && 0 <= k < c3[i].len() implies #[trigger] c3[i][k] < n by {
                if i == to {
                    if k < c2[i].len() {
                        assert(c3[i][k] == c2[i][k]);
                        if i == from {
                            if k < c1[i].len() {
                                assert(c2[i][k] == c1[i][k]);
                            }
                        }
                    }
                } else if i == from {
                    if k < c1[i].len() {
                        assert(c3[i][k] == c1[i][k]);
                    }
                }
            }
            assert forall|a: usize, b: usize|
                a < n && b < n implies (#[trigger] self.connects(a, b) <==> #[trigger] self.connects(
                b,
                a,
            )) by {
                lemma_connected_contains(c, from, to, a, b);
                lemma_connected_contains(c, from, to, b, a);
                assert(old(self).connects(a, b) <==> old(self).connects(b, a));
            }
            lemma_disconnected_contains(c, from, to, from, to);
            lemma_disconnected_contains(c, from, to, to, from);
            assert(repeats_only(c1[from as int], from));
            lemma_push_repeats_only(c1[from as int], to, from);
            assert(repeats_only(c2[to as int], to));
            lemma_push_repeats_only(c2[to as int], from, to);
            assert forall|i: usize| i < c3.len() implies repeats_only(
                #[trigger] c3[i as int],
                i,
            ) by {
                if i != from && i != to {
                    assert(c3[i as int] == c1[i as int]);
                }
            }
        }
    }

    /// Get the node with the number `id`.
    pub fn get_node(&self, id: usize) -> (r: Option<N>)
        ensures
            r is Some <==> id < self.node_seq().len(),
            r matches Some(n) ==> n == self.node_seq()[id as int],
    {
        if id < self.nodes.len() {
            Some(self.nodes[id])
        } else {
            None
        }
    }

    /// All nodes, by number.
    pub fn nodes(&self) -> (r: &[N])
        ensures
            r@ == self.node_seq(),
    {
        self.nodes.as_slice()
    }

    /// Whether `from` is connected to `to`; `None` where one of them is not a node.
    pub fn has_connection(&self, from: usize, to: usize) -> (r: Option<bool>)
        requires
            self.wf(),
        ensures
            r is None <==> (from >= self.node_seq().len() || to >= self.node_seq().len()),
            r matches Some(b) ==> b == self.connects(from, to),
    {
        if from >= self.connection.len() || to >= self.connection.len() {
            return None;
        }
        let list = &self.connection[from];
        let mut i: usize = 0;
        while i < list.len()
            invariant
                from < self.node_seq().len(),
                to < self.node_seq().len(),
                self.connection_seq().len() == self.node_seq().len(),
                list@ == self.connection_seq()[from as int],
                0 <= i <= list@.len(),
                forall|k: int| 0 <= k < i ==> list@[k] != to,
            decreases list@.len() - i,
        {
            if list[i] == to {
                return Some(true);
            }
            i = i + 1;
        }
        Some(false)
    }

    /// The numbers of the nodes that `from` is connected to, in the order in
    /// which the connections were made, each once but `from` itself (which a
    /// connection to itself lists twice); nothing where `from` is not a node.
    pub fn neighbors(&self, from: usize) -> (r: Vec<usize>)
        requires
            self.wf(),
        ensures
            from < self.node_seq().len() ==> r@ == self.connection_seq()[from as int],
            from < self.node_seq().len() ==> repeats_only(r@, from),
            from < self.node_seq().len() && !self.connects(from, from) ==> r@.no_duplicates(),
            from >= self.node_seq().len() ==> r@.len() == 0,
    {
        if from >= self.connection.len() {
            return Vec::new();
        }
        let r = self.connection[from].clone();
        assert(r@ =~= self.connection_seq()[from as int]);
        proof {
            assert(repeats_only(self.connection_seq()[from as int], from));
            if !self.connects(from, from) {
                assert forall|j: int, k: int| 0 <= j < r@.len() && 0 <= k < r@.len() && j != k implies r@[j]
                    != r@[k] by {
                    if r@[j] == r@[k] {
                        assert(self.connection_seq()[from as int][j] == from);
                    }
                }
            }
        }
        r
    }
}

impl<N: Copy> Network<N> {
    /// Apply a chosen candidate whose parent is the node `parent_id`, and
    /// return the number of the node the parent was connected to.
    pub fn apply_candidate(&mut self, candidate: CandidateNodeType<N>, parent_id: usize) -> (id: usize)
        requires
            old(self).wf(),
            parent_id < old(self).node_seq().len(),
            candidate_in_range(candidate, old(self).node_seq().len()),
        ensures
            final(self).wf(),
            final(self).node_seq() == candidate_nodes(old(self).node_seq(), candidate),
            final(self).connection_seq() == candidate_connections(
                old(self).connection_seq(),
                candidate,
                parent_id,
            ),
            id == candidate_target(candidate, old(self).node_seq().len()),
            final(self).connects(parent_id, id),
            final(self).connects(id, parent_id),
            candidate matches CandidateNodeType::Branch(_, a, b) ==> {
                &&& final(self).connects(id, a)
                &&& final(self).connects(id, b)
                &&& !final(self).connects(a, b)
            },
            forall|x: usize, y: usize|
                #![trigger final(self).connects(x, y)]
                x < final(self).node_seq().len() && y < final(self).node_seq().len() ==> ({
                    let n = old(self).node_seq().len() as int;
                    let was = x < n && y < n && old(self).connects(x, y);
                    final(self).connects(x, y) <==> match candidate {
                        CandidateNodeType::New(_) => was || is_pair(x as int, y as int, parent_id as int, n),
                        CandidateNodeType::Existing(e) => was || is_pair(
                            x as int,
                            y as int,
                            parent_id as int,
                            e as int,
                        ),
                        CandidateNodeType::Branch(_, a, b) => (was && !is_pair(
                            x as int,
                            y as int,
                            a as int,
                            b as int,
                        )) || is_pair(x as int, y as int, n, parent_id as int) || is_pair(
                            x as int,
                            y as int,
                            n,
                            a as int,
                        ) || is_pair(x as int, y as int, n, b as int),
                    }
                }),
    {
        let ghost before = *self;
        let count = self.nodes.len();
        assert(count == before.node_seq().len());
        let id = self.apply_candidate_steps(candidate, parent_id);
        proof {
            assert forall|x: usize, y: usize|
                x < self.node_seq().len() && y < self.node_seq().len() implies ({
                    let n = before.node_seq().len() as int;
                    let was = x < n && y < n && before.connects(x, y);
                    #[trigger] self.connects(x, y) <==> match candidate {
                        CandidateNodeType::New(_) => was || is_pair(x as int, y as int, parent_id as int, n),
                        CandidateNodeType::Existing(e) => was || is_pair(
                            x as int,
                            y as int,
                            parent_id as int,
                            e as int,
                        ),
                        CandidateNodeType::Branch(_, a, b) => (was && !is_pair(
                            x as int,
                            y as int,
                            a as int,
                            b as int,
                        )) || is_pair(x as int, y as int, n, parent_id as int) || is_pair(
                            x as int,
                            y as int,
                            n,
                            a as int,
                        ) || is_pair(x as int, y as int, n, b as int),
                    }
                }) by {
                before.lemma_candidate_roads(self, candidate, parent_id, x, y);
            }
        }
        id
    }

    /// The steps of `apply_candidate`: add the new node, if any, then make
    /// and remove the connections that the candidate calls for.
    fn apply_candidate_steps(&mut self, candidate: CandidateNodeType<N>, parent_id: usize) -> (id: usize)
        requires
            old(self).wf(),
            parent_id < old(self).node_seq().len(),
            candidate_in_range(candidate, old(self).node_seq().len()),
        ensures
            final(self).wf(),
            final(self).node_seq() == candidate_nodes(old(self).node_seq(), candidate),
            final(self).connection_seq() == candidate_connections(
                old(self).connection_seq(),
                candidate,
                parent_id,
            ),
            id == candidate_target(candidate, old(self).node_seq().len()),
            final(self).connects(parent_id, id),
            final(self).connects(id, parent_id),
            candidate matches CandidateNodeType::Branch(_, a, b) ==> {
                &&& final(self).connects(id, a)
                &&& final(self).connects(id, b)
                &&& !final(self).connects(a, b)
            },
    {
        let ghost c = self.connection_seq();
        match candidate {
            CandidateNodeType::New(node) => {
                let id = self.add_new_node(node);
                self.connect_nodes(parent_id, id);
                proof {
                    let c1 = c.push(Seq::<usize>::empty());
                    lemma_connected_contains(c1, parent_id, id, parent_id, id);
                    lemma_connected_contains(c1, parent_id, id, id, parent_id);
                }
                id
            },
            CandidateNodeType::Existing(e) => {
                self.connect_nodes(parent_id, e);
                proof {
                    lemma_connected_contains(c, parent_id, e, parent_id, e);
                    lemma_connected_contains(c, parent_id, e, e, parent_id);
                }
                e
            },
            CandidateNodeType::Branch(node, a, b) => {
                let id = self.add_new_node(node);
                self.connect_nodes(parent_id, id);
                self.connect_nodes(id, a);
                self.connect_nodes(id, b);
                self.remove_connection(a, b);
                proof {
                    let c1 = c.push(Seq::<usize>::empty());
                    let c2 = connected(c1, parent_id, id);
                    let c3 = connected(c2, id, a);
                    let c4 = connected(c3, id, b);
                    lemma_connected_contains(c1, parent_id, id, parent_id, id);
                    lemma_connected_contains(c1, parent_id, id, id, parent_id);
                    lemma_connected_contains(c2, id, a, parent_id, id);
                    lemma_connected_contains(c2, id, a, id, parent_id);
                    lemma_connected_contains(c2, id, a, id, a);
                    lemma_connected_contains(c3, id, b, parent_id, id);
                    lemma_connected_contains(c3, id, b, id, parent_id);
                    lemma_connected_contains(c3, id, b, id, a);
                    lemma_connected_contains(c3, id, b, id, b);
                    lemma_disconnected_contains(c4, a, b, parent_id, id);
                    lemma_disconnected_contains(c4, a, b, id, parent_id);
                    lemma_disconnected_contains(c4, a, b, id, a);
                    lemma_disconnected_contains(c4, a, b, id, b);
                    lemma_disconnected_contains(c4, a, b, a, b);
                }
                id
            },
        }
    }
}

impl<N: Copy> Network<N> {
    /// What applying a candidate does to the connections, pair by pair.
    /// Between two nodes that were there before, a connection stays exactly
    /// as it was, except that the parent gets joined to an existing target,
    /// and a branch takes away the connection it splits. The new node of a
    /// new or branch candidate is joined to the parent (and, for a branch, to
    /// both ends of the split connection), and to nothing else.
    pub proof fn lemma_candidate_roads(
        &self,
        after: &Self,
        candidate: CandidateNodeType<N>,
        parent: usize,
        x: usize,
        y: usize,
    )
        requires
            self.wf(),
            self.node_seq().len() <= usize::MAX,
            parent < self.node_seq().len(),
            candidate_in_range(candidate, self.node_seq().len()),
            after.connection_seq() == candidate_connections(self.connection_seq(), candidate, parent),
            x < after.connection_seq().len(),
            y < after.connection_seq().len(),
        ensures
            ({
                let n = self.node_seq().len() as int;
                let was = x < n && y < n && self.connects(x, y);
                after.connects(x, y) <==> match candidate {
                    CandidateNodeType::New(_) => was || is_pair(x as int, y as int, parent as int, n),
                    CandidateNodeType::Existing(e) => was || is_pair(x as int, y as int, parent as int, e as int),
                    CandidateNodeType::Branch(_, a, b) => (was && !is_pair(x as int, y as int, a as int, b as int))
                        || is_pair(x as int, y as int, n, parent as int) || is_pair(x as int, y as int, n, a as int)
                        || is_pair(x as int, y as int, n, b as int),
                }
            }),
    {
        let c = self.connection_seq();
        let n = c.len();
        let nu = n as usize;
        let c1 = c.push(Seq::<usize>::empty());
        let was = x < n && y < n && self.connects(x, y);
        assert forall|i: usize, v: usize| i < n implies (#[trigger] c[i as int].contains(v) ==> v < n) by {
            if c[i as int].contains(v) {
                let k = choose|k: int| 0 <= k < c[i as int].len() && c[i as int][k] == v;
                assert(c[i as int][k] < n);
            }
        }
        if x < n {
            assert(c1[x as int] == c[x as int]);
            assert(c[x as int].contains(y) == was);
        }
        if x == n {
            assert(!c1[x as int].contains(y));
        }
        match candidate {
            CandidateNodeType::New(_) => {
                lemma_connected_contains(c1, parent, nu, x, y);
            },
            CandidateNodeType::Existing(e) => {
                lemma_connected_contains(c, parent, e, x, y);
            },
            CandidateNodeType::Branch(_, a, b) => {
                let c2 = connected(c1, parent, nu);
                let c3 = connected(c2, nu, a);
                let c4 = connected(c3, nu, b);
                lemma_connected_contains(c1, parent, nu, x, y);
                lemma_connected_contains(c2, nu, a, x, y);
                lemma_connected_contains(c3, nu, b, x, y);
                lemma_disconnected_contains(c4, a, b, x, y);
            },
        }
    }
}

impl<N: Copy> Network<N> {
    /// Connections are symmetric: `a` is connected to `b` exactly when `b` is connected to `a`.
    pub proof fn lemma_connects_symmetric(&self, a: usize, b: usize)
        requires
            self.wf(),
            a < self.node_seq().len(),
            b < self.node_seq().len(),
        ensures
            self.connects(a, b) == self.connects(b, a),
    {
    }

    /// Removing the connection between two nodes that were just connected,
    /// and were not connected before, gives back the connections as they were.
    pub proof fn lemma_remove_undoes_connect(&self, from: usize, to: usize)
        requires
            self.wf(),
            from < self.node_seq().len(),
            to < self.node_seq().len(),
            !self.connects(from, to),
        ensures
            disconnected(connected(self.connection_seq(), from, to), from, to) == self.connection_seq(),
    {
        let c = self.connection_seq();
        assert(!self.connects(to, from));
        lemma_filter_all_kept(c[from as int], to);
        lemma_filter_all_kept(c[to as int], from);
        let c1 = disconnected(c, from, to);
        assert(c1 =~= c);
        let c2 = c1.update(from as int, c1[from as int].push(to));
        let c3 = c2.update(to as int, c2[to as int].push(from));
        let d1 = c3.update(from as int, c3[from as int].filter(other_than(to)));
        let d2 = d1.update(to as int, d1[to as int].filter(other_than(from)));
        if from == to {
            assert(c3[from as int] == c[from as int].push(to).push(from));
            lemma_filter_push_dropped(c[from as int].push(to), to);
            lemma_filter_push_dropped(c[from as int], to);
            assert(d1[from as int] == c[from as int]);
            assert(d2[from as int] == c[from as int]);
        } else {
            lemma_filter_push_dropped(c[from as int], to);
            lemma_filter_push_dropped(c[to as int], from);
            assert(d2[from as int] == c[from as int]);
            assert(d2[to as int] == c[to as int]);
        }
        assert(d2 =~= c);
    }
}

/// Filtering out a value that a sequence does not hold leaves it as it is.
pub proof fn lemma_filter_all_kept(s: Seq<usize>, v: usize)
    requires
        !s.contains(v),
    ensures
        s.filter(other_than(v)) == s,
    decreases s.len(),
{
    reveal(Seq::filter);
    if s.len() > 0 {
        assert(!s.drop_last().contains(v)) by {
            if s.drop_last().contains(v) {
                let m = choose|m: int| 0 <= m < s.drop_last().len() && s.drop_last()[m] == v;
                assert(s[m] == v);
            }
        }
        lemma_filter_all_kept(s.drop_last(), v);
        assert(s.drop_last().push(s.last()) =~= s);
    }
}

/// Filtering out a value that was just appended drops that value again.
pub proof fn lemma_filter_push_dropped(s: Seq<usize>, v: usize)
    ensures
        s.push(v).filter(other_than(v)) == s.filter(other_than(v)),
{
    reveal(Seq::filter);
    assert(s.push(v).drop_last() =~= s);
}

/// What `disconnected` leaves of the connections.
pub proof fn lemma_disconnected_contains(c: Seq<Seq<usize>>, from: usize, to: usize, a: usize, b: usize)
    requires
        from < c.len(),
        to < c.len(),
        a < c.len(),
    ensures
        disconnected(c, from, to)[a as int].contains(b) <==> c[a as int].contains(b) && !(a == from
            && b == to) && !(a == to && b == from),
{
    let keep_to = other_than(to);
    let keep_from = other_than(from);
    let c1 = c.update(from as int, c[from as int].filter(keep_to));
    if a == from {
        lemma_filter_membership(c[a as int], keep_to, b);
    }
    if a == to {
        lemma_filter_membership(c1[a as int], keep_from, b);
        if a == from {
            lemma_filter_membership(c[a as int], keep_to, b);
        }
    }
}

/// What `connected` makes of the connections.
pub proof fn lemma_connected_contains(c: Seq<Seq<usize>>, from: usize, to: usize, a: usize, b: usize)
    requires
        from < c.len(),
        to < c.len(),
        a < c.len(),
    ensures
        connected(c, from, to)[a as int].contains(b) <==> (c[a as int].contains(b) || (a == from
            && b == to) || (a == to && b == from)),
{
    let c1 = disconnected(c, from, to);
    lemma_disconnected_contains(c, from, to, a, b);
    let c2 = c1.update(from as int, c1[from as int].push(to));
    let c3 = c2.update(to as int, c2[to as int].push(from));
    if a == from {
        assert(c2[a as int] == c1[a as int].push(to));
        assert(c2[a as int].contains(b) <==> c1[a as int].contains(b) || b == to) by {
            if c2[a as int].contains(b) && b != to {
                let m = choose|m: int| 0 <= m < c2[a as int].len() && c2[a as int][m] == b;
                assert(c1[a as int][m] == b);
            }
            if c1[a as int].contains(b) {
                let m = choose|m: int| 0 <= m < c1[a as int].len() && c1[a as int][m] == b;
                assert(c2[a as int][m] == b);
            }
            if b == to {
                assert(c2[a as int][c1[a as int].len() as int] == b);
            }
        }
    } else {
        assert(c2[a as int] == c1[a as int]);
    }
    if a == to {
        assert(c3[a as int].contains(b) <==> c2[a as int].contains(b) || b == from) by {
            if c3[a as int].contains(b) && b != from {
                let m = choose|m: int| 0 <= m < c3[a as int].len() && c3[a as int][m] == b;
                assert(c2[a as int][m] == b);
            }
            if c2[a as int].contains(b) {
                let m = choose|m: int| 0 <= m < c2[a as int].len() && c2[a as int][m] == b;
                assert(c3[a as int][m] == b);
            }
            if b == from {
                assert(c3[a as int][c2[a as int].len() as int] == b);
            }
        }
    } else {
        assert(c3[a as int] == c2[a as int]);
    }
}

/// A value is in a filtered sequence exactly when it is in the sequence and kept.
pub proof fn lemma_filter_membership(s: Seq<usize>, keep: spec_fn(usize) -> bool, v: usize)
    ensures
        s.filter(keep).contains(v) <==> s.contains(v) && keep(v),
{
    if s.filter(keep).contains(v) {
        s.lemma_filter_contains_rev(keep, v);
        let m = choose|m: int| 0 <= m < s.filter(keep).len() && s.filter(keep)[m] == v;
        s.lemma_filter_pred(keep, m);
    }
    if s.contains(v) && keep(v) {
        let m = choose|m: int| 0 <= m < s.len() && s[m] == v;
        s.lemma_filter_contains(keep, m);
    }
}

/// Appending a number that is new to the sequence, or is `v`, keeps two
/// equal entries only where they are `v`.
pub proof fn lemma_push_repeats_only(s: Seq<usize>, x: usize, v: usize)
    requires
        repeats_only(s, v),
        !s.contains(x) || x == v,
    ensures
        repeats_only(s.push(x), v),
{
    let t = s.push(x);
    assert forall|j: int, k: int| 0 <= j < k < t.len() && t[j] == t[k] implies t[j] == v by {
        if k == s.len() {
            assert(s[j] == x);
        } else {
            assert(s[j] == t[j] && s[k] == t[k]);
        }
    }
}

/// Filtering keeps two equal entries only where the sequence had them.
pub proof fn lemma_filter_repeats_only(s: Seq<usize>, keep: spec_fn(usize) -> bool, v: usize)
    requires
        repeats_only(s, v),
    ensures
        repeats_only(s.filter(keep), v),
    decreases s.len(),
{
    reveal(Seq::filter);
    if s.len() > 0 {
        let d = s.drop_last();
        assert(repeats_only(d, v)) by {
            assert forall|j: int, k: int| 0 <= j < k < d.len() && d[j] == d[k] implies d[j] == v by {
                assert(s[j] == d[j] && s[k] == d[k]);
            }
        }
        lemma_filter_repeats_only(d, keep, v);
        if keep(s.last()) {
            lemma_filter_membership(d, keep, s.last());
            if d.contains(s.last()) {
                let m = choose|m: int| 0 <= m < d.len() && d[m] == s.last();
                assert(s[m] == s[s.len() - 1]);
            }
            lemma_push_repeats_only(d.filter(keep), s.last(), v);
        }
    }
}

} // verus!
