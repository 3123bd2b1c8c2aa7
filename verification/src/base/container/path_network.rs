use std::cmp::Ordering;
use std::collections::BTreeMap;
use vstd::prelude::*;
use vstd::std_specs::btree::{increasing_seq, spec_btree_map_iter, spec_btree_map_len};
use vstd::std_specs::cmp::{OrdSpec, PartialEqSpec, PartialOrdSpecImpl};
use vstd::std_specs::iter::IteratorSpec;

use crate::base::generator::id_generator::IdGenerator;

verus! {

/// ID for identifying a node in the network.
#[derive(Debug, Clone, Copy, PartialEq, Eq, Structural, Ord)]
pub struct NodeId(usize);

impl NodeId {
    /// The number that identifies the node.
    pub closed spec fn id(self) -> usize {
        self.0
    }

    /// Create the ID with the given number.
    pub fn new(id: usize) -> (r: Self)
        ensures
            r.id() == id,
    {
        Self(id)
    }

    /// Two IDs are the same exactly when their numbers are.
    pub broadcast proof fn lemma_id_injective(a: NodeId, b: NodeId)
        ensures
            #![trigger a.id(), b.id()]
            a.id() == b.id() <==> a == b,
    {
    }
}

impl PartialOrd for NodeId {
    /// IDs are ordered by their numbers.
    fn partial_cmp(&self, other: &Self) -> (r: Option<Ordering>) {
        if self.0 < other.0 {
            Some(Ordering::Less)
        } else if self.0 == other.0 {
            Some(Ordering::Equal)
        } else {
            Some(Ordering::Greater)
        }
    }
}

impl PartialOrdSpecImpl for NodeId {
    open spec fn obeys_partial_cmp_spec() -> bool {
        true
    }

    open spec fn partial_cmp_spec(&self, other: &Self) -> Option<Ordering> {
        if self.id() < other.id() {
            Some(Ordering::Less)
        } else if self.id() == other.id() {
            Some(Ordering::Equal)
        } else {
            Some(Ordering::Greater)
        }
    }
}

/// Whether the path `p` joins `a` and `b`, in either direction.
pub open spec fn joins<H, PA>(p: (NodeId, NodeId, H, PA), a: NodeId, b: NodeId) -> bool {
    (p.0 == a && p.1 == b) || (p.0 == b && p.1 == a)
}

/// Whether the path `p` joins `a` and `b` (in either direction) with a handle equal to `h`.
pub open spec fn is_path<H: PartialEq, PA>(
    p: (NodeId, NodeId, H, PA),
    a: NodeId,
    b: NodeId,
    h: H,
) -> bool {
    joins(p, a, b) && p.2.eq_spec(&h)
}

/// The attribute of the first path in `s` that joins `a` and `b` with a handle
/// equal to `h`, if there is one.
pub open spec fn first_path<H: PartialEq, PA>(
    s: Seq<(NodeId, NodeId, H, PA)>,
    a: NodeId,
    b: NodeId,
    h: H,
) -> Option<PA>
    decreases s.len(),
{
    if s.len() == 0 {
        None
    } else if is_path(s[0], a, b, h) {
        Some(s[0].3)
    } else {
        first_path(s.drop_first(), a, b, h)
    }
}

/// Where `first_path` finds something, some path in the sequence matches.
proof fn lemma_first_path_witness<H: PartialEq, PA>(
    s: Seq<(NodeId, NodeId, H, PA)>,
    a: NodeId,
    b: NodeId,
    h: H,
)
    ensures
        first_path(s, a, b, h) is Some ==> exists|k: int|
            0 <= k < s.len() && is_path(#[trigger] s[k], a, b, h),
    decreases s.len(),
{
    if s.len() > 0 && !is_path(s[0], a, b, h) {
        lemma_first_path_witness(s.drop_first(), a, b, h);
        if first_path(s, a, b, h) is Some {
            let k = choose|k: int|
                0 <= k < s.drop_first().len() && is_path(#[trigger] s.drop_first()[k], a, b, h);
            assert(s[k + 1] == s.drop_first()[k]);
        }
    }
}

/// `first_path` does not care which end is named first.
proof fn lemma_first_path_either_end<H: PartialEq, PA>(
    s: Seq<(NodeId, NodeId, H, PA)>,
    a: NodeId,
    b: NodeId,
    h: H,
)
    ensures
        first_path(s, a, b, h) == first_path(s, b, a, h),
    decreases s.len(),
{
    if s.len() > 0 {
        lemma_first_path_either_end(s.drop_first(), a, b, h);
    }
}

/// Appending a matching path to a sequence that has none finds the appended one.
proof fn lemma_first_path_push<H: PartialEq, PA>(
    s: Seq<(NodeId, NodeId, H, PA)>,
    p: (NodeId, NodeId, H, PA),
    a: NodeId,
    b: NodeId,
    h: H,
)
    requires
        first_path(s, a, b, h) is None,
        is_path(p, a, b, h),
    ensures
        first_path(s.push(p), a, b, h) == Some(p.3),
    decreases s.len(),
{
    if s.len() > 0 {
        assert(s.push(p).drop_first() =~= s.drop_first().push(p));
        lemma_first_path_push(s.drop_first(), p, a, b, h);
    }
}

/// In a strictly increasing sequence of numbers that are not negative, the
/// number at position `i` is at least `i`.
proof fn lemma_increasing_lower(p: Seq<int>, i: int)
    requires
        0 <= i < p.len(),
        forall|k: int| 0 <= k < p.len() ==> 0 <= #[trigger] p[k],
        forall|a: int, b: int| 0 <= a < b < p.len() ==> #[trigger] p[a] < #[trigger] p[b],
    ensures
        p[i] >= i,
    decreases i,
{
    if i > 0 {
        lemma_increasing_lower(p, i - 1);
    }
}

/// In a strictly increasing sequence of numbers below `n`, the number at
/// position `i` leaves room for the ones after it.
proof fn lemma_increasing_upper(p: Seq<int>, n: int, i: int)
    requires
        0 <= i < p.len(),
        forall|k: int| 0 <= k < p.len() ==> #[trigger] p[k] < n,
        forall|a: int, b: int| 0 <= a < b < p.len() ==> #[trigger] p[a] < #[trigger] p[b],
    ensures
        p[i] <= n - p.len() + i,
    decreases p.len() - i,
{
    if i < p.len() - 1 {
        lemma_increasing_upper(p, n, i + 1);
    }
}

/// A strictly increasing sequence of `n` numbers from `0` to `n - 1` holds
/// each at its own position.
proof fn lemma_increasing_fills(p: Seq<int>)
    requires
        forall|k: int| 0 <= k < p.len() ==> 0 <= #[trigger] p[k] < p.len(),
        forall|a: int, b: int| 0 <= a < b < p.len() ==> #[trigger] p[a] < #[trigger] p[b],
    ensures
        forall|i: int| 0 <= i < p.len() ==> #[trigger] p[i] == i,
{
    assert forall|i: int| 0 <= i < p.len() implies #[trigger] p[i] == i by {
        lemma_increasing_lower(p, i);
        lemma_increasing_upper(p, p.len() as int, i);
    }
}

impl<N, H, PA> Default for PathNetwork<N, H, PA> where N: Clone, H: Copy + Eq, PA: Clone {
    /// A network without nodes and paths.
    fn default() -> (n: Self)
        ensures
            n.node_map() == Map::<usize, N>::empty(),
            n.path_seq() == Seq::<(NodeId, NodeId, H, PA)>::empty(),
            n.next_id() == 0,
            H::obeys_eq_spec() ==> n.wf(),
    {
        let n = Self {
            nodes: BTreeMap::new(),
            path_connection: Vec::new(),
            id_generator: IdGenerator::new(),
        };
        assert(n.path_seq() =~= Seq::<(NodeId, NodeId, H, PA)>::empty());
        n
    }
}

/// One step of filtering a growing prefix of a sequence.
pub proof fn lemma_filter_take_step<A>(s: Seq<A>, p: spec_fn(A) -> bool, j: int)
    requires
        0 <= j < s.len(),
    ensures
        s.take(j + 1).filter(p) == (if p(s[j]) {
            s.take(j).filter(p).push(s[j])
        } else {
            s.take(j).filter(p)
        }),
{
    reveal(Seq::filter);
    assert(s.take(j + 1).drop_last() =~= s.take(j));
    assert(s.take(j + 1).last() == s[j]);
}

/// A `BTreeMap` hands out its keys by increasing number.
proof fn lemma_increasing_keys<V>(m: &BTreeMap<usize, V>)
    requires
        increasing_seq(
            spec_btree_map_iter(m).remaining().map_values(|kv: (&usize, &V)| *kv.0),
        ),
    ensures
        forall|i: int, j: int|
            0 <= i < j < spec_btree_map_iter(m).remaining().len() ==> *(
            #[trigger] spec_btree_map_iter(m).remaining()[i]).0 < *(
            #[trigger] spec_btree_map_iter(m).remaining()[j]).0,
{
    let v = spec_btree_map_iter(m).remaining();
    let keys = v.map_values(|kv: (&usize, &V)| *kv.0);
    assert(increasing_seq(keys));
    assert forall|i: int, j: int| 0 <= i < j < v.len() implies *(#[trigger] v[i]).0 < *(
    #[trigger] v[j]).0 by {
        assert(OrdSpec::cmp_spec(&keys[i], &keys[j]) is Less);
    }
}

/// Renaming the nodes of a sequence of paths by positions in an increasing
/// list of IDs keeps which pairs of nodes are joined with which handles.
proof fn lemma_first_path_renamed<H: PartialEq, PA>(
    s_new: Seq<(NodeId, NodeId, H, PA)>,
    s_old: Seq<(NodeId, NodeId, H, PA)>,
    order: Seq<NodeId>,
    a: NodeId,
    b: NodeId,
    h: H,
)
    requires
        s_new.len() == s_old.len(),
        a.0 < order.len(),
        b.0 < order.len(),
        forall|i: int, j: int| 0 <= i < j < order.len() ==> (#[trigger] order[i]).0 < (#[trigger] order[j]).0,
        forall|k: int|
            #![trigger s_new[k]]
            0 <= k < s_new.len() ==> {
                &&& s_new[k].0.0 < order.len()
                &&& s_new[k].1.0 < order.len()
                &&& order[s_new[k].0.0 as int] == s_old[k].0
                &&& order[s_new[k].1.0 as int] == s_old[k].1
                &&& s_new[k].2 == s_old[k].2
            },
    ensures
        first_path(s_new, a, b, h) is Some <==> first_path(
            s_old,
            order[a.0 as int],
            order[b.0 as int],
            h,
        ) is Some,
        first_path(s_new, a, b, h) is Some ==> exists|k: int|
            0 <= k < s_new.len() && first_path(s_new, a, b, h) == Some(#[trigger] s_new[k].3)
                && first_path(s_old, order[a.0 as int], order[b.0 as int], h) == Some(s_old[k].3),
    decreases s_new.len(),
{
    if s_new.len() > 0 {
        let p = s_new[0];
        let q = s_old[0];
        let oa = order[a.0 as int];
        let ob = order[b.0 as int];
        assert forall|x: usize, y: usize| x < order.len() && y < order.len() && order[x as int]
            == order[y as int] implies x == y by {
            if x < y {
                assert(order[x as int].0 < order[y as int].0);
            } else if y < x {
                assert(order[y as int].0 < order[x as int].0);
            }
        }
        assert(joins(p, a, b) <==> joins(q, oa, ob));
        lemma_first_path_renamed(s_new.drop_first(), s_old.drop_first(), order, a, b, h);
        if !is_path(p, a, b, h) && first_path(s_new, a, b, h) is Some {
            let k = choose|k: int|
                0 <= k < s_new.drop_first().len() && first_path(s_new.drop_first(), a, b, h) == Some(
                    #[trigger] s_new.drop_first()[k].3,
                ) && first_path(s_old.drop_first(), oa, ob, h) == Some(s_old.drop_first()[k].3);
            assert(s_new[k + 1].3 == s_new.drop_first()[k].3);
        }
    }
}

/// Which paths a removal takes out of the network.
enum PathSelection<H> {
    /// The paths that join two nodes with a handle equal to the given one.
    Handle(NodeId, NodeId, H),
    /// All paths that join two nodes.
    Between(NodeId, NodeId),
    /// All paths that start or end at a node.
    Touching(NodeId),
}

/// Whether the selection takes the path `p`.
spec fn selected<H: PartialEq, PA>(sel: PathSelection<H>, p: (NodeId, NodeId, H, PA)) -> bool {
    match sel {
        PathSelection::Handle(a, b, h) => is_path(p, a, b, h),
        PathSelection::Between(a, b) => joins(p, a, b),
        PathSelection::Touching(n) => p.0 == n || p.1 == n,
    }
}

/// Whether the path `p` starts or ends at `n`.
pub open spec fn touches<H, PA>(p: (NodeId, NodeId, H, PA), n: NodeId) -> bool {
    p.0 == n || p.1 == n
}

/// Path network represents a network of nodes and paths.
///
/// Each node is kept under a `NodeId`. Each path joins two nodes and carries a
/// handle, which tells two paths between the same nodes apart, and an
/// attribute. The paths are kept in the order in which they were added.
///
/// This struct provides functions to add, remove, and search nodes and paths.
#[derive(Debug, Clone)]
pub struct PathNetwork<N, H, PA> where N: Clone, H: Copy + Eq, PA: Clone {
    nodes: BTreeMap<usize, N>,
    path_connection: Vec<(NodeId, NodeId, H, PA)>,
    id_generator: IdGenerator,
}

impl<N, H, PA> PathNetwork<N, H, PA> where N: Clone, H: Copy + Eq, PA: Clone {
    /// The nodes of the network, by the numbers of their IDs.
    pub closed spec fn node_map(&self) -> Map<usize, N> {
        self.nodes@
    }

    /// The paths of the network, in the order in which they were added.
    pub closed spec fn path_seq(&self) -> Seq<(NodeId, NodeId, H, PA)> {
        self.path_connection@
    }

    /// The number of the ID that the next added node gets.
    pub closed spec fn next_id(&self) -> nat {
        self.id_generator.next()
    }

    /// `list` lists every node of the network once, with its ID, by
    /// increasing ID.
    pub open spec fn is_listing(&self, list: Seq<(NodeId, &N)>) -> bool {
        &&& list.len() == self.node_map().dom().len()
        &&& forall|i: int| #![trigger list[i]] 0 <= i < list.len() ==> self.has_node(list[i].0)
            && *list[i].1 == self.node_map()[list[i].0.id()]
        &&& forall|i: int, j: int| 0 <= i < j < list.len() ==> (#[trigger] list[i]).0.id() < (
        #[trigger] list[j]).0.id()
        &&& forall|k: usize| #[trigger] self.node_map().contains_key(k) ==> exists|i: int|
            0 <= i < list.len() && (#[trigger] list[i]).0.id() == k
    }

    /// Whether the network holds a node with the ID `id`.
    pub open spec fn has_node(&self, id: NodeId) -> bool {
        self.node_map().contains_key(id.id())
    }

    /// The network is well formed: handles compare as their `eq_spec` says,
    /// every node ID is below the next one to be handed out, and every path
    /// joins two nodes of the network.
    pub closed spec fn wf(&self) -> bool {
        &&& H::obeys_eq_spec()
        &&& forall|k: usize| #[trigger] self.nodes@.contains_key(k) ==> k < self.id_generator.next()
        &&& forall|i: int|
            #![trigger self.path_connection@[i]]
            0 <= i < self.path_connection@.len() ==> self.nodes@.contains_key(
                self.path_connection@[i].0.0,
            ) && self.nodes@.contains_key(self.path_connection@[i].1.0)
    }

    /// Create a new path network without nodes and paths.
    pub fn new() -> (n: Self)
        requires
            H::obeys_eq_spec(),
        ensures
            n.wf(),
            n.node_map() == Map::<usize, N>::empty(),
            n.path_seq() == Seq::<(NodeId, NodeId, H, PA)>::empty(),
            n.next_id() == 0,
    {
        let n = Self {
            nodes: BTreeMap::new(),
            path_connection: Vec::new(),
            id_generator: IdGenerator::new(),
        };
        assert(n.path_seq() =~= Seq::<(NodeId, NodeId, H, PA)>::empty());
        n
    }

    /// Whether another node can be added: whether a fresh ID is left.
    pub fn can_add_node(&self) -> (r: bool)
        ensures
            r == (self.next_id() < usize::MAX),
    {
        self.id_generator.can_generate()
    }

    /// Generate a new NodeId that no node of the network has.
    fn new_node_id(&mut self) -> (id: NodeId)
        requires
            old(self).wf(),
            old(self).next_id() < usize::MAX,
        ensures
            final(self).wf(),
            id.id() == old(self).next_id(),
            final(self).next_id() == old(self).next_id() + 1,
            final(self).node_map() == old(self).node_map(),
            final(self).path_seq() == old(self).path_seq(),
            !old(self).node_map().contains_key(id.id()),
    {
        let ghost first = self.next_id();
        loop
            invariant
                self.wf(),
                self.next_id() == first,
                first == old(self).next_id(),
                first < usize::MAX,
                forall|k: usize| #[trigger] self.node_map().contains_key(k) ==> k < first,
                self.node_map() == old(self).node_map(),
                self.path_seq() == old(self).path_seq(),
            decreases usize::MAX - self.next_id(),
        {
            let id = self.id_generator.generate_id();
            if !self.nodes.contains_key(&id) {
                return NodeId(id);
            }
        }
    }

    /// Add a node to the network, under a new ID.
    pub fn add_node(&mut self, node: N) -> (id: NodeId)
        requires
            old(self).wf(),
            old(self).next_id() < usize::MAX,
        ensures
            final(self).wf(),
            id.id() == old(self).next_id(),
            !old(self).has_node(id),
            final(self).node_map() == old(self).node_map().insert(id.id(), node),
            final(self).path_seq() == old(self).path_seq(),
            final(self).next_id() == old(self).next_id() + 1,
    {
        let node_id = self.new_node_id();
        self.nodes.insert(node_id.0, node);
        node_id
    }

    /// Get a node by its NodeId.
    pub fn get_node(&self, node_id: NodeId) -> (r: Option<&N>)
        requires
            self.wf(),
        ensures
            r is Some <==> self.has_node(node_id),
            r matches Some(n) ==> *n == self.node_map()[node_id.id()],
    {
        self.nodes.get(&node_id.0)
    }

    /// Find the first path that joins `start` and `end` with a handle equal to `handle`.
    fn path_position(&self, start: NodeId, end: NodeId, handle: &H) -> (r: Option<usize>)
        requires
            self.wf(),
        ensures
            r is None <==> first_path(self.path_seq(), start, end, *handle) is None,
            r matches Some(i) ==> i < self.path_seq().len() && first_path(
                self.path_seq(),
                start,
                end,
                *handle,
            ) == Some(self.path_seq()[i as int].3),
    {
        let ghost all = self.path_seq();
        assert(all.skip(0) =~= all);
        let mut i: usize = 0;
        while i < self.path_connection.len()
            invariant
                self.wf(),
                all == self.path_seq(),
                0 <= i <= all.len(),
                first_path(all, start, end, *handle) == first_path(all.skip(i as int), start, end, *handle),
            decreases all.len() - i,
        {
            let path = &self.path_connection[i];
            proof {
                assert(all.skip(i as int)[0] == all[i as int]);
                assert(all.skip(i as int).drop_first() =~= all.skip(i + 1));
            }
            if (path.0 == start && path.1 == end) || (path.0 == end && path.1 == start) {
                if path.2 == *handle {
                    return Some(i);
                }
            }
            i = i + 1;
        }
        proof {
            assert(all.skip(i as int).len() == 0);
        }
        None
    }

    /// Check if there is a path between two nodes with the given handle.
    ///
    /// If there is a path, return (a clone of) the attribute of the path.
    pub fn has_path(&self, start: NodeId, to: NodeId, handle: H) -> (r: Option<PA>)
        requires
            self.wf(),
        ensures
            r is Some <==> first_path(self.path_seq(), start, to, handle) is Some,
            r matches Some(a) ==> cloned(first_path(self.path_seq(), start, to, handle)->0, a),
    {
        match self.path_position(start, to, &handle) {
            Some(i) => Some(self.path_connection[i].3.clone()),
            None => None,
        }
    }

    /// Add a path to the network.
    ///
    /// Returns `None`, and leaves the network unchanged, where the start and
    /// end are the same node, where a path between them with an equal handle
    /// is already there, or where one of them is not a node of the network.
    pub fn add_path(&mut self, start: NodeId, end: NodeId, handle: H, attr: PA) -> (r: Option<
        (NodeId, NodeId, H, PA),
    >)
        requires
            old(self).wf(),
        ensures
            final(self).wf(),
            final(self).node_map() == old(self).node_map(),
            final(self).next_id() == old(self).next_id(),
            ({
                let refused = start == end || first_path(old(self).path_seq(), start, end, handle)
                    is Some || !old(self).has_node(start) || !old(self).has_node(end);
                &&& refused ==> r is None && final(self).path_seq() == old(self).path_seq()
                &&& !refused ==> {
                    &&& r == Some((start, end, handle, attr))
                    &&& final(self).path_seq().len() == old(self).path_seq().len() + 1
                    &&& final(self).path_seq().drop_last() == old(self).path_seq()
                    &&& final(self).path_seq().last().0 == start
                    &&& final(self).path_seq().last().1 == end
                    &&& final(self).path_seq().last().2 == handle
                    &&& cloned(attr, final(self).path_seq().last().3)
                }
            }),
    {
        if start == end {
            return None;
        }
        if self.path_position(start, end, &handle).is_some() {
            return None;
        }
        if self.nodes.contains_key(&start.0) && self.nodes.contains_key(&end.0) {
            let ghost old_paths = self.path_seq();
            self.path_connection.push((start, end, handle, attr.clone()));
            assert(self.path_seq().drop_last() =~= old_paths);
            Some((start, end, handle, attr))
        } else {
            None
        }
    }

    /// Whether the selection takes the path `p`.
    fn selects(sel: &PathSelection<H>, p: &(NodeId, NodeId, H, PA)) -> (r: bool)
        requires
            H::obeys_eq_spec(),
        ensures
            r == selected(*sel, *p),
    {
        match sel {
            PathSelection::Handle(a, b, h) => ((p.0 == *a && p.1 == *b) || (p.0 == *b && p.1
                == *a)) && p.2 == *h,
            PathSelection::Between(a, b) => (p.0 == *a && p.1 == *b) || (p.0 == *b && p.1 == *a),
            PathSelection::Touching(n) => p.0 == *n || p.1 == *n,
        }
    }

    /// Take the selected paths out of the network, keeping the order of the others.
    fn remove_selected(&mut self, sel: &PathSelection<H>)
        requires
            old(self).wf(),
        ensures
            final(self).wf(),
            final(self).node_map() == old(self).node_map(),
            final(self).next_id() == old(self).next_id(),
            final(self).path_seq() == old(self).path_seq().filter(
                |p: (NodeId, NodeId, H, PA)| !selected(*sel, p),
            ),
    {
        let ghost keep = |p: (NodeId, NodeId, H, PA)| !selected(*sel, p);
        let ghost orig = self.path_seq();
        let ghost mut j: int = 0;
        proof {
            reveal(Seq::filter);
            assert(orig.take(0).filter(keep) =~= Seq::<(NodeId, NodeId, H, PA)>::empty());
            assert(orig.take(0).filter(keep) + orig.skip(0) =~= orig);
        }
        let mut i: usize = 0;
        while i < self.path_connection.len()
            invariant
                H::obeys_eq_spec(),
                self.nodes@ == old(self).nodes@,
                self.id_generator == old(self).id_generator,
                orig == old(self).path_seq(),
                0 <= j <= orig.len(),
                self.path_seq() == orig.take(j).filter(keep) + orig.skip(j),
                i == orig.take(j).filter(keep).len(),
                keep == (|p: (NodeId, NodeId, H, PA)| !selected(*sel, p)),
                forall|k: int| 0 <= k < self.path_seq().len() ==> orig.contains(
                    #[trigger] self.path_seq()[k],
                ),
            decreases orig.len() - j,
        {
            let ghost before = self.path_seq();
            proof {
                assert(before[i as int] == orig.skip(j)[0]);
                assert(orig.skip(j)[0] == orig[j]);
                lemma_filter_take_step(orig, keep, j);
            }
            if Self::selects(sel, &self.path_connection[i]) {
                self.path_connection.remove(i);
                proof {
                    assert(self.path_seq() =~= orig.take(j + 1).filter(keep) + orig.skip(j + 1));
                    assert forall|k: int| 0 <= k < self.path_seq().len() implies orig.contains(
                        #[trigger] self.path_seq()[k],
                    ) by {
                        if k < i {
                            assert(self.path_seq()[k] == before[k]);
                        } else {
                            assert(self.path_seq()[k] == before[k + 1]);
                        }
                    }
                }
            } else {
                i = i + 1;
                proof {
                    assert(self.path_seq() =~= orig.take(j + 1).filter(keep) + orig.skip(j + 1));
                }
            }
            proof {
                j = j + 1;
            }
        }
        proof {
            assert(j == orig.len());
            assert(orig.take(j) =~= orig);
            assert(orig.skip(j) =~= Seq::<(NodeId, NodeId, H, PA)>::empty());
            assert(self.path_seq() =~= orig.filter(keep));
            assert forall|k: int|
                #![trigger self.path_connection@[k]]
                0 <= k < self.path_connection@.len() implies self.nodes@.contains_key(
                self.path_connection@[k].0.0,
            ) && self.nodes@.contains_key(self.path_connection@[k].1.0) by {
                let m = choose|m: int| 0 <= m < orig.len() && orig[m] == self.path_seq()[k];
                assert(old(self).path_connection@[m] == orig[m]);
            }
        }
    }

    /// Remove the paths between `start` and `end` (in either direction) whose
    /// handle equals `handle`.
    ///
    /// Returns `None`, and leaves the network unchanged, where one of the two
    /// is not a node of the network.
    pub fn remove_path(&mut self, start: NodeId, end: NodeId, handle: H) -> (r: Option<
        (NodeId, NodeId),
    >)
        requires
            old(self).wf(),
        ensures
            final(self).wf(),
            final(self).node_map() == old(self).node_map(),
            final(self).next_id() == old(self).next_id(),
            !old(self).has_node(start) || !old(self).has_node(end) ==> r is None
                && final(self).path_seq() == old(self).path_seq(),
            old(self).has_node(start) && old(self).has_node(end) ==> r == Some((start, end))
                && final(self).path_seq() == old(self).path_seq().filter(
                |p: (NodeId, NodeId, H, PA)| !is_path(p, start, end, handle),
            ),
    {
        if !(self.nodes.contains_key(&start.0) && self.nodes.contains_key(&end.0)) {
            return None;
        }
        let sel = PathSelection::Handle(start, end, handle);
        self.remove_selected(&sel);
        assert((|p: (NodeId, NodeId, H, PA)| !selected(sel, p)) =~= (|p: (NodeId, NodeId, H, PA)|
            !is_path(p, start, end, handle)));
        Some((start, end))
    }

    /// Whether some path joins `a` and `b`.
    fn is_connected(&self, a: NodeId, b: NodeId) -> (r: bool)
        requires
            self.wf(),
        ensures
            r == exists|k: int| 0 <= k < self.path_seq().len() && joins(#[trigger] self.path_seq()[k], a, b),
    {
        let mut i: usize = 0;
        while i < self.path_connection.len()
            invariant
                0 <= i <= self.path_seq().len(),
                forall|k: int| 0 <= k < i ==> !joins(#[trigger] self.path_seq()[k], a, b),
            decreases self.path_seq().len() - i,
        {
            let p = &self.path_connection[i];
            if (p.0 == a && p.1 == b) || (p.0 == b && p.1 == a) {
                assert(joins(self.path_seq()[i as int], a, b));
                return true;
            }
            i = i + 1;
        }
        false
    }

    /// The handles of the paths between `start` and `end` (in either
    /// direction), in the order in which the paths were added.
    pub fn connection_handles(&self, start: NodeId, end: NodeId) -> (r: Vec<H>)
        requires
            self.wf(),
        ensures
            r@ == self.path_seq().filter(|p: (NodeId, NodeId, H, PA)| joins(p, start, end)).map_values(
                |p: (NodeId, NodeId, H, PA)| p.2,
            ),
    {
        let ghost all = self.path_seq();
        let ghost keep = |p: (NodeId, NodeId, H, PA)| joins(p, start, end);
        let ghost pick = |p: (NodeId, NodeId, H, PA)| p.2;
        let mut r: Vec<H> = Vec::new();
        let mut i: usize = 0;
        proof {
            reveal(Seq::filter);
            assert(all.take(0).filter(keep).map_values(pick) =~= Seq::<H>::empty());
        }
        while i < self.path_connection.len()
            invariant
                all == self.path_seq(),
                0 <= i <= all.len(),
                r@ == all.take(i as int).filter(keep).map_values(pick),
                keep == (|p: (NodeId, NodeId, H, PA)| joins(p, start, end)),
                pick == (|p: (NodeId, NodeId, H, PA)| p.2),
            decreases all.len() - i,
        {
            proof {
                lemma_filter_take_step(all, keep, i as int);
            }
            let p = &self.path_connection[i];
            if (p.0 == start && p.1 == end) || (p.0 == end && p.1 == start) {
                r.push(p.2);
                proof {
                    assert(r@ =~= all.take(i + 1).filter(keep).map_values(pick));
                }
            } else {
                proof {
                    assert(r@ =~= all.take(i + 1).filter(keep).map_values(pick));
                }
            }
            i = i + 1;
        }
        proof {
            assert(all.take(all.len() as int) =~= all);
        }
        r
    }

    /// Remove all paths between two nodes.
    ///
    /// Returns `None`, and leaves the network unchanged, where no path joins them.
    pub fn remove_connection(&mut self, start: NodeId, end: NodeId) -> (r: Option<(NodeId, NodeId)>)
        requires
            old(self).wf(),
        ensures
            final(self).wf(),
            final(self).node_map() == old(self).node_map(),
            final(self).next_id() == old(self).next_id(),
            ({
                let connected = exists|k: int|
                    0 <= k < old(self).path_seq().len() && joins(#[trigger] old(self).path_seq()[k], start, end);
                &&& !connected ==> r is None && final(self).path_seq() == old(self).path_seq()
                &&& connected ==> r == Some((start, end)) && final(self).path_seq() == old(self).path_seq().filter(
                    |p: (NodeId, NodeId, H, PA)| !joins(p, start, end),
                )
            }),
    {
        if !self.is_connected(start, end) {
            return None;
        }
        let sel = PathSelection::Between(start, end);
        self.remove_selected(&sel);
        assert((|p: (NodeId, NodeId, H, PA)| !selected(sel, p)) =~= (|p: (NodeId, NodeId, H, PA)|
            !joins(p, start, end)));
        Some((start, end))
    }

    /// Remove a node from the network, together with every path that starts or ends at it.
    ///
    /// Returns `None`, and leaves the network unchanged, where there is no such node.
    pub fn remove_node(&mut self, node_id: NodeId) -> (r: Option<NodeId>)
        requires
            old(self).wf(),
        ensures
            final(self).wf(),
            final(self).next_id() == old(self).next_id(),
            !old(self).has_node(node_id) ==> r is None && final(self).node_map() == old(self).node_map()
                && final(self).path_seq() == old(self).path_seq(),
            old(self).has_node(node_id) ==> {
                &&& r == Some(node_id)
                &&& final(self).node_map() == old(self).node_map().remove(node_id.id())
                &&& final(self).path_seq() == old(self).path_seq().filter(
                    |p: (NodeId, NodeId, H, PA)| !touches(p, node_id),
                )
            },
    {
        if !self.nodes.contains_key(&node_id.0) {
            return None;
        }
        let sel = PathSelection::Touching(node_id);
        self.remove_selected(&sel);
        assert((|p: (NodeId, NodeId, H, PA)| !selected(sel, p)) =~= (|p: (NodeId, NodeId, H, PA)|
            !touches(p, node_id)));
        let ghost before = self.path_seq();
        self.nodes.remove(&node_id.0);
        proof {
            assert forall|k: int|
                #![trigger self.path_connection@[k]]
                0 <= k < self.path_connection@.len() implies self.nodes@.contains_key(
                self.path_connection@[k].0.0,
            ) && self.nodes@.contains_key(self.path_connection@[k].1.0) by {
                let keep = |p: (NodeId, NodeId, H, PA)| !touches(p, node_id);
                old(self).path_seq().lemma_filter_pred(keep, k);
            }
        }
        Some(node_id)
    }

    /// The nodes that some path joins with `node_id`.
    pub open spec fn neighbor_ids(&self, node_id: NodeId) -> Set<NodeId> {
        Set::new(
            |x: NodeId|
                exists|k: int| 0 <= k < self.path_seq().len() && joins(#[trigger] self.path_seq()[k], node_id, x),
        )
    }

    /// Get the nodes in the network with their IDs, by increasing ID.
    pub fn nodes_iter(&self) -> (r: Vec<(NodeId, &N)>)
        requires
            self.wf(),
        ensures
            self.is_listing(r@),
    {
        let mut r: Vec<(NodeId, &N)> = Vec::new();
        let iter = self.nodes.iter();
        let ghost all = spec_btree_map_iter(&self.nodes).remaining();
        proof {
            lemma_increasing_keys(&self.nodes);
        }
        for (id, node) in it: iter
            invariant
                all == it.seq(),
                r@.len() == it.index(),
                forall|i: int| #![trigger r@[i]] 0 <= i < r@.len() ==> r@[i].0.0 == *all[i].0 && r@[i].1 == all[i].1,
        {
            r.push((NodeId(*id), node));
        }
        proof {
            assert forall|k: usize| #[trigger] self.node_map().contains_key(k) implies exists|i: int|
                0 <= i < r@.len() && (#[trigger] r@[i]).0.id() == k by {
                assert(all.contains((&k, &self.nodes@[k])));
                let i = choose|i: int| 0 <= i < all.len() && all[i] == (&k, &self.nodes@[k]);
                assert(r@[i].0.id() == k);
            }
            assert forall|i: int, j: int| 0 <= i < j < r@.len() implies (#[trigger] r@[i]).0.id() < (
            #[trigger] r@[j]).0.id() by {
                assert(*all[i].0 < *all[j].0);
            }
        }
        r
    }

    /// Get the neighbors of a node: each node that some path joins with it,
    /// once, paired with that neighbor's own node.
    ///
    /// Returns nothing where `node_id` is not a node of the network.
    pub fn neighbors_iter(&self, node_id: NodeId) -> (r: Vec<(NodeId, &N)>)
        requires
            self.wf(),
        ensures
            !self.has_node(node_id) ==> r@.len() == 0,
            self.has_node(node_id) ==> {
                &&& r@.map_values(|p: (NodeId, &N)| p.0).to_set() == self.neighbor_ids(node_id)
                &&& r@.map_values(|p: (NodeId, &N)| p.0).no_duplicates()
                &&& forall|i: int| #![trigger r@[i]] 0 <= i < r@.len() ==> self.has_node(r@[i].0) && *r@[i].1
                    == self.node_map()[r@[i].0.id()]
                &&& forall|k: int|
                    #![trigger self.path_seq()[k]]
                    0 <= k < self.path_seq().len() ==> {
                        &&& self.path_seq()[k].0 == node_id ==> exists|i: int|
                            0 <= i < r@.len() && (#[trigger] r@[i]).0 == self.path_seq()[k].1
                        &&& self.path_seq()[k].1 == node_id ==> exists|i: int|
                            0 <= i < r@.len() && (#[trigger] r@[i]).0 == self.path_seq()[k].0
                    }
            },
    {
        let mut r: Vec<(NodeId, &N)> = Vec::new();
        if !self.nodes.contains_key(&node_id.0) {
            return r;
        }
        let ghost all = self.path_seq();
        let ghost first = |p: (NodeId, &N)| p.0;
        let mut i: usize = 0;
        while i < self.path_connection.len()
            invariant
                all == self.path_seq(),
                self.has_node(node_id),
                self.wf(),
                0 <= i <= all.len(),
                first == (|p: (NodeId, &N)| p.0),
                r@.map_values(first).no_duplicates(),
                forall|j: int| #![trigger r@[j]] 0 <= j < r@.len() ==> self.has_node(r@[j].0) && *r@[j].1
                    == self.node_map()[r@[j].0.id()],
                forall|x: NodeId| r@.map_values(first).contains(x) <==> exists|k: int| 0 <= k < i && joins(#[trigger] all[k], node_id, x),
            decreases all.len() - i,
        {
            let p = &self.path_connection[i];
            let other = if p.0 == node_id {
                Some(p.1)
            } else if p.1 == node_id {
                Some(p.0)
            } else {
                None
            };
            let ghost before = r@;
            if let Some(x) = other {
                assert(joins(all[i as int], node_id, x));
                let mut seen = false;
                let mut j: usize = 0;
                while j < r.len()
                    invariant
                        0 <= j <= r@.len(),
                        seen == exists|m: int| 0 <= m < j && (#[trigger] r@[m]).0 == x,
                    decreases r@.len() - j,
                {
                    if r[j].0 == x {
                        seen = true;
                    }
                    j = j + 1;
                }
                if seen {
                    proof {
                        let m = choose|m: int| 0 <= m < r@.len() && (#[trigger] r@[m]).0 == x;
                        assert(r@.map_values(first)[m] == x);
                        assert(r@.map_values(first).contains(x));
                    }
                } else {
                    let neighbor = match self.nodes.get(&x.0) {
                        Some(n) => n,
                        None => {
                            proof {
                                assert(self.path_connection@[i as int] == all[i as int]);
                            }
                            vstd::pervasive::unreached()
                        },
                    };
                    r.push((x, neighbor));
                    proof {
                        assert(r@.map_values(first) =~= before.map_values(first).push(x));
                        assert(r@.map_values(first)[before.len() as int] == x);
                        assert(r@.map_values(first).contains(x));
                        assert(!before.map_values(first).contains(x)) by {
                            if before.map_values(first).contains(x) {
                                let m = choose|m: int| 0 <= m < before.len() && before.map_values(first)[m] == x;
                                assert(before[m].0 == x);
                            }
                        }
                    }
                }
                proof {
                    assert forall|y: NodeId| r@.map_values(first).contains(y) <==> exists|k: int| 0 <= k < i + 1 && joins(#[trigger] all[k], node_id, y) by {
                        if y == x {
                            assert(r@.map_values(first).contains(y));
                        } else {
                            if r@.map_values(first).contains(y) {
                                let m = choose|m: int| 0 <= m < r@.len() && r@.map_values(first)[m] == y;
                                assert(before.map_values(first)[m] == y);
                            }
                            if before.map_values(first).contains(y) {
                                let m = choose|m: int| 0 <= m < before.len() && before.map_values(first)[m] == y;
                                assert(r@.map_values(first)[m] == y);
                            }
                        }
                    }
                }
            } else {
                proof {
                    assert forall|y: NodeId| r@.map_values(first).contains(y) <==> exists|k: int| 0 <= k < i + 1 && joins(#[trigger] all[k], node_id, y) by {
                        if joins(all[i as int], node_id, y) {
                            assert(false);
                        }
                    }
                }
            }
            i = i + 1;
        }
        proof {
            assert(r@.map_values(first).to_set() =~= self.neighbor_ids(node_id));
            assert forall|k: int| #![trigger self.path_seq()[k]] 0 <= k < self.path_seq().len() implies {
                &&& self.path_seq()[k].0 == node_id ==> exists|i: int| 0 <= i < r@.len() && (#[trigger] r@[i]).0
                    == self.path_seq()[k].1
                &&& self.path_seq()[k].1 == node_id ==> exists|i: int| 0 <= i < r@.len() && (#[trigger] r@[i]).0
                    == self.path_seq()[k].0
            } by {
                if self.path_seq()[k].0 == node_id {
                    let x = self.path_seq()[k].1;
                    assert(joins(self.path_seq()[k], node_id, x));
                    assert(r@.map_values(first).contains(x));
                    let i = choose|i: int| 0 <= i < r@.len() && r@.map_values(first)[i] == x;
                    assert(r@[i].0 == x);
                }
                if self.path_seq()[k].1 == node_id {
                    let x = self.path_seq()[k].0;
                    assert(joins(self.path_seq()[k], node_id, x));
                    assert(r@.map_values(first).contains(x));
                    let i = choose|i: int| 0 <= i < r@.len() && r@.map_values(first)[i] == x;
                    assert(r@[i].0 == x);
                }
            }
        }
        r
    }

    /// Neighborship follows paths in either direction: the two ends of every
    /// path are neighbors of each other, and `b` is a neighbor of `a` exactly
    /// when `a` is a neighbor of `b`.
    pub proof fn lemma_neighbors_symmetric(&self, a: NodeId, b: NodeId)
        ensures
            self.neighbor_ids(a).contains(b) <==> self.neighbor_ids(b).contains(a),
            forall|k: int|
                0 <= k < self.path_seq().len() ==> #[trigger] self.neighbor_ids(self.path_seq()[k].0).contains(
                    self.path_seq()[k].1,
                ) && self.neighbor_ids(self.path_seq()[k].1).contains(self.path_seq()[k].0),
    {
        if self.neighbor_ids(a).contains(b) {
            let k = choose|k: int| 0 <= k < self.path_seq().len() && joins(#[trigger] self.path_seq()[k], a, b);
            assert(joins(self.path_seq()[k], b, a));
        }
        if self.neighbor_ids(b).contains(a) {
            let k = choose|k: int| 0 <= k < self.path_seq().len() && joins(#[trigger] self.path_seq()[k], b, a);
            assert(joins(self.path_seq()[k], a, b));
        }
        assert forall|k: int| 0 <= k < self.path_seq().len() implies #[trigger] self.neighbor_ids(
            self.path_seq()[k].0,
        ).contains(self.path_seq()[k].1) && self.neighbor_ids(self.path_seq()[k].1).contains(
            self.path_seq()[k].0,
        ) by {
            let p = self.path_seq()[k];
            assert(joins(p, p.0, p.1));
            assert(joins(p, p.1, p.0));
        }
    }

    /// Create a new path network from lists of nodes and paths.
    ///
    /// The node at position `i` of `nodes` gets the ID `i`; a path `(start,
    /// end, handle, attr)` joins the nodes at the positions `start` and `end`.
    /// Returns `None` where a path names a position that `nodes` does not have.
    pub fn from(nodes: Vec<N>, paths: &[(usize, usize, H, PA)]) -> (r: Option<Self>)
        requires
            H::obeys_eq_spec(),
        ensures
            r is None <==> exists|k: int|
                0 <= k < paths@.len() && (#[trigger] paths@[k].0 >= nodes@.len() || paths@[k].1
                    >= nodes@.len()),
            r matches Some(n) ==> {
                &&& n.wf()
                &&& n.next_id() == nodes@.len()
                &&& n.node_map() == Map::new(|k: usize| k < nodes@.len(), |k: usize| nodes@[k as int])
                &&& n.path_seq().len() == paths@.len()
                &&& forall|k: int|
                    #![trigger n.path_seq()[k]]
                    0 <= k < paths@.len() ==> {
                        &&& n.path_seq()[k].0.id() == paths@[k].0
                        &&& n.path_seq()[k].1.id() == paths@[k].1
                        &&& n.path_seq()[k].2 == paths@[k].2
                        &&& cloned(paths@[k].3, n.path_seq()[k].3)
                    }
            },
    {
        let count = nodes.len();
        let mut k: usize = 0;
        while k < paths.len()
            invariant
                0 <= k <= paths@.len(),
                count == nodes@.len(),
                forall|m: int| 0 <= m < k ==> #[trigger] paths@[m].0 < count && paths@[m].1 < count,
            decreases paths@.len() - k,
        {
            if paths[k].0 >= count || paths[k].1 >= count {
                return None;
            }
            k = k + 1;
        }
        let ghost node_seq = nodes@;
        let mut id_generator = IdGenerator::new();
        let mut node_map: BTreeMap<usize, N> = BTreeMap::new();
        for node in it: nodes.into_iter()
            invariant
                it.seq() == node_seq,
                node_seq.len() == count,
                id_generator.next() == it.index(),
                node_map@ == Map::new(|m: usize| m < it.index(), |m: usize| node_seq[m as int]),
        {
            let id = id_generator.generate_id();
            node_map.insert(id, node);
            proof {
                assert(node_map@ =~= Map::new(|m: usize| m < it.index() + 1, |m: usize| node_seq[m as int]));
            }
        }
        let mut path_connection: Vec<(NodeId, NodeId, H, PA)> = Vec::new();
        let mut k: usize = 0;
        while k < paths.len()
            invariant
                0 <= k <= paths@.len(),
                path_connection@.len() == k,
                forall|m: int| 0 <= m < paths@.len() ==> #[trigger] paths@[m].0 < count && paths@[m].1 < count,
                forall|m: int|
                    #![trigger path_connection@[m]]
                    0 <= m < k ==> {
                        &&& path_connection@[m].0.0 == paths@[m].0
                        &&& path_connection@[m].1.0 == paths@[m].1
                        &&& path_connection@[m].2 == paths@[m].2
                        &&& cloned(paths@[m].3, path_connection@[m].3)
                    },
            decreases paths@.len() - k,
        {
            let p = &paths[k];
            path_connection.push((NodeId(p.0), NodeId(p.1), p.2, p.3.clone()));
            k = k + 1;
        }
        let n = Self { nodes: node_map, path_connection, id_generator };
        proof {
            assert forall|m: int|
                #![trigger n.path_connection@[m]]
                0 <= m < n.path_connection@.len() implies n.nodes@.contains_key(
                n.path_connection@[m].0.0,
            ) && n.nodes@.contains_key(n.path_connection@[m].1.0) by {
                assert(paths@[m].0 < count && paths@[m].1 < count);
            }
        }
        Some(n)
    }

    /// `order` lists the IDs of the nodes of the network once each, by increasing number.
    pub open spec fn is_id_order(&self, order: Seq<NodeId>) -> bool {
        &&& order.len() == self.node_map().dom().len()
        &&& forall|i: int| #![trigger order[i]] 0 <= i < order.len() ==> self.has_node(order[i])
        &&& forall|i: int, j: int|
            0 <= i < j < order.len() ==> (#[trigger] order[i]).id() < (#[trigger] order[j]).id()
    }

    /// `nodes` and `paths` describe this network: the nodes come in the order
    /// `order`, and each path names its two nodes by their positions in it.
    pub open spec fn is_parsed_by(
        &self,
        order: Seq<NodeId>,
        nodes: Seq<N>,
        paths: Seq<(usize, usize, H, PA)>,
    ) -> bool {
        &&& nodes.len() == order.len()
        &&& forall|i: int|
            #![trigger nodes[i]]
            0 <= i < nodes.len() ==> cloned(self.node_map()[order[i].id()], nodes[i])
        &&& paths.len() == self.path_seq().len()
        &&& forall|k: int|
            #![trigger paths[k]]
            0 <= k < paths.len() ==> {
                &&& paths[k].0 < order.len()
                &&& paths[k].1 < order.len()
                &&& order[paths[k].0 as int] == self.path_seq()[k].0
                &&& order[paths[k].1 as int] == self.path_seq()[k].1
                &&& paths[k].2 == self.path_seq()[k].2
                &&& cloned(self.path_seq()[k].3, paths[k].3)
            }
    }

    /// This network was built anew from `old`: the node at position `i` of
    /// `order` became the node with the ID `i`, and every path was carried over.
    pub open spec fn is_rebuilt_from(&self, old: &Self, order: Seq<NodeId>) -> bool {
        &&& self.next_id() == order.len()
        &&& forall|k: usize| #[trigger] self.node_map().contains_key(k) <==> k < order.len()
        &&& forall|i: usize|
            i < order.len() ==> cloned(old.node_map()[order[i as int].id()], #[trigger] self.node_map()[i])
        &&& self.path_seq().len() == old.path_seq().len()
        &&& forall|k: int|
            #![trigger self.path_seq()[k]]
            0 <= k < self.path_seq().len() ==> {
                &&& self.path_seq()[k].0.id() < order.len()
                &&& self.path_seq()[k].1.id() < order.len()
                &&& order[self.path_seq()[k].0.id() as int] == old.path_seq()[k].0
                &&& order[self.path_seq()[k].1.id() as int] == old.path_seq()[k].1
                &&& self.path_seq()[k].2 == old.path_seq()[k].2
                &&& exists|a: PA| cloned(old.path_seq()[k].3, a) && cloned(a, self.path_seq()[k].3)
            }
    }

    /// Parse the network into a list of nodes and a list of paths that name
    /// their nodes by positions in the list of nodes.
    fn parse(&self) -> (r: (Vec<N>, Vec<(usize, usize, H, PA)>))
        requires
            self.wf(),
        ensures
            exists|order: Seq<NodeId>| self.is_id_order(order) && self.is_parsed_by(order, r.0@, r.1@),
    {
        let iter = self.nodes.iter();
        let ghost all = spec_btree_map_iter(&self.nodes).remaining();
        proof {
            lemma_increasing_keys(&self.nodes);
            assert(spec_btree_map_len(&self.nodes) == self.nodes@.len());
        }
        let ghost order = all.map_values(|kv: (&usize, &N)| NodeId(*kv.0));
        let mut nodes: Vec<N> = Vec::new();
        let mut index_of: BTreeMap<usize, usize> = BTreeMap::new();
        let mut count: usize = 0;
        for (id, node) in it: iter
            invariant
                all == it.seq(),
                all.len() == self.nodes@.dom().len(),
                all.len() <= usize::MAX,
                forall|i: int, j: int| 0 <= i < j < all.len() ==> *(#[trigger] all[i]).0 < *(#[trigger] all[j]).0,
                count == it.index(),
                nodes@.len() == count,
                forall|i: int| #![trigger nodes@[i]] 0 <= i < count ==> cloned(*all[i].1, nodes@[i]),
                forall|i: int| #![trigger all[i]] 0 <= i < count ==> index_of@.contains_key(*all[i].0)
                    && index_of@[*all[i].0] == i,
        {
            nodes.push(node.clone());
            index_of.insert(*id, count);
            count = count + 1;
        }
        let mut paths: Vec<(usize, usize, H, PA)> = Vec::new();
        let mut k: usize = 0;
        while k < self.path_connection.len()
            invariant
                self.wf(),
                all == spec_btree_map_iter(&self.nodes).remaining(),
                all.len() == count,
                order == all.map_values(|kv: (&usize, &N)| NodeId(*kv.0)),
                forall|i: int| #![trigger all[i]] 0 <= i < count ==> index_of@.contains_key(*all[i].0)
                    && index_of@[*all[i].0] == i,
                0 <= k <= self.path_seq().len(),
                paths@.len() == k,
                forall|m: int|
                    #![trigger paths@[m]]
                    0 <= m < k ==> {
                        &&& paths@[m].0 < order.len()
                        &&& paths@[m].1 < order.len()
                        &&& order[paths@[m].0 as int] == self.path_seq()[m].0
                        &&& order[paths@[m].1 as int] == self.path_seq()[m].1
                        &&& paths@[m].2 == self.path_seq()[m].2
                        &&& cloned(self.path_seq()[m].3, paths@[m].3)
                    },
            decreases self.path_seq().len() - k,
        {
            let p = &self.path_connection[k];
            proof {
                assert(self.nodes@.contains_key(p.0.0) && self.nodes@.contains_key(p.1.0));
                assert(all.contains((&p.0.0, &self.nodes@[p.0.0])));
                assert(all.contains((&p.1.0, &self.nodes@[p.1.0])));
            }
            let start = *index_of.get(&p.0.0).unwrap();
            let end = *index_of.get(&p.1.0).unwrap();
            paths.push((start, end, p.2, p.3.clone()));
            k = k + 1;
        }
        proof {
            assert(self.is_id_order(order));
            assert(self.is_parsed_by(order, nodes@, paths@));
        }
        (nodes, paths)
    }

    /// Reconstruct the network: build it anew from its nodes and paths.
    ///
    /// The nodes get the IDs `0, 1, 2, ...` in the order of their old IDs,
    /// and the paths are carried over in their order.
    pub fn reconstruct(self) -> (r: Option<Self>)
        requires
            self.wf(),
        ensures
            r matches Some(n) && n.wf() && exists|order: Seq<NodeId>|
                self.is_id_order(order) && n.is_rebuilt_from(&self, order),
    {
        let ghost old = self;
        let (nodes, paths) = self.parse();
        let ghost order = choose|order: Seq<NodeId>| old.is_id_order(order) && old.is_parsed_by(
            order,
            nodes@,
            paths@,
        );
        let r = Self::from(nodes, paths.as_slice());
        proof {
            assert(!exists|k: int|
                0 <= k < paths@.len() && (#[trigger] paths@[k].0 >= nodes@.len() || paths@[k].1
                    >= nodes@.len()));
            let n = r->0;
            assert forall|k: int|
                #![trigger n.path_seq()[k]]
                0 <= k < n.path_seq().len() implies {
                &&& n.path_seq()[k].0.id() < order.len()
                &&& n.path_seq()[k].1.id() < order.len()
                &&& order[n.path_seq()[k].0.id() as int] == old.path_seq()[k].0
                &&& order[n.path_seq()[k].1.id() as int] == old.path_seq()[k].1
                &&& n.path_seq()[k].2 == old.path_seq()[k].2
                &&& exists|a: PA| cloned(old.path_seq()[k].3, a) && cloned(a, n.path_seq()[k].3)
            } by {
                assert(cloned(old.path_seq()[k].3, paths@[k].3));
            }
            assert(n.is_rebuilt_from(&old, order));
        }
        r
    }

    /// Reconstruction keeps the paths: the nodes with the IDs `a` and `b` of a
    /// rebuilt network are joined by a path with a handle equal to `h` exactly
    /// where the nodes that they stand for were so joined in the old network.
    pub proof fn lemma_reconstruct_keeps_paths(
        old: &Self,
        new: &Self,
        order: Seq<NodeId>,
        a: NodeId,
        b: NodeId,
        h: H,
    )
        requires
            old.is_id_order(order),
            new.is_rebuilt_from(old, order),
            a.id() < order.len(),
            b.id() < order.len(),
        ensures
            first_path(new.path_seq(), a, b, h) is Some <==> first_path(
                old.path_seq(),
                order[a.id() as int],
                order[b.id() as int],
                h,
            ) is Some,
            first_path(new.path_seq(), a, b, h) matches Some(x) ==> exists|y: PA, m: PA|
                first_path(old.path_seq(), order[a.id() as int], order[b.id() as int], h) == Some(y)
                    && cloned(y, m) && cloned(m, x),
    {
        lemma_first_path_renamed(new.path_seq(), old.path_seq(), order, a, b, h);
        if first_path(new.path_seq(), a, b, h) is Some {
            let k = choose|k: int|
                0 <= k < new.path_seq().len() && first_path(new.path_seq(), a, b, h) == Some(
                    #[trigger] new.path_seq()[k].3,
                ) && first_path(old.path_seq(), order[a.0 as int], order[b.0 as int], h) == Some(
                    old.path_seq()[k].3,
                );
            let m = choose|m: PA| cloned(old.path_seq()[k].3, m) && cloned(m, new.path_seq()[k].3);
            assert(cloned(old.path_seq()[k].3, m) && cloned(m, new.path_seq()[k].3));
        }
    }

    /// Where cloning nodes and attributes gives back equal values, a rebuilt
    /// network holds, under each new ID `i`, the node of the old ID
    /// `order[i]`, and answers `has_path` between new IDs exactly as the old
    /// network answers it between the IDs they stand for.
    pub proof fn lemma_reconstruct_exact(
        old: &Self,
        new: &Self,
        order: Seq<NodeId>,
        a: NodeId,
        b: NodeId,
        h: H,
    )
        requires
            forall|x: N, y: N| #[trigger] cloned(x, y) ==> x == y,
            forall|x: PA, y: PA| #[trigger] cloned(x, y) ==> x == y,
            old.is_id_order(order),
            new.is_rebuilt_from(old, order),
            a.id() < order.len(),
            b.id() < order.len(),
        ensures
            first_path(new.path_seq(), a, b, h) == first_path(
                old.path_seq(),
                order[a.id() as int],
                order[b.id() as int],
                h,
            ),
            forall|i: usize|
                i < order.len() ==> #[trigger] new.node_map()[i] == old.node_map()[order[i as int].id()],
    {
        Self::lemma_reconstruct_keeps_paths(old, new, order, a, b, h);
        if first_path(new.path_seq(), a, b, h) is Some {
            let x = first_path(new.path_seq(), a, b, h)->0;
            let (y, m) = choose|y: PA, m: PA|
                first_path(old.path_seq(), order[a.id() as int], order[b.id() as int], h) == Some(y)
                    && cloned(y, m) && cloned(m, x);
            assert(y == m && m == x);
        }
        assert forall|i: usize| i < order.len() implies #[trigger] new.node_map()[i]
            == old.node_map()[order[i as int].id()] by {
            assert(cloned(old.node_map()[order[i as int].id()], new.node_map()[i]));
        }
    }

    /// Rebuilding lists the nodes in ID order: where cloning nodes and
    /// attributes gives back equal values, the rebuilt network lists the nodes
    /// under the IDs 0, 1, 2, ... in turn, holding at each the node that the
    /// old network lists at that place, and answers `has_path` between the
    /// IDs at two places exactly as the old network does between its IDs at
    /// the same places.
    pub proof fn lemma_reconstruct_lists_in_order(
        old: &Self,
        new: &Self,
        order: Seq<NodeId>,
        old_list: Seq<(NodeId, &N)>,
        new_list: Seq<(NodeId, &N)>,
    )
        requires
            forall|x: N, y: N| #[trigger] cloned(x, y) ==> x == y,
            forall|x: PA, y: PA| #[trigger] cloned(x, y) ==> x == y,
            old.is_id_order(order),
            new.is_rebuilt_from(old, order),
            old.is_listing(old_list),
            new.is_listing(new_list),
        ensures
            new_list.len() == old_list.len(),
            forall|i: int| 0 <= i < new_list.len() ==> (#[trigger] new_list[i]).0.id() == i && *new_list[i].1
                == *old_list[i].1,
            forall|i: int, j: int, h: H|
                #![trigger first_path(new.path_seq(), new_list[i].0, new_list[j].0, h)]
                0 <= i < new_list.len() && 0 <= j < new_list.len() ==> first_path(
                    new.path_seq(),
                    new_list[i].0,
                    new_list[j].0,
                    h,
                ) == first_path(old.path_seq(), old_list[i].0, old_list[j].0, h),
    {
        let n = order.len();
        // The old listing and `order` hold the same IDs in the same places.
        let pos = Seq::new(
            n,
            |j: int| choose|m: int| 0 <= m < old_list.len() && (#[trigger] old_list[m]).0.id() == order[j].id(),
        );
        assert forall|j: int| 0 <= j < n implies 0 <= #[trigger] pos[j] < n && old_list[pos[j]].0
            == order[j] by {
            assert(old.has_node(order[j]));
            assert(old.node_map().contains_key(order[j].id()));
            NodeId::lemma_id_injective(old_list[pos[j]].0, order[j]);
        }
        assert forall|a: int, b: int| 0 <= a < b < n implies #[trigger] pos[a] < #[trigger] pos[b] by {
            if pos[a] >= pos[b] {
                if pos[a] > pos[b] {
                    assert(old_list[pos[b]].0.id() < old_list[pos[a]].0.id());
                }
                assert(order[a].id() < order[b].id());
            }
        }
        lemma_increasing_fills(pos);
        assert forall|j: int| 0 <= j < n implies #[trigger] old_list[j].0 == order[j] by {
            assert(pos[j] == j);
        }
        // The new listing holds the IDs 0, 1, 2, ... in turn.
        let ids = new_list.map_values(|p: (NodeId, &N)| p.0.id() as int);
        assert forall|k: int| 0 <= k < ids.len() implies 0 <= #[trigger] ids[k] < n by {
            assert(new.has_node(new_list[k].0));
        }
        assert forall|a: int, b: int| 0 <= a < b < ids.len() implies #[trigger] ids[a] < #[trigger] ids[b] by {
            assert(new_list[a].0.id() < new_list[b].0.id());
        }
        if ids.len() > 0 {
            lemma_increasing_lower(ids, ids.len() - 1);
        }
        new.id_generator.lemma_next_fits();
        let back = Seq::new(
            n,
            |k: int| choose|m: int| 0 <= m < new_list.len() && (#[trigger] new_list[m]).0.id() == k,
        );
        assert forall|k: int| 0 <= k < n implies 0 <= #[trigger] back[k] < new_list.len() && new_list[back[k]].0.id()
            == k by {
            assert(new.node_map().contains_key(k as usize));
        }
        assert forall|a: int, b: int| 0 <= a < b < n implies #[trigger] back[a] < #[trigger] back[b] by {
            if back[a] >= back[b] {
                if back[a] > back[b] {
                    assert(new_list[back[b]].0.id() < new_list[back[a]].0.id());
                }
            }
        }
        if n > 0 {
            lemma_increasing_lower(back, n - 1);
        }
        assert(new_list.len() == n);
        lemma_increasing_fills(ids);
        assert forall|i: int| 0 <= i < new_list.len() implies (#[trigger] new_list[i]).0.id() == i
            && *new_list[i].1 == *old_list[i].1 by {
            assert(ids[i] == i);
            assert(old_list[i].0 == order[i]);
            assert(cloned(old.node_map()[order[i].id()], new.node_map()[i as usize]));
        }
        assert forall|i: int, j: int, h: H|
            #![trigger first_path(new.path_seq(), new_list[i].0, new_list[j].0, h)]
            0 <= i < new_list.len() && 0 <= j < new_list.len() implies first_path(
                new.path_seq(),
                new_list[i].0,
                new_list[j].0,
                h,
            ) == first_path(old.path_seq(), old_list[i].0, old_list[j].0, h) by {
            assert(ids[i] == i && ids[j] == j);
            assert(old_list[i].0 == order[i] && old_list[j].0 == order[j]);
            Self::lemma_reconstruct_exact(old, new, order, new_list[i].0, new_list[j].0, h);
        }
    }

    /// A path that was added is found again from either end: where the paths
    /// `after` are the paths `before` with a path from `start` to `end` with
    /// the handle `handle` appended, as `add_path` leaves them, and `before`
    /// had no such path, `has_path` finds the appended one's attribute.
    pub proof fn lemma_add_path_then_has_path(
        before: Seq<(NodeId, NodeId, H, PA)>,
        after: Seq<(NodeId, NodeId, H, PA)>,
        start: NodeId,
        end: NodeId,
        handle: H,
    )
        requires
            handle.eq_spec(&handle),
            first_path(before, start, end, handle) is None,
            after.len() == before.len() + 1,
            after.drop_last() == before,
            after.last().0 == start,
            after.last().1 == end,
            after.last().2 == handle,
        ensures
            first_path(after, start, end, handle) == Some(after.last().3),
            first_path(after, end, start, handle) == Some(after.last().3),
    {
        assert(before.push(after.last()) =~= after);
        lemma_first_path_push(before, after.last(), start, end, handle);
        lemma_first_path_either_end(after, start, end, handle);
    }

    /// A path that was removed is found no more, from either end: after
    /// `remove_path` takes out every path between `start` and `end` with a
    /// handle equal to `handle`, `has_path` finds none.
    pub proof fn lemma_remove_path_then_no_path(
        before: Seq<(NodeId, NodeId, H, PA)>,
        start: NodeId,
        end: NodeId,
        handle: H,
    )
        ensures
            ({
                let after = before.filter(
                    |p: (NodeId, NodeId, H, PA)| !is_path(p, start, end, handle),
                );
                &&& first_path(after, start, end, handle) is None
                &&& first_path(after, end, start, handle) is None
            }),
    {
        let keep = |p: (NodeId, NodeId, H, PA)| !is_path(p, start, end, handle);
        let after = before.filter(keep);
        lemma_first_path_witness(after, start, end, handle);
        if first_path(after, start, end, handle) is Some {
            let k = choose|k: int| 0 <= k < after.len() && is_path(#[trigger] after[k], start, end, handle);
            before.lemma_filter_pred(keep, k);
        }
        lemma_first_path_either_end(after, start, end, handle);
    }

    /// Modify a node in the network with `f`, and return what `f` returns.
    ///
    /// Returns `None`, and calls nothing, where there is no such node.
    pub fn modify_node<T, F: FnOnce(&mut N) -> T>(&mut self, node_id: NodeId, f: F) -> (r: Option<T>)
        requires
            old(self).wf(),
            forall|n: &mut N| call_requires(f, (n,)),
        ensures
            final(self).wf(),
            final(self).path_seq() == old(self).path_seq(),
            final(self).next_id() == old(self).next_id(),
            !old(self).has_node(node_id) ==> r is None && final(self).node_map() == old(self).node_map(),
            old(self).has_node(node_id) ==> {
                &&& r is Some
                &&& final(self).node_map() == old(self).node_map().insert(
                    node_id.id(),
                    final(self).node_map()[node_id.id()],
                )
                &&& exists|n: &mut N|
                    *n == old(self).node_map()[node_id.id()] && *final(n) == final(self).node_map()[node_id.id()]
                        && call_ensures(f, (n,), r->0)
            },
    {
        match self.nodes.remove(&node_id.0) {
            None => None,
            Some(mut node) => {
                let t = f(&mut node);
                self.nodes.insert(node_id.0, node);
                assert(self.nodes@ =~= old(self).nodes@.insert(node_id.0, node));
                Some(t)
            },
        }
    }

    /// Get the paths of the network with their handles, in the order in which
    /// they were added.
    pub fn paths_iter(&self) -> (r: Vec<(NodeId, NodeId, H)>)
        requires
            self.wf(),
        ensures
            r@ == self.path_seq().map_values(|p: (NodeId, NodeId, H, PA)| (p.0, p.1, p.2)),
    {
        let ghost all = self.path_seq();
        let mut r: Vec<(NodeId, NodeId, H)> = Vec::new();
        let mut i: usize = 0;
        while i < self.path_connection.len()
            invariant
                all == self.path_seq(),
                0 <= i <= all.len(),
                r@ == all.take(i as int).map_values(|p: (NodeId, NodeId, H, PA)| (p.0, p.1, p.2)),
            decreases all.len() - i,
        {
            let p = &self.path_connection[i];
            r.push((p.0, p.1, p.2));
            proof {
                assert(r@ =~= all.take(i + 1).map_values(|p: (NodeId, NodeId, H, PA)| (p.0, p.1, p.2)));
            }
            i = i + 1;
        }
        proof {
            assert(all.take(all.len() as int) =~= all);
        }
        r
    }
}

} // verus!
