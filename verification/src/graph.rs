//! The DAG engine's scheduling core: port identities, port groups, and the
//! node topology that decides in which order nodes run and which of them
//! run on a tick.
//!
//! Values live in a state struct and nodes are closures over it; neither is
//! needed to decide the schedule. What matters is each node's declared
//! inputs, outputs, optional condition port and optional map port, which
//! [`Topology`] records. An edge runs from a producer to every node that
//! reads (or is conditioned on) one of the producer's outputs, except that a
//! node never depends on itself and two map nodes over the same map port are
//! ordered by insertion rather than by an edge.

use std::collections::HashSet;
use std::marker::PhantomData;
use std::mem::swap;
use vstd::prelude::*;

verus! {

broadcast use vstd::std_specs::hash::group_hash_axioms;

/// Identifies a field within a state. Two states each number their own
/// fields from zero, so a `PortId` is only meaningful relative to its state
/// type.
#[derive(Clone, Copy, Debug, PartialEq, Eq, Structural, Hash)]
pub struct PortId(u64);

impl View for PortId {
    type V = u64;

    /// The field index.
    closed spec fn view(&self) -> u64 {
        self.0
    }
}

impl PortId {
    /// Wraps a raw field index. Prefer obtaining ids from generated ports.
    pub fn new(index: u64) -> (r: Self)
        ensures
            r@ == index,
    {
        PortId(index)
    }

    /// Two ids are equal exactly when their indices are.
    pub proof fn lemma_eq(a: PortId, b: PortId)
        ensures
            a == b <==> a@ == b@,
    {
    }

    /// The underlying field index.
    pub fn index(&self) -> (r: u64)
        ensures
            r == self@,
    {
        self.0
    }
}

/// A structural group of ports sharing one state `S`: the inputs or
/// outputs of a node, or a state's generated group of field ports.
pub trait PortGroup<S> {
    /// The group's leaf port ids, in order. Every group that holds ports
    /// defines it; the empty list is only right for groups without any.
    open spec fn leaf_ids(&self) -> Seq<PortId> {
        Seq::empty()
    }

    /// Number of leaf ports in this group.
    fn leaf_count(&self) -> (r: usize)
        requires
            self.leaf_ids().len() <= usize::MAX,
        ensures
            r == self.leaf_ids().len(),
    ;

    /// Appends all leaf port ids to `out`.
    fn extend_ids(&self, out: &mut Vec<PortId>)
        ensures
            final(out)@ == old(out)@ + self.leaf_ids(),
    ;

    /// All leaf port ids, in order.
    fn ids(&self) -> (r: Vec<PortId>)
        ensures
            r@ == self.leaf_ids(),
    {
        let mut v: Vec<PortId> = Vec::new();
        self.extend_ids(&mut v);
        proof {
            assert(v@ =~= Seq::<PortId>::empty() + self.leaf_ids());
        }
        v
    }
}

/// The empty group.
impl<S> PortGroup<S> for () {
    open spec fn leaf_ids(&self) -> Seq<PortId> {
        Seq::empty()
    }

    fn leaf_count(&self) -> (r: usize) {
        0
    }

    fn extend_ids(&self, out: &mut Vec<PortId>) {
        proof {
            assert(out@ =~= out@ + Seq::<PortId>::empty());
        }
    }
}

/// A [`PortGroup`] backed by a plain list of ids.
pub struct IdGroup {
    /// The ids, in order.
    pub ids: Vec<PortId>,
}

/// Appends `ids` to `out`.
fn push_all(ids: &Vec<PortId>, out: &mut Vec<PortId>)
    ensures
        final(out)@ == old(out)@ + ids@,
{
    let mut i: usize = 0;
    while i < ids.len()
        invariant
            0 <= i <= ids@.len(),
            out@ == old(out)@ + ids@.subrange(0, i as int),
        decreases ids@.len() - i,
    {
        out.push(ids[i]);
        proof {
            assert(ids@.subrange(0, i + 1) =~= ids@.subrange(0, i as int).push(ids@[i as int]));
        }
        i = i + 1;
    }
    proof {
        assert(ids@.subrange(0, i as int) =~= ids@);
    }
}

impl<S> PortGroup<S> for IdGroup {
    open spec fn leaf_ids(&self) -> Seq<PortId> {
        self.ids@
    }

    fn leaf_count(&self) -> (r: usize) {
        self.ids.len()
    }

    fn extend_ids(&self, out: &mut Vec<PortId>) {
        push_all(&self.ids, out);
    }
}

impl<S, A: PortGroup<S>, B: PortGroup<S>> PortGroup<S> for (A, B) {
    open spec fn leaf_ids(&self) -> Seq<PortId> {
        self.0.leaf_ids() + self.1.leaf_ids()
    }

    fn leaf_count(&self) -> (r: usize) {
        self.0.leaf_count() + self.1.leaf_count()
    }

    fn extend_ids(&self, out: &mut Vec<PortId>) {
        self.0.extend_ids(out);
        self.1.extend_ids(out);
        proof {
            assert(out@ =~= old(out)@ + (self.0.leaf_ids() + self.1.leaf_ids()));
        }
    }
}

impl<S, A: PortGroup<S>, B: PortGroup<S>, C: PortGroup<S>> PortGroup<S> for (A, B, C) {
    open spec fn leaf_ids(&self) -> Seq<PortId> {
        self.0.leaf_ids() + self.1.leaf_ids() + self.2.leaf_ids()
    }

    fn leaf_count(&self) -> (r: usize) {
        self.0.leaf_count() + self.1.leaf_count() + self.2.leaf_count()
    }

    fn extend_ids(&self, out: &mut Vec<PortId>) {
        self.0.extend_ids(out);
        self.1.extend_ids(out);
        self.2.extend_ids(out);
        proof {
            assert(out@ =~= old(out)@ + (self.0.leaf_ids() + self.1.leaf_ids() + self.2.leaf_ids()));
        }
    }
}

impl<S, A: PortGroup<S>, B: PortGroup<S>, C: PortGroup<S>, D: PortGroup<S>> PortGroup<S> for (A, B, C, D) {
    open spec fn leaf_ids(&self) -> Seq<PortId> {
        self.0.leaf_ids() + self.1.leaf_ids() + self.2.leaf_ids() + self.3.leaf_ids()
    }

    fn leaf_count(&self) -> (r: usize) {
        self.0.leaf_count() + self.1.leaf_count() + self.2.leaf_count() + self.3.leaf_count()
    }

    fn extend_ids(&self, out: &mut Vec<PortId>) {
        self.0.extend_ids(out);
        self.1.extend_ids(out);
        self.2.extend_ids(out);
        self.3.extend_ids(out);
        proof {
            assert(out@ =~= old(out)@ + (self.0.leaf_ids() + self.1.leaf_ids() + self.2.leaf_ids() + self.3.leaf_ids()));
        }
    }
}

/// The end of a render path: the bottom map's elements are the leaves
/// that the leaf evaluation runs on directly.
#[derive(Debug)]
pub struct LeafMarker<L>(PhantomData<L>);

impl<L> LeafMarker<L> {
    /// The leaf level of a render path.
    pub fn new() -> (r: Self) {
        LeafMarker(PhantomData)
    }
}

impl<L> Clone for LeafMarker<L> {
    fn clone(&self) -> (r: Self) {
        LeafMarker(PhantomData)
    }
}

impl<L> Copy for LeafMarker<L> {
}

impl<L> Default for LeafMarker<L> {
    fn default() -> (r: Self) {
        LeafMarker(PhantomData)
    }
}

/// The port metadata of one node: what it writes, what it reads, the
/// optional condition port that makes it purely event-driven, and (for map
/// fan-out nodes) the map port it iterates.
#[derive(Debug)]
pub struct NodePorts {
    /// Output port ids (for topology ordering).
    pub outputs: Vec<PortId>,
    /// Input port ids (dirty triggers).
    pub inputs: Vec<PortId>,
    /// Optional event-condition port.
    pub condition: Option<PortId>,
    /// For map nodes: the map port the node reads and writes.
    pub map_port: Option<PortId>,
}

/// Number of occurrences of `q` in `s`.
pub open spec fn count_in(s: Seq<PortId>, q: PortId) -> nat
    decreases s.len(),
{
    if s.len() == 0 {
        0
    } else {
        count_in(s.drop_last(), q) + if s.last() == q { 1nat } else { 0nat }
    }
}

/// How many edges a write to `q` sends to node `n`: one per occurrence of
/// `q` among its inputs, plus one when `q` is its condition.
pub open spec fn mult(n: NodePorts, q: PortId) -> nat {
    count_in(n.inputs@, q) + if n.condition == Some(q) { 1nat } else { 0nat }
}

/// An edge from producer `p` to consumer `d` through port `q` counts for
/// the ordering: `d` is not `p` itself, and the two are not both map nodes
/// over `q`.
pub open spec fn counted(g: Seq<NodePorts>, p: int, d: int, q: PortId) -> bool {
    d != p && !(g[p].map_port == Some(q) && g[d].map_port == Some(q))
}

/// The edges from `p` to `d` through `p`'s `k`-th output.
pub open spec fn term(g: Seq<NodePorts>, p: int, d: int, k: int) -> nat {
    let q = g[p].outputs@[k];
    if counted(g, p, d, q) { mult(g[d], q) } else { 0 }
}

/// The edges from `p` to `d` through `p`'s first `k` outputs.
pub open spec fn wpart(g: Seq<NodePorts>, p: int, d: int, k: int) -> nat
    decreases k,
{
    if k <= 0 {
        0
    } else {
        wpart(g, p, d, k - 1) + term(g, p, d, k - 1)
    }
}

/// The number of edges from `p` to `d`.
pub open spec fn weight(g: Seq<NodePorts>, p: int, d: int) -> nat {
    wpart(g, p, d, g[p].outputs@.len() as int)
}

/// `d` must run after `p`: some output of `p` reaches `d` through a
/// counted edge.
pub open spec fn depends(g: Seq<NodePorts>, p: int, d: int) -> bool {
    weight(g, p, d) > 0
}

/// The edges into `d` from the nodes before `m` that are not `done`.
pub open spec fn indeg_part(g: Seq<NodePorts>, d: int, done: Seq<bool>, m: int) -> nat
    decreases m,
{
    if m <= 0 {
        0
    } else {
        indeg_part(g, d, done, m - 1) + if done[m - 1] { 0 } else { weight(g, m - 1, d) }
    }
}

/// The edges into `d` from nodes that are not `done`.
pub open spec fn indeg(g: Seq<NodePorts>, d: int, done: Seq<bool>) -> nat {
    indeg_part(g, d, done, g.len() as int)
}

/// No node is done.
pub open spec fn none_done(n: nat) -> Seq<bool> {
    Seq::new(n, |i: int| false)
}

/// `order` runs every node exactly once, each after all nodes it depends on.
pub open spec fn is_topological(g: Seq<NodePorts>, order: Seq<usize>) -> bool {
    &&& order.len() == g.len()
    &&& forall|i: int| 0 <= i < order.len() ==> #[trigger] order[i] < g.len()
    &&& forall|i: int, j: int|
        #![trigger order[i], order[j]]
        0 <= i < order.len() && 0 <= j < order.len() && i != j ==> order[i] != order[j]
    &&& forall|i: int, j: int|
        #![trigger order[i], order[j]]
        0 <= i < order.len() && 0 <= j < order.len() && depends(g, order[j] as int, order[i] as int)
            ==> j < i
}

/// Some order runs every node once, each after all nodes it depends on.
pub open spec fn has_topological_order(g: Seq<NodePorts>) -> bool {
    exists|order: Seq<usize>| is_topological(g, order)
}

/// The first `k` entries of `order` are exactly the nodes without incoming
/// edges, in increasing index order.
pub open spec fn sources_prefix(g: Seq<NodePorts>, order: Seq<usize>, k: int) -> bool {
    &&& forall|i: int| 0 <= i < k ==> indeg(g, #[trigger] order[i] as int, none_done(g.len())) == 0
    &&& forall|i: int| k <= i < order.len() ==> indeg(g, #[trigger] order[i] as int, none_done(g.len())) > 0
    &&& forall|i: int, j: int| #![trigger order[i], order[j]] 0 <= i < j < k ==> order[i] < order[j]
}

/// `order` starts with the nodes that depend on nothing, in insertion
/// order.
pub open spec fn sources_first(g: Seq<NodePorts>, order: Seq<usize>) -> bool {
    exists|k: int| 0 <= k <= order.len() && #[trigger] sources_prefix(g, order, k)
}

/// Every node's edge count fits the `u32` counters of the sort.
pub open spec fn degrees_fit(g: Seq<NodePorts>) -> bool {
    forall|d: int| 0 <= d < g.len() ==> #[trigger] indeg(g, d, none_done(g.len())) <= u32::MAX
}

// ── Lemmas on the edge counts ───────────────────────────────────────────

proof fn lemma_wpart_mono(g: Seq<NodePorts>, p: int, d: int, k1: int, k2: int)
    requires
        0 <= k1 <= k2,
    ensures
        wpart(g, p, d, k1) <= wpart(g, p, d, k2),
    decreases k2 - k1,
{
    if k1 < k2 {
        lemma_wpart_mono(g, p, d, k1, k2 - 1);
    }
}

/// Tagging an untagged node as a map node only drops edges: every edge
/// counted afterwards was counted before.
proof fn lemma_tag_drops_edges(g: Seq<NodePorts>, t: int, map: PortId, p: int, d: int, k: int)
    requires
        0 <= t < g.len(),
        g[t].map_port is None,
        0 <= p < g.len(),
        0 <= d < g.len(),
        0 <= k <= g[p].outputs@.len(),
    ensures
        wpart(g.update(t, NodePorts { map_port: Some(map), ..g[t] }), p, d, k) <= wpart(g, p, d, k),
    decreases k,
{
    let g2 = g.update(t, NodePorts { map_port: Some(map), ..g[t] });
    if k > 0 {
        lemma_tag_drops_edges(g, t, map, p, d, k - 1);
        assert(g2[p].outputs@ == g[p].outputs@);
        assert(mult(g2[d], g[p].outputs@[k - 1]) == mult(g[d], g[p].outputs@[k - 1]));
        assert(term(g2, p, d, k - 1) <= term(g, p, d, k - 1));
    }
}

/// Tagging an untagged node as a map node keeps every topological order.
proof fn lemma_tag_keeps_order(g: Seq<NodePorts>, t: int, map: PortId, order: Seq<usize>)
    requires
        0 <= t < g.len(),
        g[t].map_port is None,
        is_topological(g, order),
    ensures
        is_topological(g.update(t, NodePorts { map_port: Some(map), ..g[t] }), order),
{
    let g2 = g.update(t, NodePorts { map_port: Some(map), ..g[t] });
    assert forall|i: int, j: int|
        #![trigger order[i], order[j]]
        0 <= i < order.len() && 0 <= j < order.len() && depends(g2, order[j] as int, order[i] as int) implies j < i by {
        lemma_tag_drops_edges(g, t, map, order[j] as int, order[i] as int, g[order[j] as int].outputs@.len() as int);
        assert(g2[order[j] as int].outputs@ == g[order[j] as int].outputs@);
    }
}

proof fn lemma_indeg_part_mono(g: Seq<NodePorts>, d: int, done: Seq<bool>, m1: int, m2: int)
    requires
        0 <= m1 <= m2,
    ensures
        indeg_part(g, d, done, m1) <= indeg_part(g, d, done, m2),
    decreases m2 - m1,
{
    if m1 < m2 {
        lemma_indeg_part_mono(g, d, done, m1, m2 - 1);
    }
}

/// A node that is not done contributes its full weight.
proof fn lemma_indeg_part_ge_weight(g: Seq<NodePorts>, d: int, done: Seq<bool>, m: int, p: int)
    requires
        0 <= p < m,
        !done[p],
    ensures
        indeg_part(g, d, done, m) >= weight(g, p, d),
    decreases m,
{
    if p < m - 1 {
        lemma_indeg_part_ge_weight(g, d, done, m - 1, p);
    } else {
        lemma_indeg_part_mono(g, d, done, 0, m - 1);
    }
}

/// Marking `p` done removes exactly its edges.
proof fn lemma_indeg_part_mark(g: Seq<NodePorts>, d: int, done: Seq<bool>, m: int, p: int)
    requires
        0 <= p < done.len(),
        !done[p],
        m <= done.len(),
    ensures
        indeg_part(g, d, done.update(p, true), m) + (if 0 <= p < m { weight(g, p, d) } else { 0 })
            == indeg_part(g, d, done, m),
    decreases m,
{
    if m > 0 {
        lemma_indeg_part_mark(g, d, done, m - 1, p);
    }
}

/// With every predecessor-free count at zero, no node that is not done
/// reaches `d`.
proof fn lemma_indeg_zero(g: Seq<NodePorts>, d: int, done: Seq<bool>, m: int, p: int)
    requires
        indeg_part(g, d, done, m) == 0,
        0 <= p < m,
        !done[p],
    ensures
        !depends(g, p, d),
{
    lemma_indeg_part_ge_weight(g, d, done, m, p);
}

/// Counting over a longer prefix never finds fewer occurrences.
proof fn lemma_count_in_prefix_mono(s: Seq<PortId>, q: PortId, i: int, j: int)
    requires
        0 <= i <= j <= s.len(),
    ensures
        count_in(s.subrange(0, i), q) <= count_in(s.subrange(0, j), q),
    decreases j - i,
{
    if i < j {
        lemma_count_in_prefix_mono(s, q, i, j - 1);
        assert(s.subrange(0, j).drop_last() =~= s.subrange(0, j - 1));
    }
}

/// A duplicate-free sequence of indices below `n` has at most `n` entries,
/// and with exactly `n` entries it lists every index.
proof fn lemma_distinct_bound(s: Seq<usize>, n: nat)
    requires
        s.no_duplicates(),
        n <= usize::MAX,
        forall|i: int| 0 <= i < s.len() ==> #[trigger] s[i] < n,
    ensures
        s.len() <= n,
        s.len() == n ==> forall|y: usize| y < n ==> #[trigger] s.contains(y),
        s.len() < n ==> exists|y: usize| y < n && !s.contains(y),
{
    let t = s.map_values(|x: usize| x as int);
    assert forall|i: int, j: int| 0 <= i < t.len() && 0 <= j < t.len() && i != j implies t[i] != t[j] by {
        assert(s[i] != s[j]);
    }
    assert(t.no_duplicates());
    t.unique_seq_to_set();
    vstd::seq_lib::seq_to_set_is_finite(t);
    let r = vstd::set_lib::set_int_range(0, n as int);
    vstd::set_lib::lemma_int_range(0, n as int);
    assert forall|x: int| t.to_set().contains(x) implies r.contains(x) by {
        let i = choose|i: int| 0 <= i < t.len() && t[i] == x;
        assert(s[i] < n);
    }
    assert(t.to_set().subset_of(r));
    vstd::set_lib::lemma_len_subset(t.to_set(), r);
    if s.len() < n {
        if forall|y: usize| y < n ==> #[trigger] s.contains(y) {
            assert forall|x: int| r.contains(x) implies t.to_set().contains(x) by {
                let y = x as usize;
                assert(s.contains(y));
                let i = choose|i: int| 0 <= i < s.len() && s[i] == y;
                assert(t[i] == x);
            }
            assert(r.subset_of(t.to_set()));
            vstd::set_lib::lemma_len_subset(r, t.to_set());
        }
    }
    if s.len() == n {
        vstd::set_lib::lemma_subset_equality(t.to_set(), r);
        assert forall|y: usize| y < n implies #[trigger] s.contains(y) by {
            assert(r.contains(y as int));
            assert(t.to_set().contains(y as int));
            let i = choose|i: int| 0 <= i < t.len() && t[i] == y as int;
            assert(s[i] == y);
        }
    }
}

/// A positive count of incoming edges from nodes that are not done has a
/// source among those nodes.
proof fn lemma_indeg_pos_source(g: Seq<NodePorts>, d: int, done: Seq<bool>, m: int) -> (p: int)
    requires
        indeg_part(g, d, done, m) > 0,
    ensures
        0 <= p < m,
        !done[p],
        depends(g, p, d),
    decreases m,
{
    if m <= 0 {
        0
    } else if !done[m - 1] && weight(g, m - 1, d) > 0 {
        m - 1
    } else {
        lemma_indeg_pos_source(g, d, done, m - 1)
    }
}

/// Within an order of all nodes, the first position holding a node that is
/// not done.
proof fn lemma_first_undone(order: Seq<usize>, done: Seq<bool>, i: int) -> (f: int)
    requires
        0 <= i < order.len(),
        forall|k: int| 0 <= k < order.len() ==> #[trigger] order[k] < done.len(),
        !done[order[i] as int],
    ensures
        0 <= f <= i,
        !done[order[f] as int],
        forall|k: int| 0 <= k < f ==> done[#[trigger] order[k] as int],
    decreases i,
{
    if exists|k: int| 0 <= k < i && !done[#[trigger] order[k] as int] {
        let k = choose|k: int| 0 <= k < i && !done[#[trigger] order[k] as int];
        lemma_first_undone(order, done, k)
    } else {
        i
    }
}

/// When some node is not done and every node that is not done has an
/// incoming edge from another such node, no topological order exists: the
/// first of them in any order would need a predecessor before it.
proof fn lemma_no_order(g: Seq<NodePorts>, done: Seq<bool>, y: int)
    requires
        done.len() == g.len(),
        g.len() <= usize::MAX,
        0 <= y < g.len(),
        !done[y],
        forall|x: int| 0 <= x < g.len() && !done[x] ==> #[trigger] indeg(g, x, done) > 0,
    ensures
        !has_topological_order(g),
{
    if has_topological_order(g) {
        let order = choose|order: Seq<usize>| is_topological(g, order);
        lemma_distinct_bound(order, g.len());
        let yu = y as usize;
        assert(order.contains(yu));
        let iy = choose|i: int| 0 <= i < order.len() && order[i] == yu;
        assert(order[iy] as int == y);
        let f = lemma_first_undone(order, done, iy);
        let x = order[f] as int;
        assert(indeg(g, x, done) > 0);
        let p = lemma_indeg_pos_source(g, x, done, g.len() as int);
        let pu = p as usize;
        assert(order.contains(pu));
        let j = choose|j: int| 0 <= j < order.len() && order[j] == pu;
        assert(order[j] as int == p);
        assert(depends(g, order[j] as int, order[f] as int));
        assert(j < f);
        assert(done[order[j] as int]);
    }
}

/// After node `p` (the `head`-th queue entry) is relaxed, every queued node
/// still has all its predecessors done and queue order still respects every
/// dependency.
proof fn lemma_relax_order(
    g: Seq<NodePorts>,
    q_old: Seq<usize>,
    q_new: Seq<usize>,
    done_old: Seq<bool>,
    done: Seq<bool>,
    head: int,
    p: int,
)
    requires
        g.len() <= usize::MAX,
        done_old.len() == g.len(),
        0 <= head < q_old.len(),
        q_old[head] == p,
        done == done_old.update(p, true),
        q_new.len() >= q_old.len(),
        q_new.subrange(0, q_old.len() as int) == q_old,
        q_new.no_duplicates(),
        forall|i: int| 0 <= i < q_new.len() ==> #[trigger] q_new[i] < g.len(),
        forall|y: int| 0 <= y < g.len() ==> (#[trigger] done_old[y] <==> q_old.subrange(0, head).contains(y as usize)),
        forall|i: int, x: int| 0 <= i < q_old.len() && 0 <= x < g.len() && #[trigger] depends(g, x, q_old[i] as int) ==> done_old[x],
        forall|i: int, j: int|
            #![trigger q_old[i], q_old[j]]
            0 <= i < q_old.len() && 0 <= j < q_old.len() && depends(g, q_old[j] as int, q_old[i] as int) ==> j < i,
        forall|y: usize| y < g.len() ==> (#[trigger] q_old.contains(y) <==> indeg(g, y as int, done_old) == 0),
        forall|y: usize| y < g.len() ==> (#[trigger] q_new.contains(y) <==> indeg(g, y as int, done) == 0),
    ensures
        forall|y: int| 0 <= y < g.len() ==> (#[trigger] done[y] <==> q_new.subrange(0, head + 1).contains(y as usize)),
        forall|i: int, x: int| 0 <= i < q_new.len() && 0 <= x < g.len() && #[trigger] depends(g, x, q_new[i] as int) ==> done[x],
        forall|i: int, j: int|
            #![trigger q_new[i], q_new[j]]
            0 <= i < q_new.len() && 0 <= j < q_new.len() && depends(g, q_new[j] as int, q_new[i] as int) ==> j < i,
{
    let n = g.len();
    assert forall|i: int| 0 <= i < q_old.len() implies #[trigger] q_new[i] == q_old[i] by {
        assert(q_new.subrange(0, q_old.len() as int)[i] == q_old[i]);
    }
    assert forall|y: int| 0 <= y < n implies (#[trigger] done[y] <==> q_new.subrange(0, head + 1).contains(y as usize)) by {
        let yu = y as usize;
        if done[y] {
            if y == p {
                assert(q_new.subrange(0, head + 1)[head] == yu);
            } else {
                assert(q_old.subrange(0, head).contains(yu));
                let i = choose|i: int| 0 <= i < head && #[trigger] q_old.subrange(0, head)[i] == yu;
                assert(q_new.subrange(0, head + 1)[i] == yu);
            }
        }
        if q_new.subrange(0, head + 1).contains(yu) {
            let i = choose|i: int| 0 <= i < head + 1 && #[trigger] q_new.subrange(0, head + 1)[i] == yu;
            if i < head {
                assert(q_old.subrange(0, head)[i] == yu);
            } else {
                assert(yu == p);
            }
        }
    }
    // every queued node has all its predecessors done
    assert forall|i: int, x: int| 0 <= i < q_new.len() && 0 <= x < n && #[trigger] depends(g, x, q_new[i] as int) implies done[x] by {
        if i < q_old.len() {
            assert(depends(g, x, q_old[i] as int));
        } else {
            let y = q_new[i];
            assert(q_new.contains(y));
            assert(indeg(g, y as int, done) == 0);
            if !done[x] {
                lemma_indeg_zero(g, y as int, done, n as int, x);
            }
        }
    }
    // queue order respects dependencies
    assert forall|i: int, j: int|
        #![trigger q_new[i], q_new[j]]
        0 <= i < q_new.len() && 0 <= j < q_new.len() && depends(g, q_new[j] as int, q_new[i] as int) implies j < i by {
        let x = q_new[j] as int;
        assert(done[x]);
        let k = if x == p {
            head
        } else {
            assert(q_old.subrange(0, head).contains(x as usize));
            choose|k: int| 0 <= k < head && #[trigger] q_old.subrange(0, head)[k] == x as usize
        };
        assert(q_new[k] == q_new[j]);
        assert(k == j);
        if i < q_old.len() {
            if x == p {
                assert(depends(g, x, q_old[i] as int));
                assert(done_old[x]);
                assert(false);
            }
            assert(depends(g, q_old[j] as int, q_old[i] as int));
        } else {
            assert(j <= head);
        }
    }
}

/// Whether node `n` runs on a tick: a node with a condition port runs
/// exactly when the condition's value is `true` (dirtiness is ignored); any
/// other node runs on its first tick, and afterwards whenever one of its
/// inputs is dirty.
pub open spec fn runs(n: NodePorts, is_new: bool, cond_value: bool, dirty: Set<u64>) -> bool {
    if n.condition is Some {
        cond_value
    } else if is_new {
        true
    } else {
        exists|i: int| 0 <= i < n.inputs@.len() && dirty.contains(#[trigger] n.inputs@[i]@)
    }
}

/// A node without a condition port runs when any one of its inputs is
/// dirty, at whatever position that input stands.
pub proof fn lemma_any_dirty_input_runs(n: NodePorts, is_new: bool, cond_value: bool, dirty: Set<u64>, i: int)
    requires
        n.condition is None,
        0 <= i < n.inputs@.len(),
        dirty.contains(n.inputs@[i]@),
    ensures
        runs(n, is_new, cond_value, dirty),
{
}

/// A node without a condition port, past its first run, does not run when
/// none of its inputs is dirty.
pub proof fn lemma_clean_inputs_skip(n: NodePorts, cond_value: bool, dirty: Set<u64>)
    requires
        n.condition is None,
        forall|i: int| 0 <= i < n.inputs@.len() ==> !dirty.contains(#[trigger] n.inputs@[i]@),
    ensures
        !runs(n, false, cond_value, dirty),
{
}

/// Whether any of `inputs` is in the `dirty` set of field indices.
pub fn any_input_dirty(inputs: &Vec<PortId>, dirty: &HashSet<u64>) -> (r: bool)
    ensures
        r == exists|i: int| 0 <= i < inputs@.len() && dirty@.contains(#[trigger] inputs@[i]@),
{
    let mut i: usize = 0;
    while i < inputs.len()
        invariant
            0 <= i <= inputs@.len(),
            forall|j: int| 0 <= j < i ==> !dirty@.contains(#[trigger] inputs@[j]@),
        decreases inputs@.len() - i,
    {
        let key = inputs[i].0;
        if dirty.contains(&key) {
            proof {
                assert(inputs@[i as int]@ == key);
                assert(dirty@.contains(inputs@[i as int]@));
            }
            return true;
        }
        i = i + 1;
    }
    false
}

/// One key's dirty record as a map fan-out node sees it.
pub struct KeyDirty {
    /// The key is in the map now.
    pub present: bool,
    /// The whole element was mutated, or overwritten by an insert.
    pub full: bool,
    /// The key was newly inserted.
    pub added: bool,
    /// The key was removed.
    pub removed: bool,
    /// The element ports written by earlier stages (field indices).
    pub ports: HashSet<u64>,
}

/// A fan-out node reprocesses a key that is in the map and was inserted,
/// mutated as a whole, or had one of the node's element inputs written.
pub open spec fn reprocesses(r: KeyDirty, elem_in: Seq<PortId>) -> bool {
    r.present && (r.added || r.full || exists|j: int|
        0 <= j < elem_in.len() && r.ports@.contains(#[trigger] elem_in[j]@))
}

/// A key that left the map through a remove signals downstream readers.
pub open spec fn drops(r: KeyDirty) -> bool {
    !r.present && r.removed
}

/// The indices, among the first `n` records, of the keys to reprocess.
pub open spec fn reprocessed_keys(recs: Seq<KeyDirty>, elem_in: Seq<PortId>, n: int) -> Seq<usize>
    decreases n,
{
    if n <= 0 {
        Seq::empty()
    } else if reprocesses(recs[n - 1], elem_in) {
        reprocessed_keys(recs, elem_in, n - 1).push((n - 1) as usize)
    } else {
        reprocessed_keys(recs, elem_in, n - 1)
    }
}

/// The indices, among the first `n` records, of the removed keys.
pub open spec fn dropped_keys(recs: Seq<KeyDirty>, n: int) -> Seq<usize>
    decreases n,
{
    if n <= 0 {
        Seq::empty()
    } else if drops(recs[n - 1]) {
        dropped_keys(recs, n - 1).push((n - 1) as usize)
    } else {
        dropped_keys(recs, n - 1)
    }
}

/// What one pass of a map fan-out node does: reprocess every current
/// element (`full`), or the listed records' keys, and signal the removed
/// keys downstream.
pub struct FanoutPlan {
    /// Reprocess every element currently in the map.
    pub full: bool,
    /// Indices of the records whose keys are reprocessed.
    pub process: Vec<usize>,
    /// Indices of the records whose keys were removed.
    pub removed: Vec<usize>,
}

/// Decides a fan-out pass from the map's dirty records (one per recorded
/// key) and the node's element inputs. A full pass (first run, a dirty
/// global input, or a whole-map write) reprocesses everything; otherwise
/// only the keys that the records mark, in record order.
pub fn plan_fanout(records: &Vec<KeyDirty>, elem_in: &Vec<PortId>, full: bool) -> (r: FanoutPlan)
    ensures
        r.full == full,
        full ==> r.process@.len() == 0 && r.removed@.len() == 0,
        !full ==> r.process@ == reprocessed_keys(records@, elem_in@, records@.len() as int),
        !full ==> r.removed@ == dropped_keys(records@, records@.len() as int),
{
    let mut process: Vec<usize> = Vec::new();
    let mut removed: Vec<usize> = Vec::new();
    if full {
        return FanoutPlan { full, process, removed };
    }
    let mut i: usize = 0;
    while i < records.len()
        invariant
            0 <= i <= records@.len(),
            process@ == reprocessed_keys(records@, elem_in@, i as int),
            removed@ == dropped_keys(records@, i as int),
        decreases records@.len() - i,
    {
        let rec = &records[i];
        if !rec.present {
            if rec.removed {
                removed.push(i);
            }
        } else if rec.added || rec.full {
            process.push(i);
        } else if any_input_dirty(elem_in, &rec.ports) {
            process.push(i);
        }
        i = i + 1;
    }
    FanoutPlan { full, process, removed }
}

impl FanoutPlan {
    /// Whether the pass writes the map back, so that downstream readers of
    /// the map re-run: a full pass over a non-empty map, any reprocessed
    /// element, or any removed key.
    pub fn writes(&self, current_len: usize) -> (r: bool)
        ensures
            r == if self.full {
                current_len > 0
            } else {
                self.process@.len() > 0 || self.removed@.len() > 0
            },
    {
        if self.full {
            current_len > 0
        } else {
            self.process.len() > 0 || self.removed.len() > 0
        }
    }
}

/// The scheduling state of a graph: each node's ports, the order nodes run
/// in, the nodes still owed their unconditional first run, and whether the
/// order must be recomputed because nodes were added.
pub struct Topology {
    nodes: Vec<NodePorts>,
    topo_order: Vec<usize>,
    pending_first_run: HashSet<usize>,
    topo_stale: bool,
}

impl Topology {
    /// The nodes' port metadata, by node index.
    pub closed spec fn nodes(&self) -> Seq<NodePorts> {
        self.nodes@
    }

    /// The run order computed by the last sort.
    pub closed spec fn order(&self) -> Seq<usize> {
        self.topo_order@
    }

    /// Node `i` still owes its unconditional first run.
    pub closed spec fn pending(&self, i: int) -> bool {
        self.pending_first_run@.contains(i as usize)
    }

    /// Nodes were added since the last sort.
    pub closed spec fn stale(&self) -> bool {
        self.topo_stale
    }

    /// Every operation keeps this: an order that is not stale runs every
    /// node once, after all the nodes it depends on.
    #[verifier::type_invariant]
    spec fn inv(self) -> bool {
        !self.topo_stale ==> is_topological(self.nodes@, self.topo_order@)
    }

    /// An empty topology.
    pub fn new() -> (r: Self)
        ensures
            r.nodes() == Seq::<NodePorts>::empty(),
            r.order() == Seq::<usize>::empty(),
            !r.stale(),
    {
        Topology { nodes: Vec::new(), topo_order: Vec::new(), pending_first_run: HashSet::new(), topo_stale: false }
    }

    /// Registers a node and returns its index. The node runs
    /// unconditionally on its first tick, and the order is recomputed on
    /// the next tick.
    pub fn add_node(&mut self, outputs: Vec<PortId>, inputs: Vec<PortId>, condition: Option<PortId>) -> (r: usize)
        ensures
            r == old(self).nodes().len(),
            final(self).nodes() == old(self).nodes().push(NodePorts { outputs, inputs, condition, map_port: None }),
            forall|i: int| 0 <= i < r ==> final(self).pending(i) == old(self).pending(i),
            final(self).pending(r as int),
            final(self).stale(),
            final(self).order() == old(self).order(),
    {
        let index = self.nodes.len();
        // Marking the order stale first keeps the invariant at every step.
        self.topo_stale = true;
        let mut nodes = Vec::new();
        swap(&mut nodes, &mut self.nodes);
        nodes.push(NodePorts { outputs, inputs, condition, map_port: None });
        self.nodes = nodes;
        let mut pending = HashSet::new();
        swap(&mut pending, &mut self.pending_first_run);
        pending.insert(index);
        self.pending_first_run = pending;
        index
    }

    /// Tags the most recently added node as a map node over `map`, so that
    /// it and other map nodes over the same map are ordered by insertion
    /// rather than by an edge. It is meant for the node just added, while
    /// the order is still stale; on a sorted order it may only tag a node
    /// that has no map yet, since that only drops edges.
    pub fn mark_last_map_node(&mut self, map: PortId)
        requires
            old(self).nodes().len() > 0,
            old(self).stale() || old(self).nodes().last().map_port is None,
        ensures
            final(self).nodes() == old(self).nodes().update(
                old(self).nodes().len() - 1,
                NodePorts { map_port: Some(map), ..old(self).nodes().last() },
            ),
            forall|i: int| 0 <= i < old(self).nodes().len() ==> final(self).pending(i) == old(self).pending(i),
            final(self).stale() == old(self).stale(),
            final(self).order() == old(self).order(),
    {
        proof {
            use_type_invariant(&*self);
        }
        // The order stays valid only once the node is back in place.
        let was_stale = self.topo_stale;
        self.topo_stale = true;
        let mut nodes = Vec::new();
        swap(&mut nodes, &mut self.nodes);
        let popped = nodes.pop();
        match popped {
            Some(mut node) => {
                node.map_port = Some(map);
                nodes.push(node);
                self.nodes = nodes;
                proof {
                    assert(self.nodes@ =~= old(self).nodes@.update(old(self).nodes@.len() - 1, node));
                    if !was_stale {
                        let g = old(self).nodes@;
                        assert(node == NodePorts { map_port: Some(map), ..g[g.len() - 1] });
                        lemma_tag_keeps_order(g, g.len() - 1, map, self.topo_order@);
                    }
                }
            },
            None => {
                self.nodes = nodes;
            },
        }
        self.topo_stale = was_stale;
    }

    /// Whether the edge from `p` to `d` through `q` counts for ordering.
    fn counts_edge(&self, p: usize, d: usize, q: PortId) -> (r: bool)
        requires
            p < self.nodes@.len(),
            d < self.nodes@.len(),
        ensures
            r == counted(self.nodes@, p as int, d as int, q),
    {
        if d == p {
            return false;
        }
        let pm = match self.nodes[p].map_port {
            Some(m) => m.0 == q.0,
            None => false,
        };
        let dm = match self.nodes[d].map_port {
            Some(m) => m.0 == q.0,
            None => false,
        };
        !(pm && dm)
    }

    /// How many edges a write to `q` sends to node `d`, counted up to the
    /// first value that no `u32` counter can hold.
    fn mult_of(&self, d: usize, q: PortId) -> (c: u64)
        requires
            d < self.nodes@.len(),
        ensures
            mult(self.nodes@[d as int], q) <= u32::MAX ==> c == mult(self.nodes@[d as int], q),
            mult(self.nodes@[d as int], q) > u32::MAX ==> c == u32::MAX + 1,
    {
        let ins = &self.nodes[d].inputs;
        let mut c: u64 = 0;
        let mut i: usize = 0;
        while i < ins.len()
            invariant
                d < self.nodes@.len(),
                ins@ == self.nodes@[d as int].inputs@,
                0 <= i <= ins@.len(),
                c == count_in(ins@.subrange(0, i as int), q),
                c <= u32::MAX,
            decreases ins@.len() - i,
        {
            proof {
                assert(ins@.subrange(0, i + 1).drop_last() =~= ins@.subrange(0, i as int));
            }
            if ins[i].0 == q.0 {
                c = c + 1;
                if c > 0xffff_ffffu64 {
                    proof {
                        assert(ins@[i as int] == q);
                        assert(count_in(ins@.subrange(0, i + 1), q) == c);
                        lemma_count_in_prefix_mono(ins@, q, i + 1, ins@.len() as int);
                        assert(ins@.subrange(0, ins@.len() as int) =~= ins@);
                        assert(count_in(ins@, q) > u32::MAX);
                        assert(ins@ == self.nodes@[d as int].inputs@);
                        assert(mult(self.nodes@[d as int], q) >= count_in(ins@, q));
                    }
                    return c;
                }
            }
            i = i + 1;
        }
        proof {
            assert(ins@.subrange(0, ins@.len() as int) =~= ins@);
        }
        match self.nodes[d].condition {
            Some(cq) => {
                if cq.0 == q.0 {
                    c + 1
                } else {
                    c
                }
            },
            None => c,
        }
    }

    /// The number of incoming edges of every node, or `None` when some
    /// node has more than a `u32` counter can hold.
    fn initial_in_degrees(&self) -> (r: Option<Vec<u32>>)
        ensures
            r is Some <==> degrees_fit(self.nodes@),
            r matches Some(v) ==> v@.len() == self.nodes@.len(),
            r matches Some(v) ==> forall|x: int| 0 <= x < v@.len() ==> #[trigger] v@[x] == indeg(self.nodes@, x, none_done(self.nodes@.len())),
    {
        let ghost g = self.nodes@;
        let n = self.nodes.len();
        let ghost none = none_done(n as nat);
        let mut counts: Vec<u32> = Vec::new();
        let mut x: usize = 0;
        while x < n
            invariant
                0 <= x <= n,
                n == g.len(),
                counts@.len() == x,
                forall|y: int| 0 <= y < x ==> #[trigger] counts@[y] == 0,
            decreases n - x,
        {
            counts.push(0);
            x = x + 1;
        }
        let mut p: usize = 0;
        while p < n
            invariant
                0 <= p <= n,
                n == g.len(),
                g == self.nodes@,
                none == none_done(n as nat),
                counts@.len() == n,
                forall|y: int| 0 <= y < n ==> #[trigger] counts@[y] == indeg_part(g, y, none, p as int),
            decreases n - p,
        {
            let outs = &self.nodes[p].outputs;
            let mut k: usize = 0;
            while k < outs.len()
                invariant
                    0 <= p < n,
                    n == g.len(),
                    g == self.nodes@,
                    outs@ == g[p as int].outputs@,
                    none == none_done(n as nat),
                    0 <= k <= outs@.len(),
                    counts@.len() == n,
                    forall|y: int| 0 <= y < n ==> #[trigger] counts@[y] == indeg_part(g, y, none, p as int) + wpart(g, p as int, y, k as int),
                decreases outs@.len() - k,
            {
                let q = outs[k];
                let mut d: usize = 0;
                while d < n
                    invariant
                        0 <= p < n,
                        n == g.len(),
                        g == self.nodes@,
                        outs@ == g[p as int].outputs@,
                        none == none_done(n as nat),
                        0 <= k < outs@.len(),
                        q == outs@[k as int],
                        0 <= d <= n,
                        counts@.len() == n,
                        forall|y: int| 0 <= y < n ==> #[trigger] counts@[y] == indeg_part(g, y, none, p as int) + wpart(g, p as int, y, k as int) + (if y < d { term(g, p as int, y, k as int) } else { 0 }),
                    decreases n - d,
                {
                    if self.counts_edge(p, d, q) {
                        let c = self.mult_of(d, q);
                        let sum = counts[d] as u64 + c;
                        proof {
                            let y = d as int;
                            lemma_wpart_mono(g, p as int, y, k + 1, g[p as int].outputs@.len() as int);
                            assert(indeg_part(g, y, none, p + 1) == indeg_part(g, y, none, p as int) + weight(g, p as int, y));
                            lemma_indeg_part_mono(g, y, none, p + 1, n as int);
                            assert(term(g, p as int, y, k as int) == mult(g[y], q));
                        }
                        if sum > 0xffff_ffffu64 {
                            proof {
                                let y = d as int;
                                assert(indeg(g, y, none) > u32::MAX);
                                assert(!degrees_fit(g));
                            }
                            return None;
                        }
                        counts.set(d, sum as u32);
                    }
                    d = d + 1;
                }
                k = k + 1;
            }
            p = p + 1;
        }
        proof {
            assert forall|d: int| 0 <= d < g.len() implies #[trigger] indeg(g, d, none_done(g.len())) <= u32::MAX by {
                assert(counts@[d] == indeg(g, d, none));
            }
        }
        Some(counts)
    }

    /// Removes the edges of node `p` (just taken from the queue) from the
    /// in-degree counters, appending to the queue every node whose count
    /// drops to zero, in the order the edges are visited.
    fn relax(&self, p: usize, counts: &mut Vec<u32>, queue: &mut Vec<usize>, Ghost(done): Ghost<Seq<bool>>)
        requires
            p < self.nodes@.len(),
            done.len() == self.nodes@.len(),
            !done[p as int],
            old(counts)@.len() == self.nodes@.len(),
            forall|y: int| 0 <= y < old(counts)@.len() ==> #[trigger] old(counts)@[y] == indeg(self.nodes@, y, done),
            old(queue)@.no_duplicates(),
            forall|i: int| 0 <= i < old(queue)@.len() ==> #[trigger] old(queue)@[i] < self.nodes@.len(),
            forall|y: usize| y < self.nodes@.len() ==> (#[trigger] old(queue)@.contains(y) <==> old(counts)@[y as int] == 0),
        ensures
            final(counts)@.len() == self.nodes@.len(),
            forall|y: int| 0 <= y < final(counts)@.len() ==> #[trigger] final(counts)@[y] == indeg(self.nodes@, y, done.update(p as int, true)),
            final(queue)@.len() >= old(queue)@.len(),
            final(queue)@.subrange(0, old(queue)@.len() as int) == old(queue)@,
            final(queue)@.no_duplicates(),
            forall|i: int| 0 <= i < final(queue)@.len() ==> #[trigger] final(queue)@[i] < self.nodes@.len(),
            forall|y: usize| y < self.nodes@.len() ==> (#[trigger] final(queue)@.contains(y) <==> final(counts)@[y as int] == 0),
    {
        let ghost g = self.nodes@;
        let n = self.nodes.len();
        let ghost nd = done.update(p as int, true);
        let ghost q0 = queue@;
        let outs = &self.nodes[p].outputs;
        let mut k: usize = 0;
        while k < outs.len()
            invariant
                p < n,
                n == g.len(),
                g == self.nodes@,
                outs@ == g[p as int].outputs@,
                done.len() == n,
                !done[p as int],
                nd == done.update(p as int, true),
                0 <= k <= outs@.len(),
                counts@.len() == n,
                forall|y: int| 0 <= y < n ==> #[trigger] counts@[y] + wpart(g, p as int, y, k as int) == indeg(g, y, done),
                queue@.len() >= q0.len(),
                queue@.subrange(0, q0.len() as int) == q0,
                queue@.no_duplicates(),
                forall|i: int| 0 <= i < queue@.len() ==> #[trigger] queue@[i] < n,
                forall|y: usize| y < n ==> (#[trigger] queue@.contains(y) <==> counts@[y as int] == 0),
            decreases outs@.len() - k,
        {
            let q = outs[k];
            let mut d: usize = 0;
            while d < n
                invariant
                    p < n,
                    n == g.len(),
                    g == self.nodes@,
                    outs@ == g[p as int].outputs@,
                    done.len() == n,
                    !done[p as int],
                    0 <= k < outs@.len(),
                    q == outs@[k as int],
                    0 <= d <= n,
                    counts@.len() == n,
                    forall|y: int| 0 <= y < n ==> #[trigger] counts@[y] + wpart(g, p as int, y, k as int) + (if y < d { term(g, p as int, y, k as int) } else { 0 }) == indeg(g, y, done),
                    queue@.len() >= q0.len(),
                    queue@.subrange(0, q0.len() as int) == q0,
                    queue@.no_duplicates(),
                    forall|i: int| 0 <= i < queue@.len() ==> #[trigger] queue@[i] < n,
                    forall|y: usize| y < n ==> (#[trigger] queue@.contains(y) <==> counts@[y as int] == 0),
                decreases n - d,
            {
                if self.counts_edge(p, d, q) {
                    proof {
                        let y = d as int;
                        lemma_wpart_mono(g, p as int, y, k + 1, g[p as int].outputs@.len() as int);
                        lemma_indeg_part_ge_weight(g, y, done, n as int, p as int);
                        assert(term(g, p as int, y, k as int) == mult(g[y], q));
                        assert(counts@[y] + wpart(g, p as int, y, k as int) == indeg(g, y, done));
                        assert(wpart(g, p as int, y, k + 1) == wpart(g, p as int, y, k as int) + term(g, p as int, y, k as int));
                        assert(mult(g[y], q) <= counts@[y]);
                    }
                    let c = self.mult_of(d, q);
                    if c > 0 {
                        let ghost before = queue@;
                        counts.set(d, counts[d] - c as u32);
                        if counts[d] == 0 {
                            proof {
                                assert(!before.contains(d));
                            }
                            queue.push(d);
                            proof {
                                assert forall|i: int, j: int| 0 <= i < queue@.len() && 0 <= j < queue@.len() && i != j implies queue@[i] != queue@[j] by {
                                    if i < before.len() && j < before.len() {
                                        assert(before[i] != before[j]);
                                    } else if i < before.len() {
                                        assert(before.contains(before[i]));
                                    } else {
                                        assert(before.contains(before[j]));
                                    }
                                }
                                assert(queue@.subrange(0, q0.len() as int) =~= before.subrange(0, q0.len() as int));
                                assert forall|y: usize| y < n implies (#[trigger] queue@.contains(y) <==> counts@[y as int] == 0) by {
                                    if queue@.contains(y) && y != d {
                                        let i = choose|i: int| 0 <= i < queue@.len() && queue@[i] == y;
                                        assert(i < before.len());
                                        assert(before.contains(y));
                                    }
                                    if y != d && before.contains(y) {
                                        let i = choose|i: int| 0 <= i < before.len() && before[i] == y;
                                        assert(queue@[i] == y);
                                    }
                                    if y == d {
                                        assert(queue@[queue@.len() - 1] == y);
                                    }
                                }
                            }
                        } else {
                            proof {
                                assert forall|y: usize| y < n implies (#[trigger] queue@.contains(y) <==> counts@[y as int] == 0) by {
                                    if y == d {
                                        assert(!before.contains(y) || counts@[y as int] == 0);
                                    }
                                }
                            }
                        }
                    } else {
                        proof {
                            assert(term(g, p as int, d as int, k as int) == 0);
                        }
                    }
                } else {
                    proof {
                        assert(term(g, p as int, d as int, k as int) == 0);
                    }
                }
                d = d + 1;
            }
            k = k + 1;
        }
        proof {
            assert forall|y: int| 0 <= y < n implies #[trigger] counts@[y] == indeg(g, y, nd) by {
                lemma_indeg_part_mark(g, y, done, n as int, p as int);
            }
        }
    }

    /// True if the graph contains at least one node.
    pub fn is_active(&self) -> (r: bool)
        ensures
            r == (self.nodes().len() > 0),
    {
        self.nodes.len() > 0
    }

    /// Number of registered nodes.
    pub fn node_count(&self) -> (r: usize)
        ensures
            r == self.nodes().len(),
    {
        self.nodes.len()
    }

    /// Whether nodes were added since the last sort.
    pub fn is_stale(&self) -> (r: bool)
        ensures
            r == self.stale(),
    {
        self.topo_stale
    }

    /// The run order computed by the last sort. When the order is not
    /// stale, it runs every node once, after each node it depends on.
    pub fn run_order(&self) -> (r: Vec<usize>)
        ensures
            r@ == self.order(),
            !self.stale() ==> is_topological(self.nodes(), r@),
    {
        proof {
            use_type_invariant(self);
        }
        let mut r: Vec<usize> = Vec::new();
        let mut i: usize = 0;
        while i < self.topo_order.len()
            invariant
                0 <= i <= self.topo_order@.len(),
                r@ == self.topo_order@.subrange(0, i as int),
            decreases self.topo_order@.len() - i,
        {
            r.push(self.topo_order[i]);
            i = i + 1;
        }
        proof {
            assert(self.topo_order@.subrange(0, i as int) =~= self.topo_order@);
        }
        r
    }

    /// Brings the run order up to date before a tick: a stale order is
    /// recomputed. Returns `false` exactly when that recomputation fails
    /// (see [`Topology::recompute_topo`]).
    pub fn prepare_tick(&mut self) -> (ok: bool)
        ensures
            final(self).nodes() == old(self).nodes(),
            forall|i: int| 0 <= i < old(self).nodes().len() ==> final(self).pending(i) == old(self).pending(i),
            !old(self).stale() ==> ok && final(self).order() == old(self).order() && !final(self).stale(),
            old(self).stale() ==> ok == (degrees_fit(old(self).nodes()) && has_topological_order(old(self).nodes())),
            old(self).stale() && ok ==> is_topological(old(self).nodes(), final(self).order()) && sources_first(
                old(self).nodes(),
                final(self).order(),
            ) && !final(self).stale(),
            !ok ==> final(self).order() == old(self).order() && final(self).stale(),
            ok ==> !final(self).stale() && is_topological(final(self).nodes(), final(self).order()),
    {
        proof {
            use_type_invariant(&*self);
        }
        if self.topo_stale {
            self.recompute_topo()
        } else {
            true
        }
    }

    /// Decides whether node `idx` runs in the current tick (see [`runs`]),
    /// given the value of its condition port (ignored for nodes without
    /// one) and the field indices written so far. Visiting a node uses up
    /// its unconditional first run.
    pub fn should_run(&mut self, idx: usize, cond_value: bool, dirty: &HashSet<u64>) -> (r: bool)
        requires
            idx < old(self).nodes().len(),
        ensures
            r == runs(old(self).nodes()[idx as int], old(self).pending(idx as int), cond_value, dirty@),
            !final(self).pending(idx as int),
            forall|i: int| 0 <= i < old(self).nodes().len() && i != idx ==> final(self).pending(i) == old(self).pending(i),
            final(self).nodes() == old(self).nodes(),
            final(self).order() == old(self).order(),
            final(self).stale() == old(self).stale(),
    {
        proof {
            use_type_invariant(&*self);
        }
        let n = self.nodes.len();
        let mut pending = HashSet::new();
        swap(&mut pending, &mut self.pending_first_run);
        let is_new = pending.remove(&idx);
        self.pending_first_run = pending;
        proof {
            assert forall|i: int| 0 <= i < old(self).nodes().len() && i != idx implies self.pending(i) == old(self).pending(i) by {
                assert(0 <= i < n);
                assert(i as usize == i);
            }
        }
        match self.nodes[idx].condition {
            Some(_) => cond_value,
            None => {
                if is_new {
                    true
                } else {
                    any_input_dirty(&self.nodes[idx].inputs, dirty)
                }
            },
        }
    }

    /// Recomputes the run order (Kahn's algorithm, first-in first-out, with
    /// ties broken by node index and then by edge order). Returns whether
    /// every node could be ordered: exactly when the nodes' dependencies
    /// admit a topological order and every node's incoming edges fit a
    /// `u32` counter. The order and the stale flag change only on success.
    pub fn recompute_topo(&mut self) -> (ok: bool)
        ensures
            ok == (degrees_fit(old(self).nodes()) && has_topological_order(old(self).nodes())),
            ok ==> is_topological(old(self).nodes(), final(self).order()),
            ok ==> sources_first(old(self).nodes(), final(self).order()),
            ok ==> !final(self).stale(),
            !ok ==> final(self).stale() == old(self).stale() && final(self).order() == old(self).order(),
            final(self).nodes() == old(self).nodes(),
            forall|i: int| 0 <= i < old(self).nodes().len() ==> final(self).pending(i) == old(self).pending(i),
    {
        let ghost g = self.nodes@;
        let n = self.nodes.len();
        let mut counts = match self.initial_in_degrees() {
            Some(c) => c,
            None => {
                return false;
            },
        };
        let mut queue: Vec<usize> = Vec::new();
        let mut x: usize = 0;
        while x < n
            invariant
                0 <= x <= n,
                n == g.len(),
                counts@.len() == n,
                queue@.no_duplicates(),
                forall|i: int| 0 <= i < queue@.len() ==> #[trigger] queue@[i] < x,
                forall|i: int, j: int| #![trigger queue@[i], queue@[j]] 0 <= i < j < queue@.len() ==> queue@[i] < queue@[j],
                forall|y: usize| y < n ==> (#[trigger] queue@.contains(y) <==> (y < x && counts@[y as int] == 0)),
            decreases n - x,
        {
            if counts[x] == 0 {
                let ghost before = queue@;
                queue.push(x);
                proof {
                    assert forall|i: int, j: int| 0 <= i < queue@.len() && 0 <= j < queue@.len() && i != j implies queue@[i] != queue@[j] by {
                        if i < before.len() && j < before.len() {
                            assert(before[i] != before[j]);
                        }
                    }
                    assert forall|y: usize| y < n implies (#[trigger] queue@.contains(y) <==> (y < x + 1 && counts@[y as int] == 0)) by {
                        if queue@.contains(y) && y != x {
                            let i = choose|i: int| 0 <= i < queue@.len() && queue@[i] == y;
                            assert(before.contains(y));
                        }
                        if y != x && y < x && counts@[y as int] == 0 {
                            assert(before.contains(y));
                            let i = choose|i: int| 0 <= i < before.len() && before[i] == y;
                            assert(queue@[i] == y);
                        }
                        if y == x {
                            assert(queue@[queue@.len() - 1] == y);
                        }
                    }
                }
            }
            x = x + 1;
        }
        let ghost mut done = none_done(n as nat);
        let ghost q0 = queue@;
        let ghost k0 = q0.len() as int;
        proof {
            assert forall|y: int| 0 <= y < n implies #[trigger] counts@[y] == indeg(g, y, done) by {}
            assert forall|y: int| 0 <= y < n implies (#[trigger] done[y] <==> queue@.subrange(0, 0).contains(y as usize)) by {}
            assert forall|i: int, x: int| 0 <= i < queue@.len() && 0 <= x < n && #[trigger] depends(g, x, queue@[i] as int) implies done[x] by {
                let y = queue@[i];
                assert(queue@.contains(y));
                lemma_indeg_part_ge_weight(g, y as int, done, n as int, x);
            }
            assert forall|i: int, j: int|
                #![trigger queue@[i], queue@[j]]
                0 <= i < queue@.len() && 0 <= j < queue@.len() && depends(g, queue@[j] as int, queue@[i] as int) implies j < i by {
                let y = queue@[i];
                assert(queue@.contains(y));
                lemma_indeg_part_ge_weight(g, y as int, done, n as int, queue@[j] as int);
            }
        }
        let mut head: usize = 0;
        while head < queue.len()
            invariant
                n == g.len(),
                g == self.nodes@,
                n <= usize::MAX,
                self.pending_first_run@ == old(self).pending_first_run@,
                self.topo_order@ == old(self).topo_order@,
                self.topo_stale == old(self).topo_stale,
                counts@.len() == n,
                done.len() == n,
                0 <= head <= queue@.len(),
                k0 == q0.len(),
                k0 <= queue@.len(),
                queue@.subrange(0, k0) == q0,
                forall|i: int, j: int| #![trigger q0[i], q0[j]] 0 <= i < j < k0 ==> q0[i] < q0[j],
                forall|y: usize| y < n ==> (#[trigger] q0.contains(y) <==> indeg(g, y as int, none_done(n as nat)) == 0),
                queue@.no_duplicates(),
                forall|i: int| 0 <= i < queue@.len() ==> #[trigger] queue@[i] < n,
                forall|y: int| 0 <= y < n ==> (#[trigger] done[y] <==> queue@.subrange(0, head as int).contains(y as usize)),
                forall|y: int| 0 <= y < n ==> #[trigger] counts@[y] == indeg(g, y, done),
                forall|y: usize| y < n ==> (#[trigger] queue@.contains(y) <==> counts@[y as int] == 0),
                forall|i: int, x: int| 0 <= i < queue@.len() && 0 <= x < n && #[trigger] depends(g, x, queue@[i] as int) ==> done[x],
                forall|i: int, j: int|
                    #![trigger queue@[i], queue@[j]]
                    0 <= i < queue@.len() && 0 <= j < queue@.len() && depends(g, queue@[j] as int, queue@[i] as int) ==> j < i,
            decreases n - head,
        {
            proof {
                lemma_distinct_bound(queue@, n as nat);
            }
            let p = queue[head];
            proof {
                if done[p as int] {
                    let i = choose|i: int| 0 <= i < head && #[trigger] queue@.subrange(0, head as int)[i] == p;
                    assert(queue@[i] == queue@[head as int]);
                }
            }
            let ghost q_old = queue@;
            let ghost done_old = done;
            self.relax(p, &mut counts, &mut queue, Ghost(done));
            proof {
                done = done.update(p as int, true);
                lemma_relax_order(g, q_old, queue@, done_old, done, head as int, p as int);
                assert(queue@.subrange(0, k0) =~= queue@.subrange(0, q_old.len() as int).subrange(0, k0));
            }
            head = head + 1;
        }
        proof {
            lemma_distinct_bound(queue@, n as nat);
            assert(queue@.subrange(0, head as int) =~= queue@);
        }
        if queue.len() == n {
            proof {
                assert(is_topological(g, queue@));
            }
            self.topo_order = queue;
            self.topo_stale = false;
            proof {
                let order = self.topo_order@;
                assert forall|i: int| 0 <= i < k0 implies indeg(g, #[trigger] order[i] as int, none_done(g.len())) == 0 by {
                    assert(order[i] == queue@.subrange(0, k0)[i]);
                    assert(q0.contains(order[i]));
                }
                assert forall|i: int| k0 <= i < order.len() implies indeg(g, #[trigger] order[i] as int, none_done(g.len())) > 0 by {
                    if q0.contains(order[i]) {
                        let j = choose|j: int| 0 <= j < q0.len() && q0[j] == order[i];
                        assert(order[j] == queue@.subrange(0, k0)[j]);
                        assert(order[j] == order[i]);
                    }
                }
                assert forall|i: int, j: int| #![trigger order[i], order[j]] 0 <= i < j < k0 implies order[i] < order[j] by {
                    assert(order[i] == queue@.subrange(0, k0)[i]);
                    assert(order[j] == queue@.subrange(0, k0)[j]);
                }
                assert(sources_prefix(g, order, k0));
            }
            true
        } else {
            proof {
                let y = choose|y: usize| y < n && !queue@.contains(y);
                assert forall|x: int| 0 <= x < g.len() && !done[x] implies #[trigger] indeg(g, x, done) > 0 by {
                    assert(!queue@.contains(x as usize));
                }
                lemma_no_order(g, done, y as int);
            }
            false
        }
    }
}

} // verus!
