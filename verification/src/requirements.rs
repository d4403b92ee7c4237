//! Requirements that make some edges of the Steiner graph costlier than their own weight, and
//! the fixed point that keeps those weights in line with the tree being grown.
//!
//! Some edges (a federated entity resolver, typically) need extra fields. Those are free when the
//! tree already reaches them and costly otherwise, so the weight of such an edge is its inherent
//! weight plus an estimate of what reaching its requirements would add to the tree. Once one of
//! those edges is in the tree, its requirements become terminals.
use crate::bitset::{bit_at, bitset_bits, bitset_insert, cleared_bits};
use crate::graph::{edge_bound, edge_endpoints, edge_target, graph_edges, graph_node_count, node_bound, replace_weight};
use crate::error::Error;
use crate::steiner_tree::{fresh_terminals, lemma_fresh_terminals_given, SteinerTree};
use core::ops::ControlFlow;
use fixedbitset::FixedBitSet;
use petgraph::Graph;
use vstd::multiset::Multiset;
use vstd::prelude::*;

verus! {

/// A range `start..end` of positions in one of the lists of `Requirements`.
#[derive(Clone, Copy, Debug, PartialEq, Eq)]
pub struct IdRange {
    pub start: usize,
    pub end: usize,
}

impl IdRange {
    /// The range lies within a list of `len` items.
    pub open spec fn fits(self, len: nat) -> bool {
        self.start <= self.end && self.end <= len
    }

    /// The items of `s` in the range.
    pub open spec fn of<T>(self, s: Seq<T>) -> Seq<T> {
        s.subrange(self.start as int, self.end as int)
    }

    pub fn is_empty(&self) -> (r: bool)
        ensures
            r == (self.end <= self.start),
    {
        self.end <= self.start
    }
}

/// Requirements that become terminals as soon as `node_id` is in the tree.
#[derive(Clone, Copy, Debug, PartialEq, Eq)]
pub struct FreeRequirementByNode {
    pub node_id: usize,
    pub required_node_ids: IdRange,
    pub required_space_node_ids: IdRange,
}

/// Requirements that become terminals as soon as `edge_id` is in the tree.
#[derive(Clone, Copy, Debug, PartialEq, Eq)]
pub struct FreeRequirementByEdge {
    pub edge_id: usize,
    pub required_node_ids: IdRange,
    pub required_space_node_ids: IdRange,
}

/// Requirements shared by some edges (the dependent edges, each with its inherent weight): they
/// weigh on those edges until one of them is in the tree, then they become terminals.
/// Unavoidable parent edges are the edges that must be taken anyway to reach the node needing
/// the requirements.
#[derive(Clone, Copy, Debug, PartialEq, Eq)]
pub struct RequirementsByEdge {
    pub unavoidable_parent_edge_ids: IdRange,
    pub required_space_node_ids: IdRange,
    pub required_node_ids: IdRange,
    pub dependent_edge_with_inherent_weight_ids: IdRange,
}

/// All the requirements of a Steiner graph; the ranges point into the four lists at the end.
pub struct Requirements {
    pub free_requirements_by_node: Vec<FreeRequirementByNode>,
    pub free_requirements_by_edge: Vec<FreeRequirementByEdge>,
    pub requirements_by_edge: Vec<RequirementsByEdge>,
    pub required_nodes: Vec<usize>,
    pub required_space_nodes: Vec<usize>,
    pub unavoidable_parent_edges: Vec<usize>,
    pub dependent_edges_with_inherent_weight: Vec<(usize, u32)>,
}

impl Requirements {
    /// Ranges of a free requirement within their lists.
    pub open spec fn free_ranges_fit(&self, required_node_ids: IdRange, required_space_node_ids: IdRange) -> bool {
        &&& required_node_ids.fits(self.required_nodes@.len())
        &&& required_space_node_ids.fits(self.required_space_nodes@.len())
    }

    /// Ranges of a requirements group within their lists.
    pub open spec fn group_fits(&self, r: RequirementsByEdge) -> bool {
        &&& r.unavoidable_parent_edge_ids.fits(self.unavoidable_parent_edges@.len())
        &&& r.required_space_node_ids.fits(self.required_space_nodes@.len())
        &&& r.required_node_ids.fits(self.required_nodes@.len())
        &&& r.dependent_edge_with_inherent_weight_ids.fits(self.dependent_edges_with_inherent_weight@.len())
    }

    /// Every range fits its list and every node and edge belongs to `g`.
    pub open spec fn wf(&self, g: Graph<(), u32>) -> bool {
        &&& forall|i: int|
            0 <= i < self.free_requirements_by_node@.len() ==> {
                let r = #[trigger] self.free_requirements_by_node@[i];
                &&& r.node_id < graph_node_count(g)
                &&& self.free_ranges_fit(r.required_node_ids, r.required_space_node_ids)
            }
        &&& forall|i: int|
            0 <= i < self.free_requirements_by_edge@.len() ==> {
                let r = #[trigger] self.free_requirements_by_edge@[i];
                &&& r.edge_id < graph_edges(g).len()
                &&& self.free_ranges_fit(r.required_node_ids, r.required_space_node_ids)
            }
        &&& forall|i: int| 0 <= i < self.requirements_by_edge@.len() ==> self.group_fits(#[trigger] self.requirements_by_edge@[i])
        &&& forall|i: int| 0 <= i < self.required_nodes@.len() ==> #[trigger] self.required_nodes@[i] < graph_node_count(g)
        &&& forall|i: int|
            0 <= i < self.unavoidable_parent_edges@.len() ==> #[trigger] self.unavoidable_parent_edges@[i] < graph_edges(
                g,
            ).len()
        &&& forall|i: int|
            0 <= i < self.dependent_edges_with_inherent_weight@.len()
                ==> #[trigger] self.dependent_edges_with_inherent_weight@[i].0 < graph_edges(g).len()
    }
}

impl IdRange {
    /// Whether the range lies within a list of `len` items.
    pub fn fits_len(&self, len: usize) -> (r: bool)
        ensures
            r == self.fits(len as nat),
    {
        self.start <= self.end && self.end <= len
    }
}

impl Requirements {
    /// Whether the requirements fit `graph` (`wf`): what callers test before handing them to
    /// the weight fixed point.
    pub fn fits_graph(&self, graph: &Graph<(), u32>) -> (r: bool)
        ensures
            r == self.wf(*graph),
    {
        let n = node_bound(graph);
        let m = edge_bound(graph);
        let nodes = self.required_nodes.len();
        let space_nodes = self.required_space_nodes.len();
        let mut i: usize = 0;
        while i < self.free_requirements_by_node.len()
            invariant
                i <= self.free_requirements_by_node@.len(),
                n == graph_node_count(*graph),
                nodes == self.required_nodes@.len(),
                space_nodes == self.required_space_nodes@.len(),
                forall|k: int|
                    0 <= k < i ==> {
                        let r = #[trigger] self.free_requirements_by_node@[k];
                        &&& r.node_id < graph_node_count(*graph)
                        &&& self.free_ranges_fit(r.required_node_ids, r.required_space_node_ids)
                    },
            decreases self.free_requirements_by_node@.len() - i,
        {
            let r = self.free_requirements_by_node[i];
            if !(r.node_id < n && r.required_node_ids.fits_len(nodes) && r.required_space_node_ids.fits_len(space_nodes)) {
                return false;
            }
            i = i + 1;
        }
        let mut i: usize = 0;
        while i < self.free_requirements_by_edge.len()
            invariant
                i <= self.free_requirements_by_edge@.len(),
                m == graph_edges(*graph).len(),
                nodes == self.required_nodes@.len(),
                space_nodes == self.required_space_nodes@.len(),
                forall|k: int|
                    0 <= k < i ==> {
                        let r = #[trigger] self.free_requirements_by_edge@[k];
                        &&& r.edge_id < graph_edges(*graph).len()
                        &&& self.free_ranges_fit(r.required_node_ids, r.required_space_node_ids)
                    },
            decreases self.free_requirements_by_edge@.len() - i,
        {
            let r = self.free_requirements_by_edge[i];
            if !(r.edge_id < m && r.required_node_ids.fits_len(nodes) && r.required_space_node_ids.fits_len(space_nodes)) {
                return false;
            }
            i = i + 1;
        }
        let parents = self.unavoidable_parent_edges.len();
        let dependents = self.dependent_edges_with_inherent_weight.len();
        let mut i: usize = 0;
        while i < self.requirements_by_edge.len()
            invariant
                i <= self.requirements_by_edge@.len(),
                nodes == self.required_nodes@.len(),
                space_nodes == self.required_space_nodes@.len(),
                parents == self.unavoidable_parent_edges@.len(),
                dependents == self.dependent_edges_with_inherent_weight@.len(),
                forall|k: int| 0 <= k < i ==> self.group_fits(#[trigger] self.requirements_by_edge@[k]),
            decreases self.requirements_by_edge@.len() - i,
        {
            let r = self.requirements_by_edge[i];
            if !(r.unavoidable_parent_edge_ids.fits_len(parents) && r.required_space_node_ids.fits_len(space_nodes)
                && r.required_node_ids.fits_len(nodes) && r.dependent_edge_with_inherent_weight_ids.fits_len(dependents)) {
                return false;
            }
            i = i + 1;
        }
        let mut i: usize = 0;
        while i < self.required_nodes.len()
            invariant
                i <= self.required_nodes@.len(),
                n == graph_node_count(*graph),
                forall|k: int| 0 <= k < i ==> #[trigger] self.required_nodes@[k] < graph_node_count(*graph),
            decreases self.required_nodes@.len() - i,
        {
            if self.required_nodes[i] >= n {
                return false;
            }
            i = i + 1;
        }
        let mut i: usize = 0;
        while i < self.unavoidable_parent_edges.len()
            invariant
                i <= self.unavoidable_parent_edges@.len(),
                m == graph_edges(*graph).len(),
                forall|k: int| 0 <= k < i ==> #[trigger] self.unavoidable_parent_edges@[k] < graph_edges(*graph).len(),
            decreases self.unavoidable_parent_edges@.len() - i,
        {
            if self.unavoidable_parent_edges[i] >= m {
                return false;
            }
            i = i + 1;
        }
        let mut i: usize = 0;
        while i < self.dependent_edges_with_inherent_weight.len()
            invariant
                i <= self.dependent_edges_with_inherent_weight@.len(),
                m == graph_edges(*graph).len(),
                forall|k: int|
                    0 <= k < i ==> #[trigger] self.dependent_edges_with_inherent_weight@[k].0 < graph_edges(*graph).len(),
            decreases self.dependent_edges_with_inherent_weight@.len() - i,
        {
            if self.dependent_edges_with_inherent_weight[i].0 >= m {
                return false;
            }
            i = i + 1;
        }
        true
    }
}

/// Sweeping `items` from position `i`: an entry that `keep` rejects is swap-removed (the last
/// entry takes its place and is looked at next). What is left, and the removed entries in the
/// order they were removed.
pub open spec fn swap_sweep<T>(items: Seq<T>, i: nat, keep: spec_fn(T) -> bool) -> (Seq<T>, Seq<T>)
    decreases items.len() - i,
{
    if i >= items.len() {
        (items, Seq::empty())
    } else if keep(items[i as int]) {
        swap_sweep(items, i + 1, keep)
    } else {
        let rest = swap_sweep(items.update(i as int, items.last()).drop_last(), i, keep);
        (rest.0, seq![items[i as int]] + rest.1)
    }
}

/// The items of `ids` in each of the `ranges`, one range after the other.
pub open spec fn gathered<T>(ids: Seq<T>, ranges: Seq<IdRange>) -> Seq<T>
    decreases ranges.len(),
{
    if ranges.len() == 0 {
        Seq::empty()
    } else {
        gathered(ids, ranges.drop_last()) + ranges.last().of(ids)
    }
}

/// `gathered` over one more range.
proof fn lemma_gathered_push<T>(ids: Seq<T>, ranges: Seq<IdRange>, r: IdRange)
    ensures
        gathered(ids, ranges.push(r)) == gathered(ids, ranges) + r.of(ids),
{
    assert(ranges.push(r).drop_last() =~= ranges);
}

/// Appends the items of `src` in `range` to `dst`.
fn push_range(dst: &mut Vec<usize>, src: &Vec<usize>, range: IdRange)
    requires
        range.fits(src@.len()),
    ensures
        final(dst)@ == old(dst)@ + range.of(src@),
{
    let mut k = range.start;
    while k < range.end
        invariant
            range.start <= k <= range.end,
            range.end <= src@.len(),
            dst@ == old(dst)@ + src@.subrange(range.start as int, k as int),
        decreases range.end - k,
    {
        dst.push(src[k]);
        proof {
            assert(src@.subrange(range.start as int, k + 1) =~= src@.subrange(range.start as int, k as int).push(src@[k as int]));
        }
        k = k + 1;
    }
}

/// Whether the node of a free requirement is still outside `tree`.
pub open spec fn node_unreached(tree: SteinerTree) -> spec_fn(FreeRequirementByNode) -> bool {
    |r: FreeRequirementByNode| !bit_at(tree.nodes, r.node_id as int)
}

/// Whether the edge of a free requirement is still outside `tree`.
pub open spec fn edge_unreached(tree: SteinerTree) -> spec_fn(FreeRequirementByEdge) -> bool {
    |r: FreeRequirementByEdge| !bit_at(tree.edges, r.edge_id as int)
}

/// The required node ranges of free requirements by node.
pub open spec fn node_requirement_nodes(rs: Seq<FreeRequirementByNode>) -> Seq<IdRange> {
    rs.map_values(|r: FreeRequirementByNode| r.required_node_ids)
}

/// The required space node ranges of free requirements by node.
pub open spec fn node_requirement_space_nodes(rs: Seq<FreeRequirementByNode>) -> Seq<IdRange> {
    rs.map_values(|r: FreeRequirementByNode| r.required_space_node_ids)
}

/// The required node ranges of free requirements by edge.
pub open spec fn edge_requirement_nodes(rs: Seq<FreeRequirementByEdge>) -> Seq<IdRange> {
    rs.map_values(|r: FreeRequirementByEdge| r.required_node_ids)
}

/// The required space node ranges of free requirements by edge.
pub open spec fn edge_requirement_space_nodes(rs: Seq<FreeRequirementByEdge>) -> Seq<IdRange> {
    rs.map_values(|r: FreeRequirementByEdge| r.required_space_node_ids)
}

/// Whether one of the edges that depend on the group `r` is in `tree`.
pub open spec fn group_in_tree(deps: Seq<(usize, u32)>, tree: SteinerTree, r: RequirementsByEdge) -> bool {
    exists|k: int|
        r.dependent_edge_with_inherent_weight_ids.start <= k < r.dependent_edge_with_inherent_weight_ids.end
            && #[trigger] bit_at(tree.edges, deps[k].0 as int)
}

/// Whether the group `r` needs its weight estimated: none of its dependent edges is in the
/// tree and it requires some node of the Steiner graph.
pub open spec fn group_needs_estimate(deps: Seq<(usize, u32)>, tree: SteinerTree, r: RequirementsByEdge) -> bool {
    !group_in_tree(deps, tree, r) && r.required_node_ids.start < r.required_node_ids.end
}

/// Settling the groups of `items` from position `i`: a group with a dependent edge in the tree
/// is swap-removed (the last group takes its place and is looked at next); the sweep stops at
/// the first group that needs its weight estimated. What is left, where it stopped (`None` at
/// the end), and the removed groups in the order they were removed.
pub open spec fn settle_sweep(items: Seq<RequirementsByEdge>, i: nat, deps: Seq<(usize, u32)>, tree: SteinerTree) -> (
    Seq<RequirementsByEdge>,
    Option<nat>,
    Seq<RequirementsByEdge>,
)
    decreases items.len() - i,
{
    if i >= items.len() {
        (items, None, Seq::empty())
    } else if group_in_tree(deps, tree, items[i as int]) {
        let rest = settle_sweep(items.update(i as int, items.last()).drop_last(), i, deps, tree);
        (rest.0, rest.1, seq![items[i as int]] + rest.2)
    } else if group_needs_estimate(deps, tree, items[i as int]) {
        (items, Some(i), Seq::empty())
    } else {
        settle_sweep(items, i + 1, deps, tree)
    }
}

/// The dependent edge ranges of groups.
pub open spec fn dependent_ranges(rs: Seq<RequirementsByEdge>) -> Seq<IdRange> {
    rs.map_values(|r: RequirementsByEdge| r.dependent_edge_with_inherent_weight_ids)
}

/// The required node ranges of groups.
pub open spec fn group_required_nodes(rs: Seq<RequirementsByEdge>) -> Seq<IdRange> {
    rs.map_values(|r: RequirementsByEdge| r.required_node_ids)
}

/// The required space node ranges of groups.
pub open spec fn group_required_space_nodes(rs: Seq<RequirementsByEdge>) -> Seq<IdRange> {
    rs.map_values(|r: RequirementsByEdge| r.required_space_node_ids)
}

/// The edges `es` once each `(edge, inherent weight)` of `deps` outside the tree (`in_tree`)
/// has been set back to its inherent weight, in order.
pub open spec fn reset_weights(es: Seq<(usize, usize, u32)>, deps: Seq<(usize, u32)>, in_tree: FixedBitSet) -> Seq<(usize, usize, u32)>
    decreases deps.len(),
{
    if deps.len() == 0 {
        es
    } else {
        let prev = reset_weights(es, deps.drop_last(), in_tree);
        let (e, w) = deps.last();
        if !bit_at(in_tree, e as int) && e < prev.len() {
            prev.update(e as int, (prev[e as int].0, prev[e as int].1, w))
        } else {
            prev
        }
    }
}

/// Whether `reset_weights` changes the weight of an edge at some step.
pub open spec fn reset_changes(es: Seq<(usize, usize, u32)>, deps: Seq<(usize, u32)>, in_tree: FixedBitSet) -> bool
    decreases deps.len(),
{
    if deps.len() == 0 {
        false
    } else {
        let prev = reset_weights(es, deps.drop_last(), in_tree);
        let (e, w) = deps.last();
        reset_changes(es, deps.drop_last(), in_tree) || (!bit_at(in_tree, e as int) && e < prev.len()
            && prev[e as int].2 != w)
    }
}

/// The edges `es` once each `(edge, inherent weight)` of `deps` weighs its inherent weight plus
/// `extra`, in order.
pub open spec fn raise_weights(es: Seq<(usize, usize, u32)>, deps: Seq<(usize, u32)>, extra: u32) -> Seq<(usize, usize, u32)>
    decreases deps.len(),
{
    if deps.len() == 0 {
        es
    } else {
        let prev = raise_weights(es, deps.drop_last(), extra);
        let (e, w) = deps.last();
        if e < prev.len() {
            prev.update(e as int, (prev[e as int].0, prev[e as int].1, (w + extra) as u32))
        } else {
            prev
        }
    }
}

/// Whether `raise_weights` changes the weight of an edge at some step.
pub open spec fn raise_changes(es: Seq<(usize, usize, u32)>, deps: Seq<(usize, u32)>, extra: u32) -> bool
    decreases deps.len(),
{
    if deps.len() == 0 {
        false
    } else {
        let prev = raise_weights(es, deps.drop_last(), extra);
        let (e, w) = deps.last();
        raise_changes(es, deps.drop_last(), extra) || (e < prev.len() && prev[e as int].2 != w + extra)
    }
}

/// Law: setting dependent edges back to their inherent weight without any change reported
/// (`reset_changes`) leaves every weight as it was: the fixed point stops on a true fixed point.
pub proof fn law_reset_without_change_is_identity(es: Seq<(usize, usize, u32)>, deps: Seq<(usize, u32)>, in_tree: FixedBitSet)
    requires
        !reset_changes(es, deps, in_tree),
    ensures
        reset_weights(es, deps, in_tree) == es,
    decreases deps.len(),
{
    if deps.len() > 0 {
        law_reset_without_change_is_identity(es, deps.drop_last(), in_tree);
        let (e, w) = deps.last();
        if !bit_at(in_tree, e as int) && e < es.len() {
            assert(es.update(e as int, (es[e as int].0, es[e as int].1, w)) =~= es);
        }
    }
}

/// Law: raising dependent edges to their inherent weight plus an estimate without any change
/// reported (`raise_changes`) leaves every weight as it was.
pub proof fn law_raise_without_change_is_identity(es: Seq<(usize, usize, u32)>, deps: Seq<(usize, u32)>, extra: u32)
    requires
        !raise_changes(es, deps, extra),
    ensures
        raise_weights(es, deps, extra) == es,
    decreases deps.len(),
{
    if deps.len() > 0 {
        law_raise_without_change_is_identity(es, deps.drop_last(), extra);
        let (e, w) = deps.last();
        if e < es.len() {
            assert(es.update(e as int, (es[e as int].0, es[e as int].1, (w + extra) as u32)) =~= es);
        }
    }
}

/// `k` is the last position of `deps` whose edge is `e`.
pub open spec fn last_dependent_at(deps: Seq<(usize, u32)>, e: int, k: int) -> bool {
    &&& 0 <= k < deps.len()
    &&& deps[k].0 == e
    &&& forall|k2: int| k < k2 < deps.len() ==> deps[k2].0 != e
}

/// Law: setting dependent edges back to their inherent weight changes only weights, and only
/// those of dependent edges outside the tree: an edge in the tree keeps its weight, an edge that
/// is not dependent keeps its weight, and a dependent edge outside the tree ends with the
/// inherent weight of its last entry.
pub proof fn law_reset_weights_outside_tree(es: Seq<(usize, usize, u32)>, deps: Seq<(usize, u32)>, in_tree: FixedBitSet)
    ensures
        reset_weights(es, deps, in_tree).len() == es.len(),
        forall|i: int|
            0 <= i < es.len() ==> (#[trigger] reset_weights(es, deps, in_tree)[i]).0 == es[i].0
                && reset_weights(es, deps, in_tree)[i].1 == es[i].1,
        forall|i: int|
            0 <= i < es.len() && bit_at(in_tree, i) ==> #[trigger] reset_weights(es, deps, in_tree)[i] == es[i],
        forall|i: int|
            0 <= i < es.len() && (forall|k: int| 0 <= k < deps.len() ==> deps[k].0 != i) ==> #[trigger] reset_weights(
                es,
                deps,
                in_tree,
            )[i] == es[i],
        forall|i: int, k: int|
            0 <= i < es.len() && !bit_at(in_tree, i) && #[trigger] last_dependent_at(deps, i, k) ==> #[trigger] reset_weights(
                es,
                deps,
                in_tree,
            )[i].2 == deps[k].1,
    decreases deps.len(),
{
    if deps.len() > 0 {
        let d = deps.drop_last();
        law_reset_weights_outside_tree(es, d, in_tree);
        let prev = reset_weights(es, d, in_tree);
        let (e, w) = deps.last();
        let cur = reset_weights(es, deps, in_tree);
        assert forall|i: int|
            0 <= i < es.len() && (forall|k: int| 0 <= k < deps.len() ==> deps[k].0 != i) implies #[trigger] cur[i]
            == es[i] by {
            assert(deps[deps.len() - 1].0 != i);
            assert forall|k: int| 0 <= k < d.len() implies d[k].0 != i by {
                assert(d[k] == deps[k]);
            }
            assert(prev[i] == es[i]);
        }
        assert forall|i: int, k: int|
            0 <= i < es.len() && !bit_at(in_tree, i) && #[trigger] last_dependent_at(deps, i, k) implies #[trigger] cur[i].2
            == deps[k].1 by {
            if k == deps.len() - 1 {
                assert(e == i);
            } else {
                assert(deps[deps.len() - 1].0 != i);
                assert(d[k] == deps[k]);
                assert forall|k2: int| k < k2 < d.len() implies d[k2].0 != i by {
                    assert(d[k2] == deps[k2]);
                }
                assert(last_dependent_at(d, i, k));
            }
        }
    }
}

/// Law: when no edge is listed twice, setting dependent edges back to their inherent weight
/// reports a change exactly when some edge weight differs afterwards.
pub proof fn law_reset_reports_exactly_the_changes(es: Seq<(usize, usize, u32)>, deps: Seq<(usize, u32)>, in_tree: FixedBitSet)
    requires
        forall|a: int, b: int| 0 <= a < b < deps.len() ==> deps[a].0 != deps[b].0,
    ensures
        reset_changes(es, deps, in_tree) <==> exists|i: int|
            0 <= i < es.len() && #[trigger] reset_weights(es, deps, in_tree)[i] != es[i],
    decreases deps.len(),
{
    if deps.len() > 0 {
        let d = deps.drop_last();
        assert forall|a: int, b: int| 0 <= a < b < d.len() implies d[a].0 != d[b].0 by {
            assert(d[a] == deps[a] && d[b] == deps[b]);
        }
        law_reset_reports_exactly_the_changes(es, d, in_tree);
        law_reset_weights_outside_tree(es, d, in_tree);
        law_reset_weights_outside_tree(es, deps, in_tree);
        let prev = reset_weights(es, d, in_tree);
        let cur = reset_weights(es, deps, in_tree);
        let (e, w) = deps.last();
        if e < es.len() {
            assert forall|k: int| 0 <= k < d.len() implies d[k].0 != e as int by {
                assert(d[k] == deps[k]);
            }
            assert(prev[e as int] == es[e as int]);
        }
        if reset_changes(es, d, in_tree) {
            let i = choose|i: int| 0 <= i < es.len() && #[trigger] prev[i] != es[i];
            assert(i != e as int);
            assert(cur[i] == prev[i]);
        } else {
            if !(exists|i: int| 0 <= i < es.len() && #[trigger] prev[i] != es[i]) {
                assert(prev =~= es);
            }
            if !bit_at(in_tree, e as int) && e < prev.len() && prev[e as int].2 != w {
                assert(cur[e as int] != es[e as int]);
            } else {
                assert(cur =~= es);
            }
        }
    }
}

/// `reset_weights` over a concatenation is one reset after the other.
proof fn lemma_reset_concat(es: Seq<(usize, usize, u32)>, a: Seq<(usize, u32)>, b: Seq<(usize, u32)>, in_tree: FixedBitSet)
    ensures
        reset_weights(es, a + b, in_tree) == reset_weights(reset_weights(es, a, in_tree), b, in_tree),
        reset_changes(es, a + b, in_tree) == (reset_changes(es, a, in_tree) || reset_changes(
            reset_weights(es, a, in_tree),
            b,
            in_tree,
        )),
    decreases b.len(),
{
    if b.len() == 0 {
        assert(a + b =~= a);
    } else {
        lemma_reset_concat(es, a, b.drop_last(), in_tree);
        assert((a + b).drop_last() =~= a + b.drop_last());
        assert((a + b).last() == b.last());
    }
}

/// `reset_weights` keeps the number of edges.
proof fn lemma_reset_len(es: Seq<(usize, usize, u32)>, deps: Seq<(usize, u32)>, in_tree: FixedBitSet)
    ensures
        reset_weights(es, deps, in_tree).len() == es.len(),
    decreases deps.len(),
{
    if deps.len() > 0 {
        lemma_reset_len(es, deps.drop_last(), in_tree);
    }
}

/// `raise_weights` keeps the number of edges.
proof fn lemma_raise_len(es: Seq<(usize, usize, u32)>, deps: Seq<(usize, u32)>, extra: u32)
    ensures
        raise_weights(es, deps, extra).len() == es.len(),
    decreases deps.len(),
{
    if deps.len() > 0 {
        lemma_raise_len(es, deps.drop_last(), extra);
    }
}

/// Whether one of the edges depending on the group `r` is in `tree`.
fn group_touches_tree(deps: &Vec<(usize, u32)>, tree: &SteinerTree, r: RequirementsByEdge) -> (b: bool)
    requires
        r.dependent_edge_with_inherent_weight_ids.fits(deps@.len()),
    ensures
        b == group_in_tree(deps@, *tree, r),
{
    let range = r.dependent_edge_with_inherent_weight_ids;
    let mut k = range.start;
    while k < range.end
        invariant
            range == r.dependent_edge_with_inherent_weight_ids,
            range.start <= k <= range.end,
            range.end <= deps@.len(),
            forall|j: int| range.start <= j < k ==> !#[trigger] bit_at(tree.edges, deps@[j].0 as int),
        decreases range.end - k,
    {
        if tree.contains_edge(deps[k].0) {
            return true;
        }
        k = k + 1;
    }
    false
}

/// Sets each dependent edge of `range` outside the tree back to its inherent weight; whether
/// a weight changed.
fn reset_dependent_weights(graph: &mut Graph<(), u32>, deps: &Vec<(usize, u32)>, range: IdRange, tree: &SteinerTree) -> (changed: bool)
    requires
        range.fits(deps@.len()),
        forall|k: int| range.start <= k < range.end ==> #[trigger] deps@[k].0 < graph_edges(*old(graph)).len(),
    ensures
        graph_node_count(*final(graph)) == graph_node_count(*old(graph)),
        graph_edges(*final(graph)) == reset_weights(graph_edges(*old(graph)), range.of(deps@), tree.edges),
        changed == reset_changes(graph_edges(*old(graph)), range.of(deps@), tree.edges),
        forall|i: int|
            0 <= i < graph_edges(*old(graph)).len() && bit_at(tree.edges, i) ==> #[trigger] graph_edges(*final(graph))[i] == graph_edges(*old(graph))[i],
        forall|i: int, k: int|
            0 <= i < graph_edges(*old(graph)).len() && !bit_at(tree.edges, i) && #[trigger] last_dependent_at(range.of(deps@), i, k)
                ==> #[trigger] graph_edges(*final(graph))[i].2 == range.of(deps@)[k].1,
        forall|i: int|
            0 <= i < graph_edges(*old(graph)).len() && (forall|k: int| 0 <= k < range.of(deps@).len() ==> range.of(deps@)[k].0 != i) ==> #[trigger] graph_edges(*final(graph))[i]
                == graph_edges(*old(graph))[i],
{
    let ghost es = graph_edges(*graph);
    let mut changed = false;
    let mut k = range.start;
    while k < range.end
        invariant
            range.start <= k <= range.end,
            range.end <= deps@.len(),
            forall|j: int| range.start <= j < range.end ==> #[trigger] deps@[j].0 < es.len(),
            graph_node_count(*graph) == graph_node_count(*old(graph)),
            es == graph_edges(*old(graph)),
            graph_edges(*graph) == reset_weights(es, deps@.subrange(range.start as int, k as int), tree.edges),
            changed == reset_changes(es, deps@.subrange(range.start as int, k as int), tree.edges),
        decreases range.end - k,
    {
        let (e, w) = deps[k];
        let ghost pre = deps@.subrange(range.start as int, k as int);
        let ghost next = deps@.subrange(range.start as int, k + 1);
        proof {
            assert(next.drop_last() =~= pre);
            assert(next.last() == deps@[k as int]);
            lemma_reset_len(es, pre, tree.edges);
        }
        if !tree.contains_edge(e) {
            let old_weight = replace_weight(graph, e, w);
            changed = changed || old_weight != w;
        }
        k = k + 1;
    }
    proof {
        assert(deps@.subrange(range.start as int, k as int) =~= range.of(deps@));
        law_reset_weights_outside_tree(es, range.of(deps@), tree.edges);
    }
    changed
}

/// Sets each dependent edge of `range` to its inherent weight plus `extra`; whether a weight
/// changed.
fn raise_dependent_weights(graph: &mut Graph<(), u32>, deps: &Vec<(usize, u32)>, range: IdRange, extra: u32) -> (changed: bool)
    requires
        range.fits(deps@.len()),
        forall|k: int| range.start <= k < range.end ==> #[trigger] deps@[k].0 < graph_edges(*old(graph)).len(),
        forall|k: int| range.start <= k < range.end ==> #[trigger] deps@[k].1 + extra <= u32::MAX,
    ensures
        graph_node_count(*final(graph)) == graph_node_count(*old(graph)),
        graph_edges(*final(graph)) == raise_weights(graph_edges(*old(graph)), range.of(deps@), extra),
        changed == raise_changes(graph_edges(*old(graph)), range.of(deps@), extra),
{
    let ghost es = graph_edges(*graph);
    let mut changed = false;
    let mut k = range.start;
    while k < range.end
        invariant
            range.start <= k <= range.end,
            range.end <= deps@.len(),
            forall|j: int| range.start <= j < range.end ==> #[trigger] deps@[j].0 < es.len(),
            forall|j: int| range.start <= j < range.end ==> #[trigger] deps@[j].1 + extra <= u32::MAX,
            graph_node_count(*graph) == graph_node_count(*old(graph)),
            es == graph_edges(*old(graph)),
            graph_edges(*graph) == raise_weights(es, deps@.subrange(range.start as int, k as int), extra),
            changed == raise_changes(es, deps@.subrange(range.start as int, k as int), extra),
        decreases range.end - k,
    {
        let (e, w) = deps[k];
        let ghost pre = deps@.subrange(range.start as int, k as int);
        let ghost next = deps@.subrange(range.start as int, k + 1);
        proof {
            assert(next.drop_last() =~= pre);
            assert(next.last() == deps@[k as int]);
            lemma_raise_len(es, pre, extra);
        }
        let weight = w + extra;
        let old_weight = replace_weight(graph, e, weight);
        changed = changed || old_weight != weight;
        k = k + 1;
    }
    changed
}

/// Whether `e` is one of the unavoidable parent edges of the group `r`.
pub open spec fn is_unavoidable(unavoidable: Seq<usize>, r: RequirementsByEdge, e: usize) -> bool {
    exists|k: int|
        r.unavoidable_parent_edge_ids.start <= k < r.unavoidable_parent_edge_ids.end && #[trigger] unavoidable[k] == e
}

/// Whether `n` is the target of one of the unavoidable parent edges of the group `r`.
pub open spec fn reached_by_unavoidable(g: Graph<(), u32>, unavoidable: Seq<usize>, r: RequirementsByEdge, n: usize) -> bool {
    exists|k: int|
        r.unavoidable_parent_edge_ids.start <= k < r.unavoidable_parent_edge_ids.end && edge_target(
            g,
            #[trigger] unavoidable[k] as int,
        ) == n
}

impl Requirements {
    /// Whether every dependent edge of the group at `index` can weigh its inherent weight plus
    /// `requirements_weight` within `u32`.
    pub fn requirements_weight_fits(&self, index: usize, requirements_weight: u32) -> (r: bool)
        requires
            index < self.requirements_by_edge@.len(),
            self.group_fits(self.requirements_by_edge@[index as int]),
        ensures
            r == (forall|k: int|
                self.requirements_by_edge@[index as int].dependent_edge_with_inherent_weight_ids.start <= k
                    < self.requirements_by_edge@[index as int].dependent_edge_with_inherent_weight_ids.end
                    ==> #[trigger] self.dependent_edges_with_inherent_weight@[k].1 + requirements_weight <= u32::MAX),
    {
        let range = self.requirements_by_edge[index].dependent_edge_with_inherent_weight_ids;
        let mut k = range.start;
        while k < range.end
            invariant
                range == self.requirements_by_edge@[index as int].dependent_edge_with_inherent_weight_ids,
                range.start <= k <= range.end,
                range.end <= self.dependent_edges_with_inherent_weight@.len(),
                forall|j: int| range.start <= j < k ==> #[trigger] self.dependent_edges_with_inherent_weight@[j].1 + requirements_weight <= u32::MAX,
            decreases range.end - k,
        {
            if self.dependent_edges_with_inherent_weight[k].1 > u32::MAX - requirements_weight {
                return false;
            }
            k = k + 1;
        }
        true
    }

    /// Each dependent edge of the group at `index` weighs its inherent weight plus
    /// `requirements_weight`, in order; whether some weight changed.
    pub fn apply_requirements_weight(&self, graph: &mut Graph<(), u32>, index: usize, requirements_weight: u32) -> (changed: bool)
        requires
            self.wf(*old(graph)),
            index < self.requirements_by_edge@.len(),
            forall|k: int|
                self.requirements_by_edge@[index as int].dependent_edge_with_inherent_weight_ids.start <= k
                    < self.requirements_by_edge@[index as int].dependent_edge_with_inherent_weight_ids.end
                    ==> #[trigger] self.dependent_edges_with_inherent_weight@[k].1 + requirements_weight <= u32::MAX,
        ensures
            graph_node_count(*final(graph)) == graph_node_count(*old(graph)),
            graph_edges(*final(graph)).len() == graph_edges(*old(graph)).len(),
            graph_edges(*final(graph)) == raise_weights(
                graph_edges(*old(graph)),
                self.requirements_by_edge@[index as int].dependent_edge_with_inherent_weight_ids.of(
                    self.dependent_edges_with_inherent_weight@,
                ),
                requirements_weight,
            ),
            changed == raise_changes(
                graph_edges(*old(graph)),
                self.requirements_by_edge@[index as int].dependent_edge_with_inherent_weight_ids.of(
                    self.dependent_edges_with_inherent_weight@,
                ),
                requirements_weight,
            ),
    {
        let range = self.requirements_by_edge[index].dependent_edge_with_inherent_weight_ids;
        assert(self.group_fits(self.requirements_by_edge@[index as int]));
        let changed = raise_dependent_weights(graph, &self.dependent_edges_with_inherent_weight, range, requirements_weight);
        proof {
            lemma_raise_len(graph_edges(*old(graph)), range.of(self.dependent_edges_with_inherent_weight@), requirements_weight);
        }
        changed
    }
}

/// Law: sweeping from position `i` keeps the entries before `i` in place, leaves only entries
/// that `keep` accepts from `i` on, removes only entries that `keep` rejects, and loses none:
/// what is left and what was removed make up the original list.
pub proof fn law_swap_sweep<T>(items: Seq<T>, i: nat, keep: spec_fn(T) -> bool)
    requires
        i <= items.len(),
    ensures
        ({
            let (left, removed) = swap_sweep(items, i, keep);
            &&& i <= left.len()
            &&& left.subrange(0, i as int) == items.subrange(0, i as int)
            &&& forall|j: int| i <= j < left.len() ==> keep(#[trigger] left[j])
            &&& forall|j: int| 0 <= j < removed.len() ==> !keep(#[trigger] removed[j])
            &&& left.to_multiset().add(removed.to_multiset()) == items.to_multiset()
        }),
    decreases items.len() - i,
{
    broadcast use vstd::seq_lib::group_to_multiset_ensures, vstd::multiset::group_multiset_axioms;

    if i >= items.len() {
        assert(Seq::<T>::empty().to_multiset() =~= Multiset::empty());
        assert(items.to_multiset().add(Multiset::empty()) =~= items.to_multiset());
    } else if keep(items[i as int]) {
        law_swap_sweep(items, i + 1, keep);
        let left = swap_sweep(items, i + 1, keep).0;
        assert(left.subrange(0, i as int) =~= left.subrange(0, (i + 1) as int).subrange(0, i as int));
        assert(items.subrange(0, i as int) =~= items.subrange(0, (i + 1) as int).subrange(0, i as int));
        assert(left[i as int] == left.subrange(0, (i + 1) as int)[i as int]);
    } else {
        let next = items.update(i as int, items.last()).drop_last();
        law_swap_sweep(next, i, keep);
        let (left, rest) = swap_sweep(next, i, keep);
        let removed = seq![items[i as int]] + rest;
        assert(left.subrange(0, i as int) =~= items.subrange(0, i as int)) by {
            assert(next.subrange(0, i as int) =~= items.subrange(0, i as int));
        }
        assert forall|j: int| 0 <= j < removed.len() implies !keep(#[trigger] removed[j]) by {
            if j > 0 {
                assert(removed[j] == rest[j - 1]);
            }
        }
        let u = items.update(i as int, items.last());
        vstd::seq_lib::to_multiset_update(items, i as int, items.last());
        assert(u.drop_last() =~= u.remove(u.len() - 1));
        assert(u[u.len() - 1] == items.last());
        assert(next.to_multiset() =~= items.to_multiset().insert(items.last()).remove(items[i as int]).remove(items.last()));
        assert(next.to_multiset() =~= items.to_multiset().remove(items[i as int]));
        vstd::seq_lib::lemma_multiset_commutative(seq![items[i as int]], rest);
        assert(seq![items[i as int]].to_multiset() =~= Multiset::singleton(items[i as int])) by {
            assert(seq![items[i as int]] =~= Seq::<T>::empty().push(items[i as int]));
            assert(Seq::<T>::empty().to_multiset() =~= Multiset::empty());
        }
        assert(items.to_multiset().count(items[i as int]) > 0) by {
            assert(items.contains(items[i as int]));
        }
        let x = items[i as int];
        assert(removed.to_multiset() =~= Multiset::singleton(x).add(rest.to_multiset()));
        assert(left.to_multiset().add(rest.to_multiset()) == next.to_multiset());
        assert forall|y: T| #[trigger] left.to_multiset().add(removed.to_multiset()).count(y) == items.to_multiset().count(y) by {
            assert(left.to_multiset().add(rest.to_multiset()).count(y) == next.to_multiset().count(y));
        }
        assert(left.to_multiset().add(removed.to_multiset()) =~= items.to_multiset());
    }
}

/// Law: settling groups from position `i` keeps the groups before `i` in place, removes only
/// groups with a dependent edge in the tree, and loses none. It stops at a group that needs an
/// estimate, every group passed over on the way needing nothing; at the end (`None`) every group
/// from `i` on needs nothing: no dependent edge in the tree, no required node.
pub proof fn law_settle_sweep(items: Seq<RequirementsByEdge>, i: nat, deps: Seq<(usize, u32)>, tree: SteinerTree)
    requires
        i <= items.len(),
    ensures
        ({
            let (left, stop, removed) = settle_sweep(items, i, deps, tree);
            &&& i <= left.len()
            &&& left.subrange(0, i as int) == items.subrange(0, i as int)
            &&& forall|j: int| 0 <= j < removed.len() ==> group_in_tree(deps, tree, #[trigger] removed[j])
            &&& left.to_multiset().add(removed.to_multiset()) == items.to_multiset()
            &&& match stop {
                None => forall|j: int|
                    i <= j < left.len() ==> !group_in_tree(deps, tree, #[trigger] left[j]) && !group_needs_estimate(
                        deps,
                        tree,
                        left[j],
                    ),
                Some(k) => {
                    &&& i <= k < left.len()
                    &&& group_needs_estimate(deps, tree, left[k as int])
                    &&& forall|j: int|
                        i <= j < k ==> !group_in_tree(deps, tree, #[trigger] left[j]) && !group_needs_estimate(
                            deps,
                            tree,
                            left[j],
                        )
                },
            }
        }),
    decreases items.len() - i,
{
    broadcast use vstd::seq_lib::group_to_multiset_ensures, vstd::multiset::group_multiset_axioms;

    if i >= items.len() {
        assert(items.to_multiset().add(Multiset::empty()) =~= items.to_multiset());
    } else if group_in_tree(deps, tree, items[i as int]) {
        let next = items.update(i as int, items.last()).drop_last();
        law_settle_sweep(next, i, deps, tree);
        let (left, stop, rest) = settle_sweep(next, i, deps, tree);
        let removed = seq![items[i as int]] + rest;
        assert(left.subrange(0, i as int) =~= items.subrange(0, i as int)) by {
            assert(next.subrange(0, i as int) =~= items.subrange(0, i as int));
        }
        assert forall|j: int| 0 <= j < removed.len() implies group_in_tree(deps, tree, #[trigger] removed[j]) by {
            if j > 0 {
                assert(removed[j] == rest[j - 1]);
            }
        }
        let u = items.update(i as int, items.last());
        vstd::seq_lib::to_multiset_update(items, i as int, items.last());
        assert(u.drop_last() =~= u.remove(u.len() - 1));
        assert(u[u.len() - 1] == items.last());
        assert(next.to_multiset() =~= items.to_multiset().remove(items[i as int]));
        vstd::seq_lib::lemma_multiset_commutative(seq![items[i as int]], rest);
        assert(seq![items[i as int]].to_multiset() =~= Multiset::singleton(items[i as int])) by {
            assert(seq![items[i as int]] =~= Seq::<RequirementsByEdge>::empty().push(items[i as int]));
        }
        assert(items.to_multiset().count(items[i as int]) > 0) by {
            assert(items.contains(items[i as int]));
        }
        let x = items[i as int];
        assert(removed.to_multiset() =~= Multiset::singleton(x).add(rest.to_multiset()));
        assert forall|y: RequirementsByEdge| #[trigger] left.to_multiset().add(removed.to_multiset()).count(y)
            == items.to_multiset().count(y) by {
            assert(left.to_multiset().add(rest.to_multiset()).count(y) == next.to_multiset().count(y));
        }
        assert(left.to_multiset().add(removed.to_multiset()) =~= items.to_multiset());
    } else if group_needs_estimate(deps, tree, items[i as int]) {
        assert(items.to_multiset().add(Multiset::empty()) =~= items.to_multiset());
    } else {
        law_settle_sweep(items, i + 1, deps, tree);
        let left = settle_sweep(items, i + 1, deps, tree).0;
        assert(left.subrange(0, i as int) =~= left.subrange(0, (i + 1) as int).subrange(0, i as int));
        assert(items.subrange(0, i as int) =~= items.subrange(0, (i + 1) as int).subrange(0, i as int));
        assert(left[i as int] == left.subrange(0, (i + 1) as int)[i as int]);
    }
}

/// Law: `raise_weights` reads back as written when each dependent edge appears once: every
/// dependent edge then weighs its inherent weight plus `extra`, and every other edge is
/// untouched.
pub proof fn law_raise_weights_read_back(es: Seq<(usize, usize, u32)>, deps: Seq<(usize, u32)>, extra: u32)
    requires
        forall|a: int, b: int| 0 <= a < b < deps.len() ==> #[trigger] deps[a].0 != #[trigger] deps[b].0,
        forall|k: int| 0 <= k < deps.len() ==> #[trigger] deps[k].0 < es.len(),
        forall|k: int| 0 <= k < deps.len() ==> #[trigger] deps[k].1 + extra <= u32::MAX,
    ensures
        raise_weights(es, deps, extra).len() == es.len(),
        forall|k: int| 0 <= k < deps.len() ==> #[trigger] raise_weights(es, deps, extra)[deps[k].0 as int] == (
            es[deps[k].0 as int].0,
            es[deps[k].0 as int].1,
            (deps[k].1 + extra) as u32,
        ),
        forall|e: int|
            0 <= e < es.len() && (forall|k: int| 0 <= k < deps.len() ==> #[trigger] deps[k].0 != e) ==> #[trigger] raise_weights(
                es,
                deps,
                extra,
            )[e] == es[e],
    decreases deps.len(),
{
    lemma_raise_len(es, deps, extra);
    if deps.len() > 0 {
        let d = deps.drop_last();
        assert forall|a: int, b: int| 0 <= a < b < d.len() implies #[trigger] d[a].0 != #[trigger] d[b].0 by {
            assert(d[a] == deps[a] && d[b] == deps[b]);
        }
        assert forall|k: int| 0 <= k < d.len() implies #[trigger] d[k].0 < es.len() by {
            assert(d[k] == deps[k]);
        }
        assert forall|k: int| 0 <= k < d.len() implies #[trigger] d[k].1 + extra <= u32::MAX by {
            assert(d[k] == deps[k]);
        }
        law_raise_weights_read_back(es, d, extra);
        let prev = raise_weights(es, d, extra);
        let last = deps.last();
        assert forall|k: int| 0 <= k < deps.len() implies #[trigger] raise_weights(es, deps, extra)[deps[k].0 as int] == (
            es[deps[k].0 as int].0,
            es[deps[k].0 as int].1,
            (deps[k].1 + extra) as u32,
        ) by {
            if k < deps.len() - 1 {
                assert(d[k] == deps[k]);
                assert(deps[k].0 != deps[deps.len() - 1].0);
            } else {
                assert(deps[k] == last);
                if exists|j: int| 0 <= j < d.len() && d[j].0 == last.0 {
                    let j = choose|j: int| 0 <= j < d.len() && d[j].0 == last.0;
                    assert(deps[j].0 != deps[deps.len() - 1].0);
                }
                assert forall|j: int| 0 <= j < d.len() implies #[trigger] d[j].0 != last.0 by {
                    assert(d[j] == deps[j]);
                    assert(deps[j].0 != deps[deps.len() - 1].0);
                }
                assert(prev[last.0 as int] == es[last.0 as int]);
            }
        }
        assert forall|e: int|
            0 <= e < es.len() && (forall|k: int| 0 <= k < deps.len() ==> #[trigger] deps[k].0 != e) implies #[trigger] raise_weights(
                es,
                deps,
                extra,
            )[e] == es[e] by {
            assert forall|k: int| 0 <= k < d.len() implies #[trigger] d[k].0 != e by {
                assert(d[k] == deps[k]);
            }
            assert(deps[deps.len() - 1].0 != e);
        }
    }
}

/// What the fixed point keeps between runs: whether requirement weights turned out to be
/// independent of each other, the terminals found meanwhile, and a scratch tree to estimate
/// requirement weights.
pub struct RequirementAndWeightUpdater {
    pub independent_requirements: Option<bool>,
    pub tmp_new_terminals: Vec<usize>,
    pub tmp_new_space_terminals: Vec<usize>,
    pub tmp_steiner_tree: SteinerTree,
}

impl RequirementAndWeightUpdater {
    /// The updater fits `g` and the new terminals found so far are nodes of `g`.
    pub open spec fn wf(&self, g: Graph<(), u32>) -> bool {
        &&& self.tmp_steiner_tree.wf(g)
        &&& forall|i: int| 0 <= i < self.tmp_new_terminals@.len() ==> #[trigger] self.tmp_new_terminals@[i] < graph_node_count(g)
    }

    /// Nothing known yet, nothing found yet.
    pub fn new(graph: &Graph<(), u32>, root: usize) -> (r: Self)
        requires
            root < graph_node_count(*graph),
        ensures
            r.wf(*graph),
            r.independent_requirements is None,
            r.tmp_new_terminals@.len() == 0,
            r.tmp_new_space_terminals@.len() == 0,
    {
        RequirementAndWeightUpdater {
            independent_requirements: None,
            tmp_new_terminals: Vec::new(),
            tmp_new_space_terminals: Vec::new(),
            tmp_steiner_tree: SteinerTree::new(graph, root, Vec::new()),
        }
    }

    /// Drops the free requirements by node whose node is in `tree`, in the order of
    /// `swap_sweep`, and collects their requirements.
    fn sweep_free_requirements_by_node(&mut self, reqs: &mut Requirements, tree: &SteinerTree, graph: &Graph<(), u32>)
        requires
            old(reqs).wf(*graph),
            old(self).wf(*graph),
        ensures
            final(reqs).wf(*graph),
            final(self).wf(*graph),
            final(self).independent_requirements == old(self).independent_requirements,
            final(self).tmp_steiner_tree == old(self).tmp_steiner_tree,
            final(reqs).free_requirements_by_node@ == swap_sweep(old(reqs).free_requirements_by_node@, 0, node_unreached(*tree)).0,
            final(self).tmp_new_terminals@ == old(self).tmp_new_terminals@ + gathered(
                old(reqs).required_nodes@,
                node_requirement_nodes(swap_sweep(old(reqs).free_requirements_by_node@, 0, node_unreached(*tree)).1),
            ),
            final(self).tmp_new_space_terminals@ == old(self).tmp_new_space_terminals@ + gathered(
                old(reqs).required_space_nodes@,
                node_requirement_space_nodes(swap_sweep(old(reqs).free_requirements_by_node@, 0, node_unreached(*tree)).1),
            ),
            final(reqs).free_requirements_by_edge == old(reqs).free_requirements_by_edge,
            final(reqs).requirements_by_edge == old(reqs).requirements_by_edge,
            final(reqs).required_nodes == old(reqs).required_nodes,
            final(reqs).required_space_nodes == old(reqs).required_space_nodes,
            final(reqs).unavoidable_parent_edges == old(reqs).unavoidable_parent_edges,
            final(reqs).dependent_edges_with_inherent_weight == old(reqs).dependent_edges_with_inherent_weight,
    {
        let ghost keep = node_unreached(*tree);
        let ghost all = swap_sweep(old(reqs).free_requirements_by_node@, 0, keep);
        let ghost mut removed: Seq<FreeRequirementByNode> = Seq::empty();
        let mut i: usize = 0;
        while i < reqs.free_requirements_by_node.len()
            invariant
                reqs.wf(*graph),
                self.wf(*graph),
                self.independent_requirements == old(self).independent_requirements,
                self.tmp_steiner_tree == old(self).tmp_steiner_tree,
                keep == node_unreached(*tree),
                all == swap_sweep(old(reqs).free_requirements_by_node@, 0, keep),
                i <= reqs.free_requirements_by_node@.len(),
                swap_sweep(reqs.free_requirements_by_node@, i as nat, keep).0 == all.0,
                removed + swap_sweep(reqs.free_requirements_by_node@, i as nat, keep).1 == all.1,
                self.tmp_new_terminals@ == old(self).tmp_new_terminals@ + gathered(
                    old(reqs).required_nodes@,
                    node_requirement_nodes(removed),
                ),
                self.tmp_new_space_terminals@ == old(self).tmp_new_space_terminals@ + gathered(
                    old(reqs).required_space_nodes@,
                    node_requirement_space_nodes(removed),
                ),
                reqs.free_requirements_by_edge == old(reqs).free_requirements_by_edge,
                reqs.requirements_by_edge == old(reqs).requirements_by_edge,
                reqs.required_nodes == old(reqs).required_nodes,
                reqs.required_space_nodes == old(reqs).required_space_nodes,
                reqs.unavoidable_parent_edges == old(reqs).unavoidable_parent_edges,
                reqs.dependent_edges_with_inherent_weight == old(reqs).dependent_edges_with_inherent_weight,
            decreases reqs.free_requirements_by_node@.len() - i,
        {
            let r = reqs.free_requirements_by_node[i];
            if tree.contains_node(r.node_id) {
                let ghost before = reqs.free_requirements_by_node@;
                push_range(&mut self.tmp_new_terminals, &reqs.required_nodes, r.required_node_ids);
                push_range(&mut self.tmp_new_space_terminals, &reqs.required_space_nodes, r.required_space_node_ids);
                reqs.free_requirements_by_node.swap_remove(i);
                proof {
                    assert(!keep(r));
                    assert(swap_sweep(before, i as nat, keep).1 == seq![r] + swap_sweep(reqs.free_requirements_by_node@, i as nat, keep).1);
                    assert(removed.push(r) + swap_sweep(reqs.free_requirements_by_node@, i as nat, keep).1
                        =~= removed + swap_sweep(before, i as nat, keep).1);
                    assert(node_requirement_nodes(removed.push(r)) =~= node_requirement_nodes(removed).push(r.required_node_ids));
                    assert(node_requirement_space_nodes(removed.push(r)) =~= node_requirement_space_nodes(removed).push(r.required_space_node_ids));
                    lemma_gathered_push(old(reqs).required_nodes@, node_requirement_nodes(removed), r.required_node_ids);
                    lemma_gathered_push(old(reqs).required_space_nodes@, node_requirement_space_nodes(removed), r.required_space_node_ids);
                    removed = removed.push(r);
                    assert forall|k: int| 0 <= k < self.tmp_new_terminals@.len() implies #[trigger] self.tmp_new_terminals@[k] < graph_node_count(*graph) by {
                        let old_len = self.tmp_new_terminals@.len() - (r.required_node_ids.end - r.required_node_ids.start);
                        if k >= old_len {
                            assert(self.tmp_new_terminals@[k] == reqs.required_nodes@[r.required_node_ids.start + (k - old_len)]);
                        }
                    }
                    assert forall|k: int| 0 <= k < reqs.free_requirements_by_node@.len() implies {
                        let q = #[trigger] reqs.free_requirements_by_node@[k];
                        &&& q.node_id < graph_node_count(*graph)
                        &&& reqs.free_ranges_fit(q.required_node_ids, q.required_space_node_ids)
                    } by {
                        if k == i as int {
                            assert(reqs.free_requirements_by_node@[k] == before[before.len() - 1]);
                        } else {
                            assert(reqs.free_requirements_by_node@[k] == before[k]);
                        }
                    }
                }
            } else {
                proof {
                    assert(keep(r));
                }
                i = i + 1;
            }
        }
        proof {
            assert(swap_sweep(reqs.free_requirements_by_node@, i as nat, keep).1 =~= Seq::<FreeRequirementByNode>::empty());
            assert(removed =~= all.1);
        }
    }

    /// Drops the free requirements by edge whose edge is in `tree`, in the order of
    /// `swap_sweep`, and collects their requirements.
    fn sweep_free_requirements_by_edge(&mut self, reqs: &mut Requirements, tree: &SteinerTree, graph: &Graph<(), u32>)
        requires
            old(reqs).wf(*graph),
            old(self).wf(*graph),
        ensures
            final(reqs).wf(*graph),
            final(self).wf(*graph),
            final(self).independent_requirements == old(self).independent_requirements,
            final(self).tmp_steiner_tree == old(self).tmp_steiner_tree,
            final(reqs).free_requirements_by_edge@ == swap_sweep(old(reqs).free_requirements_by_edge@, 0, edge_unreached(*tree)).0,
            final(self).tmp_new_terminals@ == old(self).tmp_new_terminals@ + gathered(
                old(reqs).required_nodes@,
                edge_requirement_nodes(swap_sweep(old(reqs).free_requirements_by_edge@, 0, edge_unreached(*tree)).1),
            ),
            final(self).tmp_new_space_terminals@ == old(self).tmp_new_space_terminals@ + gathered(
                old(reqs).required_space_nodes@,
                edge_requirement_space_nodes(swap_sweep(old(reqs).free_requirements_by_edge@, 0, edge_unreached(*tree)).1),
            ),
            final(reqs).free_requirements_by_node == old(reqs).free_requirements_by_node,
            final(reqs).requirements_by_edge == old(reqs).requirements_by_edge,
            final(reqs).required_nodes == old(reqs).required_nodes,
            final(reqs).required_space_nodes == old(reqs).required_space_nodes,
            final(reqs).unavoidable_parent_edges == old(reqs).unavoidable_parent_edges,
            final(reqs).dependent_edges_with_inherent_weight == old(reqs).dependent_edges_with_inherent_weight,
    {
        let ghost keep = edge_unreached(*tree);
        let ghost all = swap_sweep(old(reqs).free_requirements_by_edge@, 0, keep);
        let ghost mut removed: Seq<FreeRequirementByEdge> = Seq::empty();
        let mut i: usize = 0;
        while i < reqs.free_requirements_by_edge.len()
            invariant
                reqs.wf(*graph),
                self.wf(*graph),
                self.independent_requirements == old(self).independent_requirements,
                self.tmp_steiner_tree == old(self).tmp_steiner_tree,
                keep == edge_unreached(*tree),
                all == swap_sweep(old(reqs).free_requirements_by_edge@, 0, keep),
                i <= reqs.free_requirements_by_edge@.len(),
                swap_sweep(reqs.free_requirements_by_edge@, i as nat, keep).0 == all.0,
                removed + swap_sweep(reqs.free_requirements_by_edge@, i as nat, keep).1 == all.1,
                self.tmp_new_terminals@ == old(self).tmp_new_terminals@ + gathered(
                    old(reqs).required_nodes@,
                    edge_requirement_nodes(removed),
                ),
                self.tmp_new_space_terminals@ == old(self).tmp_new_space_terminals@ + gathered(
                    old(reqs).required_space_nodes@,
                    edge_requirement_space_nodes(removed),
                ),
                reqs.free_requirements_by_node == old(reqs).free_requirements_by_node,
                reqs.requirements_by_edge == old(reqs).requirements_by_edge,
                reqs.required_nodes == old(reqs).required_nodes,
                reqs.required_space_nodes == old(reqs).required_space_nodes,
                reqs.unavoidable_parent_edges == old(reqs).unavoidable_parent_edges,
                reqs.dependent_edges_with_inherent_weight == old(reqs).dependent_edges_with_inherent_weight,
            decreases reqs.free_requirements_by_edge@.len() - i,
        {
            let r = reqs.free_requirements_by_edge[i];
            if tree.contains_edge(r.edge_id) {
                let ghost before = reqs.free_requirements_by_edge@;
                push_range(&mut self.tmp_new_terminals, &reqs.required_nodes, r.required_node_ids);
                push_range(&mut self.tmp_new_space_terminals, &reqs.required_space_nodes, r.required_space_node_ids);
                reqs.free_requirements_by_edge.swap_remove(i);
                proof {
                    assert(!keep(r));
                    assert(swap_sweep(before, i as nat, keep).1 == seq![r] + swap_sweep(reqs.free_requirements_by_edge@, i as nat, keep).1);
                    assert(removed.push(r) + swap_sweep(reqs.free_requirements_by_edge@, i as nat, keep).1
                        =~= removed + swap_sweep(before, i as nat, keep).1);
                    assert(edge_requirement_nodes(removed.push(r)) =~= edge_requirement_nodes(removed).push(r.required_node_ids));
                    assert(edge_requirement_space_nodes(removed.push(r)) =~= edge_requirement_space_nodes(removed).push(r.required_space_node_ids));
                    lemma_gathered_push(old(reqs).required_nodes@, edge_requirement_nodes(removed), r.required_node_ids);
                    lemma_gathered_push(old(reqs).required_space_nodes@, edge_requirement_space_nodes(removed), r.required_space_node_ids);
                    removed = removed.push(r);
                    assert forall|k: int| 0 <= k < self.tmp_new_terminals@.len() implies #[trigger] self.tmp_new_terminals@[k] < graph_node_count(*graph) by {
                        let old_len = self.tmp_new_terminals@.len() - (r.required_node_ids.end - r.required_node_ids.start);
                        if k >= old_len {
                            assert(self.tmp_new_terminals@[k] == reqs.required_nodes@[r.required_node_ids.start + (k - old_len)]);
                        }
                    }
                    assert forall|k: int| 0 <= k < reqs.free_requirements_by_edge@.len() implies {
                        let q = #[trigger] reqs.free_requirements_by_edge@[k];
                        &&& q.edge_id < graph_edges(*graph).len()
                        &&& reqs.free_ranges_fit(q.required_node_ids, q.required_space_node_ids)
                    } by {
                        if k == i as int {
                            assert(reqs.free_requirements_by_edge@[k] == before[before.len() - 1]);
                        } else {
                            assert(reqs.free_requirements_by_edge@[k] == before[k]);
                        }
                    }
                }
            } else {
                proof {
                    assert(keep(r));
                }
                i = i + 1;
            }
        }
        proof {
            assert(swap_sweep(reqs.free_requirements_by_edge@, i as nat, keep).1 =~= Seq::<FreeRequirementByEdge>::empty());
            assert(removed =~= all.1);
        }
    }

    /// Settles the requirement groups from position `start` (see `settle_sweep`): a group
    /// with a dependent edge in `tree` sets its other dependent edges back to their inherent
    /// weight, its requirements become new terminals and it is dropped. Stops at the first group
    /// that needs its weight estimated and returns its position (`None` at the end), with
    /// whether some edge weight changed.
    pub fn settle_requirements(
        &mut self,
        graph: &mut Graph<(), u32>,
        reqs: &mut Requirements,
        tree: &SteinerTree,
        start: usize,
    ) -> (r: (Option<usize>, bool))
        requires
            old(reqs).wf(*old(graph)),
            old(self).wf(*old(graph)),
        ensures
            graph_node_count(*final(graph)) == graph_node_count(*old(graph)),
            graph_edges(*final(graph)).len() == graph_edges(*old(graph)).len(),
            final(reqs).wf(*final(graph)),
            final(self).wf(*final(graph)),
            final(self).independent_requirements == old(self).independent_requirements,
            final(self).tmp_steiner_tree == old(self).tmp_steiner_tree,
            ({
                let sw = settle_sweep(
                    old(reqs).requirements_by_edge@,
                    start as nat,
                    old(reqs).dependent_edges_with_inherent_weight@,
                    *tree,
                );
                &&& final(reqs).requirements_by_edge@ == sw.0
                &&& r.0 is None <==> sw.1 is None
                &&& r.0 matches Some(k) ==> sw.1 == Some(k as nat)
                &&& graph_edges(*final(graph)) == reset_weights(
                    graph_edges(*old(graph)),
                    gathered(old(reqs).dependent_edges_with_inherent_weight@, dependent_ranges(sw.2)),
                    tree.edges,
                )
                &&& r.1 == reset_changes(
                    graph_edges(*old(graph)),
                    gathered(old(reqs).dependent_edges_with_inherent_weight@, dependent_ranges(sw.2)),
                    tree.edges,
                )
                &&& forall|i: int|
                    0 <= i < graph_edges(*old(graph)).len() && bit_at(tree.edges, i) ==> #[trigger] graph_edges(
                        *final(graph),
                    )[i] == graph_edges(*old(graph))[i]
                &&& forall|i: int, k: int|
                    0 <= i < graph_edges(*old(graph)).len() && !bit_at(tree.edges, i) && #[trigger] last_dependent_at(
                        gathered(old(reqs).dependent_edges_with_inherent_weight@, dependent_ranges(sw.2)),
                        i,
                        k,
                    ) ==> #[trigger] graph_edges(*final(graph))[i].2 == gathered(
                        old(reqs).dependent_edges_with_inherent_weight@,
                        dependent_ranges(sw.2),
                    )[k].1
                &&& forall|i: int|
                    0 <= i < graph_edges(*old(graph)).len() && (forall|k: int|
                        0 <= k < gathered(old(reqs).dependent_edges_with_inherent_weight@, dependent_ranges(sw.2)).len()
                            ==> gathered(old(reqs).dependent_edges_with_inherent_weight@, dependent_ranges(sw.2))[k].0
                            != i) ==> #[trigger] graph_edges(*final(graph))[i] == graph_edges(*old(graph))[i]
                &&& final(self).tmp_new_terminals@ == old(self).tmp_new_terminals@ + gathered(
                    old(reqs).required_nodes@,
                    group_required_nodes(sw.2),
                )
                &&& final(self).tmp_new_space_terminals@ == old(self).tmp_new_space_terminals@ + gathered(
                    old(reqs).required_space_nodes@,
                    group_required_space_nodes(sw.2),
                )
            }),
            r.0 matches Some(k) ==> k < final(reqs).requirements_by_edge@.len() && group_needs_estimate(
                old(reqs).dependent_edges_with_inherent_weight@,
                *tree,
                final(reqs).requirements_by_edge@[k as int],
            ),
            final(reqs).free_requirements_by_node == old(reqs).free_requirements_by_node,
            final(reqs).free_requirements_by_edge == old(reqs).free_requirements_by_edge,
            final(reqs).required_nodes == old(reqs).required_nodes,
            final(reqs).required_space_nodes == old(reqs).required_space_nodes,
            final(reqs).unavoidable_parent_edges == old(reqs).unavoidable_parent_edges,
            final(reqs).dependent_edges_with_inherent_weight == old(reqs).dependent_edges_with_inherent_weight,
    {
        let ghost deps = reqs.dependent_edges_with_inherent_weight@;
        let ghost es = graph_edges(*graph);
        let ghost all = settle_sweep(old(reqs).requirements_by_edge@, start as nat, deps, *tree);
        let ghost mut removed: Seq<RequirementsByEdge> = Seq::empty();
        let mut changed = false;
        let mut i = start;
        proof {
            assert(gathered(deps, dependent_ranges(removed)) =~= Seq::<(usize, u32)>::empty());
            assert(gathered(reqs.required_nodes@, group_required_nodes(removed)) =~= Seq::<usize>::empty());
            assert(gathered(reqs.required_space_nodes@, group_required_space_nodes(removed)) =~= Seq::<usize>::empty());
        }
        while i < reqs.requirements_by_edge.len()
            invariant
                deps == reqs.dependent_edges_with_inherent_weight@,
                es == graph_edges(*old(graph)),
                graph_node_count(*graph) == graph_node_count(*old(graph)),
                graph_edges(*graph).len() == es.len(),
                reqs.wf(*graph),
                self.wf(*graph),
                self.independent_requirements == old(self).independent_requirements,
                self.tmp_steiner_tree == old(self).tmp_steiner_tree,
                all == settle_sweep(old(reqs).requirements_by_edge@, start as nat, deps, *tree),
                settle_sweep(reqs.requirements_by_edge@, i as nat, deps, *tree).0 == all.0,
                settle_sweep(reqs.requirements_by_edge@, i as nat, deps, *tree).1 == all.1,
                removed + settle_sweep(reqs.requirements_by_edge@, i as nat, deps, *tree).2 == all.2,
                graph_edges(*graph) == reset_weights(es, gathered(deps, dependent_ranges(removed)), tree.edges),
                changed == reset_changes(es, gathered(deps, dependent_ranges(removed)), tree.edges),
                self.tmp_new_terminals@ == old(self).tmp_new_terminals@ + gathered(
                    old(reqs).required_nodes@,
                    group_required_nodes(removed),
                ),
                self.tmp_new_space_terminals@ == old(self).tmp_new_space_terminals@ + gathered(
                    old(reqs).required_space_nodes@,
                    group_required_space_nodes(removed),
                ),
                reqs.free_requirements_by_node == old(reqs).free_requirements_by_node,
                reqs.free_requirements_by_edge == old(reqs).free_requirements_by_edge,
                reqs.required_nodes == old(reqs).required_nodes,
                reqs.required_space_nodes == old(reqs).required_space_nodes,
                reqs.unavoidable_parent_edges == old(reqs).unavoidable_parent_edges,
                reqs.dependent_edges_with_inherent_weight == old(reqs).dependent_edges_with_inherent_weight,
            decreases reqs.requirements_by_edge@.len() - i,
        {
            let r = reqs.requirements_by_edge[i];
            assert(reqs.group_fits(r));
            if group_touches_tree(&reqs.dependent_edges_with_inherent_weight, tree, r) {
                let ghost before = reqs.requirements_by_edge@;
                let ghost graph_before = graph_edges(*graph);
                let range = r.dependent_edge_with_inherent_weight_ids;
                let c = reset_dependent_weights(graph, &reqs.dependent_edges_with_inherent_weight, range, tree);
                changed = changed || c;
                push_range(&mut self.tmp_new_terminals, &reqs.required_nodes, r.required_node_ids);
                push_range(&mut self.tmp_new_space_terminals, &reqs.required_space_nodes, r.required_space_node_ids);
                reqs.requirements_by_edge.swap_remove(i);
                proof {
                    assert(settle_sweep(before, i as nat, deps, *tree).2 == seq![r] + settle_sweep(
                        reqs.requirements_by_edge@,
                        i as nat,
                        deps,
                        *tree,
                    ).2);
                    assert(removed.push(r) + settle_sweep(reqs.requirements_by_edge@, i as nat, deps, *tree).2
                        =~= removed + settle_sweep(before, i as nat, deps, *tree).2);
                    assert(dependent_ranges(removed.push(r)) =~= dependent_ranges(removed).push(range));
                    assert(group_required_nodes(removed.push(r)) =~= group_required_nodes(removed).push(r.required_node_ids));
                    assert(group_required_space_nodes(removed.push(r)) =~= group_required_space_nodes(removed).push(
                        r.required_space_node_ids,
                    ));
                    lemma_gathered_push(deps, dependent_ranges(removed), range);
                    lemma_gathered_push(old(reqs).required_nodes@, group_required_nodes(removed), r.required_node_ids);
                    lemma_gathered_push(old(reqs).required_space_nodes@, group_required_space_nodes(removed), r.required_space_node_ids);
                    lemma_reset_concat(es, gathered(deps, dependent_ranges(removed)), range.of(deps), tree.edges);
                    removed = removed.push(r);
                    lemma_reset_len(es, gathered(deps, dependent_ranges(removed)), tree.edges);
                    assert forall|k: int| 0 <= k < self.tmp_new_terminals@.len() implies #[trigger] self.tmp_new_terminals@[k]
                        < graph_node_count(*graph) by {
                        let old_len = self.tmp_new_terminals@.len() - (r.required_node_ids.end - r.required_node_ids.start);
                        if k >= old_len {
                            assert(self.tmp_new_terminals@[k] == reqs.required_nodes@[r.required_node_ids.start + (k - old_len)]);
                        }
                    }
                    assert forall|k: int| 0 <= k < reqs.requirements_by_edge@.len() implies reqs.group_fits(
                        #[trigger] reqs.requirements_by_edge@[k],
                    ) by {
                        if k == i as int {
                            assert(reqs.requirements_by_edge@[k] == before[before.len() - 1]);
                        } else {
                            assert(reqs.requirements_by_edge@[k] == before[k]);
                        }
                    }
                }
            } else if !r.required_node_ids.is_empty() {
                proof {
                    assert(group_needs_estimate(deps, *tree, r));
                    assert(removed =~= all.2);
                    law_reset_weights_outside_tree(es, gathered(deps, dependent_ranges(removed)), tree.edges);
                }
                return (Some(i), changed);
            } else {
                i = i + 1;
            }
        }
        proof {
            assert(removed =~= all.2);
            law_reset_weights_outside_tree(es, gathered(deps, dependent_ranges(removed)), tree.edges);
        }
        (None, changed)
    }

    /// Prepares the scratch tree to estimate what the group at `index` would add: a copy of
    /// `tree` (weight zero) whose terminals are the group's required nodes not in the tree.
    /// Breaks when there is none: the requirements cost nothing. Otherwise the unavoidable
    /// parent edges, and their targets, join the scratch tree, since they must be taken anyway;
    /// growing it then weighs the requirements.
    pub fn prepare_estimate(&mut self, graph: &Graph<(), u32>, reqs: &Requirements, tree: &SteinerTree, index: usize) -> (res:
        ControlFlow<()>)
        requires
            old(self).wf(*graph),
            reqs.wf(*graph),
            tree.wf(*graph),
            index < reqs.requirements_by_edge@.len(),
        ensures
            final(self).wf(*graph),
            final(self).independent_requirements == old(self).independent_requirements,
            final(self).tmp_new_terminals == old(self).tmp_new_terminals,
            final(self).tmp_new_space_terminals == old(self).tmp_new_space_terminals,
            final(self).tmp_steiner_tree.total_weight == 0,
            ({
                let r = reqs.requirements_by_edge@[index as int];
                let required = r.required_node_ids.of(reqs.required_nodes@);
                let t = final(self).tmp_steiner_tree;
                &&& t.terminals@ == fresh_terminals(cleared_bits(graph_node_count(*graph)), bitset_bits(tree.nodes), required)
                &&& (res is Continue <==> t.terminals@.len() > 0)
                &&& forall|e: usize|
                    e < graph_edges(*graph).len() ==> (#[trigger] bit_at(t.edges, e as int) == (bit_at(tree.edges, e as int) || (
                    res is Continue && is_unavoidable(reqs.unavoidable_parent_edges@, r, e))))
                &&& forall|n: usize|
                    n < graph_node_count(*graph) ==> (#[trigger] bit_at(t.nodes, n as int) == (bit_at(tree.nodes, n as int) || (
                    res is Continue && reached_by_unavoidable(*graph, reqs.unavoidable_parent_edges@, r, n))))
            }),
    {
        let r = reqs.requirements_by_edge[index];
        assert(reqs.group_fits(r));
        let mut required: Vec<usize> = Vec::new();
        push_range(&mut required, &reqs.required_nodes, r.required_node_ids);
        assert(required@ =~= r.required_node_ids.of(reqs.required_nodes@));
        proof {
            assert forall|i: int| 0 <= i < required@.len() implies #[trigger] required@[i] < bitset_bits(
                self.tmp_steiner_tree.is_terminal,
            ).len() by {
                assert(required@[i] == reqs.required_nodes@[r.required_node_ids.start + i]);
            }
        }
        let ghost required_view = required@;
        let cloned = self.tmp_steiner_tree.clone_from_with_new_terminals(tree, required);
        if let ControlFlow::Break(()) = cloned {
            proof {
                self.lemma_scratch_tree_wf(*graph, required_view);
            }
            return ControlFlow::Break(());
        }
        proof {
            self.lemma_scratch_tree_wf(*graph, required_view);
        }
        let range = r.unavoidable_parent_edge_ids;
        let ghost copied = self.tmp_steiner_tree;
        let mut k = range.start;
        while k < range.end
            invariant
                range == r.unavoidable_parent_edge_ids,
                range.start <= k <= range.end,
                range.end <= reqs.unavoidable_parent_edges@.len(),
                reqs.wf(*graph),
                self.wf(*graph),
                self.independent_requirements == old(self).independent_requirements,
                self.tmp_new_terminals == old(self).tmp_new_terminals,
                self.tmp_new_space_terminals == old(self).tmp_new_space_terminals,
                self.tmp_steiner_tree.total_weight == 0,
                self.tmp_steiner_tree.terminals == copied.terminals,
                self.tmp_steiner_tree.is_terminal == copied.is_terminal,
                forall|e: usize|
                    e < graph_edges(*graph).len() ==> (#[trigger] bit_at(self.tmp_steiner_tree.edges, e as int) == (bit_at(
                        tree.edges,
                        e as int,
                    ) || exists|j: int| range.start <= j < k && #[trigger] reqs.unavoidable_parent_edges@[j] == e)),
                forall|n: usize|
                    n < graph_node_count(*graph) ==> (#[trigger] bit_at(self.tmp_steiner_tree.nodes, n as int) == (bit_at(
                        tree.nodes,
                        n as int,
                    ) || exists|j: int|
                        range.start <= j < k && edge_target(*graph, #[trigger] reqs.unavoidable_parent_edges@[j] as int) == n)),
            decreases range.end - k,
        {
            let e = reqs.unavoidable_parent_edges[k];
            let ghost pre_edges = self.tmp_steiner_tree.edges;
            let ghost pre_nodes = self.tmp_steiner_tree.nodes;
            bitset_insert(&mut self.tmp_steiner_tree.edges, e);
            let (_, dst) = edge_endpoints(graph, e).unwrap();
            bitset_insert(&mut self.tmp_steiner_tree.nodes, dst);
            proof {
                let unav = reqs.unavoidable_parent_edges@;
                assert forall|x: usize| x < graph_edges(*graph).len() implies (#[trigger] bit_at(self.tmp_steiner_tree.edges, x as int)
                    == (bit_at(tree.edges, x as int) || exists|j: int|
                    range.start <= j < k + 1 && #[trigger] reqs.unavoidable_parent_edges@[j] == x)) by {
                    assert(bit_at(pre_edges, x as int) == (bit_at(tree.edges, x as int) || exists|j: int|
                        range.start <= j < k && #[trigger] unav[j] == x));
                    if exists|j: int| range.start <= j < k + 1 && #[trigger] unav[j] == x {
                        let j = choose|j: int| range.start <= j < k + 1 && #[trigger] unav[j] == x;
                        if j < k {
                            assert(range.start <= j < k && unav[j] == x);
                        }
                    }
                    if x == e {
                        assert(unav[k as int] == x);
                    }
                }
                assert forall|x: usize| x < graph_node_count(*graph) implies (#[trigger] bit_at(self.tmp_steiner_tree.nodes, x as int)
                    == (bit_at(tree.nodes, x as int) || exists|j: int|
                    range.start <= j < k + 1 && edge_target(*graph, #[trigger] reqs.unavoidable_parent_edges@[j] as int) == x)) by {
                    assert(bit_at(pre_nodes, x as int) == (bit_at(tree.nodes, x as int) || exists|j: int|
                        range.start <= j < k && edge_target(*graph, #[trigger] unav[j] as int) == x));
                    if exists|j: int| range.start <= j < k + 1 && edge_target(*graph, #[trigger] unav[j] as int) == x {
                        let j = choose|j: int| range.start <= j < k + 1 && edge_target(*graph, #[trigger] unav[j] as int) == x;
                        if j < k {
                            assert(range.start <= j < k && edge_target(*graph, unav[j] as int) == x);
                        }
                    }
                    if x == dst {
                        assert(edge_target(*graph, unav[k as int] as int) == x);
                    }
                }
            }
            k = k + 1;
        }
        ControlFlow::Continue(())
    }

    /// The scratch tree right after `clone_from_with_new_terminals` is well formed.
    proof fn lemma_scratch_tree_wf(&self, g: Graph<(), u32>, required: Seq<usize>)
        requires
            self.tmp_steiner_tree.terminals@ == fresh_terminals(
                cleared_bits(bitset_bits(self.tmp_steiner_tree.is_terminal).len()),
                bitset_bits(self.tmp_steiner_tree.nodes),
                required,
            ),
            bitset_bits(self.tmp_steiner_tree.is_terminal).len() == graph_node_count(g),
            bitset_bits(self.tmp_steiner_tree.nodes).len() == graph_node_count(g),
            bitset_bits(self.tmp_steiner_tree.edges).len() == graph_edges(g).len(),
            forall|k: usize|
                k < bitset_bits(self.tmp_steiner_tree.is_terminal).len() ==> (bitset_bits(
                    self.tmp_steiner_tree.is_terminal,
                )[k as int] == required.contains(k)),
            forall|i: int| 0 <= i < required.len() ==> #[trigger] required[i] < graph_node_count(g),
            forall|i: int| 0 <= i < self.tmp_new_terminals@.len() ==> #[trigger] self.tmp_new_terminals@[i] < graph_node_count(g),
        ensures
            self.wf(g),
    {
        let t = self.tmp_steiner_tree;
        lemma_fresh_terminals_given(
            cleared_bits(bitset_bits(t.is_terminal).len()),
            bitset_bits(t.nodes),
            required,
        );
        assert forall|i: int| 0 <= i < t.terminals@.len() implies #[trigger] t.terminals@[i] < graph_node_count(g) && bit_at(
            t.is_terminal,
            t.terminals@[i] as int,
        ) by {
            let x = t.terminals@[i];
            assert(required.contains(x));
            let j = choose|j: int| 0 <= j < required.len() && required[j] == x;
            assert(required[j] < graph_node_count(g));
        }
    }

    /// Before the first run: with no requirement group, no weight depends on another, and the
    /// fixed point need not run (true). Otherwise it must (false).
    pub fn initialize(&mut self, reqs: &Requirements) -> (skip: bool)
        ensures
            skip == (reqs.requirements_by_edge@.len() == 0),
            final(self).independent_requirements == if skip {
                Some(true)
            } else {
                old(self).independent_requirements
            },
            final(self).tmp_new_terminals == old(self).tmp_new_terminals,
            final(self).tmp_new_space_terminals == old(self).tmp_new_space_terminals,
            final(self).tmp_steiner_tree == old(self).tmp_steiner_tree,
    {
        if reqs.requirements_by_edge.len() == 0 {
            self.independent_requirements = Some(true);
            true
        } else {
            false
        }
    }

    /// After the `iteration`-th round of weight updates (counting from one): the weights
    /// settled when no weight changed, or when requirements are known to be independent
    /// (`Break`). Past a hundred rounds, requirements depend on each other in a cycle. Otherwise
    /// another round is needed (`Continue`).
    pub fn fixed_point_step(&self, iteration: u32, updated: bool) -> (r: Result<ControlFlow<()>, Error>)
        ensures
            (!updated || self.independent_requirements == Some(true)) ==> r == Ok::<ControlFlow<()>, Error>(
                ControlFlow::Break(()),
            ),
            (updated && self.independent_requirements != Some(true) && iteration > 100) ==> r matches Err(
                Error::RequirementCycleDetected,
            ),
            (updated && self.independent_requirements != Some(true) && iteration <= 100) ==> r == Ok::<
                ControlFlow<()>,
                Error,
            >(ControlFlow::Continue(())),
    {
        let independent = match self.independent_requirements {
            Some(b) => b,
            None => false,
        };
        if !updated || independent {
            Ok(ControlFlow::Break(()))
        } else if iteration > 100 {
            Err(Error::RequirementCycleDetected)
        } else {
            Ok(ControlFlow::Continue(()))
        }
    }

    /// Ends a fixed point that took `iterations` rounds. The first one tells whether requirement
    /// weights are independent: then it took exactly two rounds (one updating, one checking).
    /// The new space terminals are marked in `space_node_is_terminal`, the new terminals join
    /// `tree` (as `SteinerTree::extend_terminals` does, whose outcome is returned), and both
    /// lists are emptied.
    pub fn finish(&mut self, iterations: u32, tree: &mut SteinerTree, space_node_is_terminal: &mut FixedBitSet) -> (r:
        ControlFlow<()>)
        requires
            forall|i: int| 0 <= i < old(self).tmp_new_terminals@.len() ==> #[trigger] old(self).tmp_new_terminals@[i] < bitset_bits(
                old(tree).is_terminal,
            ).len(),
            forall|i: int|
                0 <= i < old(self).tmp_new_space_terminals@.len() ==> #[trigger] old(self).tmp_new_space_terminals@[i]
                    < bitset_bits(*old(space_node_is_terminal)).len(),
        ensures
            final(self).independent_requirements == match old(self).independent_requirements {
                Some(b) => Some(b),
                None => Some(iterations == 2),
            },
            final(self).tmp_new_terminals@.len() == 0,
            final(self).tmp_new_space_terminals@.len() == 0,
            final(self).tmp_steiner_tree == old(self).tmp_steiner_tree,
            bitset_bits(*final(space_node_is_terminal)).len() == bitset_bits(*old(space_node_is_terminal)).len(),
            forall|k: usize|
                k < bitset_bits(*final(space_node_is_terminal)).len() ==> (#[trigger] bit_at(*final(space_node_is_terminal), k as int)
                    == (bit_at(*old(space_node_is_terminal), k as int) || old(self).tmp_new_space_terminals@.contains(k))),
            final(tree).nodes == old(tree).nodes,
            final(tree).edges == old(tree).edges,
            final(tree).total_weight == old(tree).total_weight,
            final(tree).terminals@ == old(tree).terminals@ + fresh_terminals(
                bitset_bits(old(tree).is_terminal),
                bitset_bits(old(tree).nodes),
                old(self).tmp_new_terminals@,
            ),
            r is Continue <==> final(tree).terminals@.len() > old(tree).terminals@.len(),
    {
        if self.independent_requirements.is_none() {
            self.independent_requirements = Some(iterations == 2);
        }
        let mut k: usize = 0;
        while k < self.tmp_new_space_terminals.len()
            invariant
                k <= self.tmp_new_space_terminals@.len(),
                self.tmp_new_space_terminals == old(self).tmp_new_space_terminals,
                forall|i: int|
                    0 <= i < self.tmp_new_space_terminals@.len() ==> #[trigger] self.tmp_new_space_terminals@[i]
                        < bitset_bits(*old(space_node_is_terminal)).len(),
                bitset_bits(*space_node_is_terminal).len() == bitset_bits(*old(space_node_is_terminal)).len(),
                forall|x: usize|
                    x < bitset_bits(*space_node_is_terminal).len() ==> (#[trigger] bit_at(*space_node_is_terminal, x as int)
                        == (bit_at(*old(space_node_is_terminal), x as int) || self.tmp_new_space_terminals@.subrange(
                        0,
                        k as int,
                    ).contains(x))),
            decreases self.tmp_new_space_terminals@.len() - k,
        {
            let id = self.tmp_new_space_terminals[k];
            let ghost pre_bits = *space_node_is_terminal;
            bitset_insert(space_node_is_terminal, id);
            proof {
                let pre = self.tmp_new_space_terminals@.subrange(0, k as int);
                let next = self.tmp_new_space_terminals@.subrange(0, k + 1);
                assert(next =~= pre.push(id));
                assert forall|x: usize| x < bitset_bits(*space_node_is_terminal).len() implies (#[trigger] bit_at(
                    *space_node_is_terminal,
                    x as int,
                ) == (bit_at(*old(space_node_is_terminal), x as int) || next.contains(x))) by {
                    assert(bit_at(pre_bits, x as int) == (bit_at(*old(space_node_is_terminal), x as int) || pre.contains(x)));
                    if pre.contains(x) {
                        let j = choose|j: int| 0 <= j < pre.len() && pre[j] == x;
                        assert(next[j] == x);
                    }
                    if next.contains(x) && x != id {
                        let j = choose|j: int| 0 <= j < next.len() && next[j] == x;
                        assert(pre[j] == x);
                    }
                    if x == id {
                        assert(next[k as int] == x);
                    }
                }
            }
            k = k + 1;
        }
        assert(self.tmp_new_space_terminals@.subrange(0, k as int) =~= self.tmp_new_space_terminals@);
        self.tmp_new_space_terminals.clear();
        let mut new_terminals: Vec<usize> = Vec::new();
        std::mem::swap(&mut new_terminals, &mut self.tmp_new_terminals);
        tree.extend_terminals(new_terminals)
    }

    /// The free requirements whose node (first) or edge (then) is in `tree` become new
    /// terminals and are dropped from their lists, each list swept with `swap_sweep`.
    pub fn apply_free_requirements(&mut self, reqs: &mut Requirements, tree: &SteinerTree, graph: &Graph<(), u32>)
        requires
            old(reqs).wf(*graph),
            old(self).wf(*graph),
        ensures
            final(reqs).wf(*graph),
            final(self).wf(*graph),
            final(self).independent_requirements == old(self).independent_requirements,
            final(self).tmp_steiner_tree == old(self).tmp_steiner_tree,
            final(reqs).free_requirements_by_node@ == swap_sweep(old(reqs).free_requirements_by_node@, 0, node_unreached(*tree)).0,
            final(reqs).free_requirements_by_edge@ == swap_sweep(old(reqs).free_requirements_by_edge@, 0, edge_unreached(*tree)).0,
            final(self).tmp_new_terminals@ == old(self).tmp_new_terminals@ + gathered(
                old(reqs).required_nodes@,
                node_requirement_nodes(swap_sweep(old(reqs).free_requirements_by_node@, 0, node_unreached(*tree)).1),
            ) + gathered(
                old(reqs).required_nodes@,
                edge_requirement_nodes(swap_sweep(old(reqs).free_requirements_by_edge@, 0, edge_unreached(*tree)).1),
            ),
            final(self).tmp_new_space_terminals@ == old(self).tmp_new_space_terminals@ + gathered(
                old(reqs).required_space_nodes@,
                node_requirement_space_nodes(swap_sweep(old(reqs).free_requirements_by_node@, 0, node_unreached(*tree)).1),
            ) + gathered(
                old(reqs).required_space_nodes@,
                edge_requirement_space_nodes(swap_sweep(old(reqs).free_requirements_by_edge@, 0, edge_unreached(*tree)).1),
            ),
            final(reqs).requirements_by_edge == old(reqs).requirements_by_edge,
            final(reqs).required_nodes == old(reqs).required_nodes,
            final(reqs).required_space_nodes == old(reqs).required_space_nodes,
            final(reqs).unavoidable_parent_edges == old(reqs).unavoidable_parent_edges,
            final(reqs).dependent_edges_with_inherent_weight == old(reqs).dependent_edges_with_inherent_weight,
    {
        self.sweep_free_requirements_by_node(reqs, tree, graph);
        self.sweep_free_requirements_by_edge(reqs, tree, graph);
    }
}

} // verus!
