//! The flow bookkeeping of the GreedyFLAC algorithm (Watel & Weisser, "A practical greedy
//! approximation for the directed Steiner tree problem", 2016).
//!
//! Every terminal not yet connected to the tree pours water at one unit per second into its
//! cheapest incoming edge; an edge whose capacity (its weight) is filled saturates and the
//! water then flows into its source. When saturating an edge would let water of one terminal
//! reach a node through two paths (degenerate flow), the edge is only marked and ignored. When
//! the water reaches a node of the tree, the saturated edges it went through join the tree.
//!
//! This module holds every decision of that simulation. The clock itself (when each edge
//! saturates) is kept by the caller, which applies the `HeapUpdate`s returned here and hands
//! back the next edge to saturate.
use crate::bitset::{
    bit_at, bitset_bits, bitset_clear, bitset_tail_clear, bitset_contains, bitset_grow, bitset_insert, bitset_is_disjoint,
    bitset_is_full, bitset_new, bitset_put, bitset_union_with, bitset_with_capacity,
    bitset_zeroes, cleared_bits, count_true, seq_bit,
};
use crate::flac_run::{connected_in_tree, flac_inv, is_fed_candidate, lemma_fresh_run};
use crate::graph::{
    edge_bound, edge_endpoints, graph_edge_order, listed_edges, edge_source, edge_target, edge_weight, edges_directed, graph_edges,
    graph_node_count, node_bound, weight_of,
};
use crate::steiner_tree::SteinerTree;
use core::ops::ControlFlow;
use fixedbitset::FixedBitSet;
use petgraph::Graph;
use vstd::prelude::*;

verus! {

/// An incoming edge of a node that will saturate next: its index, weight and target.
#[derive(Clone, Copy, Debug, PartialEq, Eq)]
pub struct NextSaturatingEdge {
    pub id: usize,
    pub weight: u32,
    pub target: usize,
}

/// The state of the water flow simulation, kept across runs.
pub struct Flow {
    pub saturated_edges: FixedBitSet,
    pub marked_or_saturated_edges: FixedBitSet,
    /// Indices (into the tree's terminals) of the terminals already connected to the tree.
    pub root_feeding_terminals: FixedBitSet,
    /// For each node, the indices of the terminals whose water reaches it.
    pub node_to_feeding_terminals: Vec<FixedBitSet>,
    /// For each node, the rate at which water flows through it.
    pub node_to_flow_rates: Vec<u32>,
}

/// Whether `e` is an edge into `node` that is neither marked nor saturated, with a weight below
/// `u32::MAX` (the starting minimum, which an edge must be strictly below).
pub open spec fn is_candidate_edge(g: Graph<(), u32>, marked: FixedBitSet, node: usize, e: usize) -> bool {
    &&& e < graph_edges(g).len()
    &&& edge_target(g, e as int) == node
    &&& !bit_at(marked, e as int)
    &&& edge_weight(g, e as int) < u32::MAX
}

/// `r` is what `find_next_edge_in_t_minus` may return for `node`: `None` when no candidate
/// edge exists, else a candidate edge of minimum weight.
pub open spec fn is_next_edge(g: Graph<(), u32>, marked: FixedBitSet, node: usize, r: Option<NextSaturatingEdge>) -> bool {
    match r {
        None => forall|e: usize| !is_candidate_edge(g, marked, node, e),
        Some(n) => {
            &&& is_candidate_edge(g, marked, node, n.id)
            &&& n.weight == edge_weight(g, n.id as int)
            &&& n.target == node
            &&& forall|e: usize| is_candidate_edge(g, marked, node, e) ==> n.weight <= edge_weight(g, e as int)
        },
    }
}

/// `id` comes before every other candidate edge of no greater weight in `listed`: the first
/// of the cheapest candidates in that order.
pub open spec fn is_first_cheapest(
    g: Graph<(), u32>,
    marked: FixedBitSet,
    node: usize,
    listed: Seq<usize>,
    id: usize,
) -> bool {
    exists|k: int|
        0 <= k < listed.len() && listed[k] == id && forall|j: int|
            0 <= j < k && is_candidate_edge(g, marked, node, #[trigger] listed[j]) ==> edge_weight(
                g,
                id as int,
            ) < edge_weight(g, listed[j] as int)
}

/// `n` is a terminal whose index is not yet connected to the tree.
pub open spec fn is_waiting_terminal(terminals: Seq<usize>, connected: FixedBitSet, n: usize) -> bool {
    exists|ix: int| 0 <= ix < terminals.len() && !bit_at(connected, ix) && terminals[ix] == n
}

/// The next edge of `node`: its first cheapest candidate edge in the order the graph lists
/// the edges into it (what `Flow::find_next_edge_in_t_minus` returns when `node` has one).
pub open spec fn first_next_edge(g: Graph<(), u32>, marked: FixedBitSet, node: usize) -> NextSaturatingEdge {
    let id = choose|id: usize|
        is_next_edge(
            g,
            marked,
            node,
            Some(NextSaturatingEdge { id, weight: edge_weight(g, id as int), target: node }),
        ) && is_first_cheapest(g, marked, node, listed_edges(g, graph_edge_order(g), node, true), id);
    NextSaturatingEdge { id, weight: edge_weight(g, id as int), target: node }
}

/// Only one candidate edge is the first cheapest one: it is `first_next_edge`.
pub proof fn lemma_first_next_edge(g: Graph<(), u32>, marked: FixedBitSet, node: usize, n: NextSaturatingEdge)
    requires
        is_next_edge(g, marked, node, Some(n)),
        is_first_cheapest(g, marked, node, listed_edges(g, graph_edge_order(g), node, true), n.id),
    ensures
        n == first_next_edge(g, marked, node),
{
    let listed = listed_edges(g, graph_edge_order(g), node, true);
    assert(n == NextSaturatingEdge { id: n.id, weight: edge_weight(g, n.id as int), target: node });
    let m = first_next_edge(g, marked, node);
    let k1 = choose|k: int|
        0 <= k < listed.len() && listed[k] == n.id && forall|j: int|
            0 <= j < k && is_candidate_edge(g, marked, node, #[trigger] listed[j]) ==> edge_weight(g, n.id as int)
                < edge_weight(g, listed[j] as int);
    let k0 = choose|k: int|
        0 <= k < listed.len() && listed[k] == m.id && forall|j: int|
            0 <= j < k && is_candidate_edge(g, marked, node, #[trigger] listed[j]) ==> edge_weight(g, m.id as int)
                < edge_weight(g, listed[j] as int);
    if k0 < k1 {
        assert(is_candidate_edge(g, marked, node, listed[k0]));
    } else if k1 < k0 {
        assert(is_candidate_edge(g, marked, node, listed[k1]));
    }
}

/// The next edges that a run starts with: for each terminal index in order that is not
/// connected and whose node has a candidate edge, that node's `first_next_edge`.
pub open spec fn waiting_next_edges(
    g: Graph<(), u32>,
    marked: FixedBitSet,
    terminals: Seq<usize>,
    connected: FixedBitSet,
    n: nat,
) -> Seq<NextSaturatingEdge>
    decreases n,
{
    if n == 0 {
        Seq::empty()
    } else {
        let prev = waiting_next_edges(g, marked, terminals, connected, (n - 1) as nat);
        let ix = n - 1;
        if !bit_at(connected, ix) && has_candidate(g, marked, terminals[ix]) {
            prev.push(first_next_edge(g, marked, terminals[ix]))
        } else {
            prev
        }
    }
}

/// Terminal indices from `a` up to `b` that are all connected add no next edge.
pub proof fn lemma_waiting_next_edges_skip(
    g: Graph<(), u32>,
    marked: FixedBitSet,
    terminals: Seq<usize>,
    connected: FixedBitSet,
    a: nat,
    b: nat,
)
    requires
        a <= b,
        forall|i: int| a <= i < b ==> #[trigger] bit_at(connected, i),
    ensures
        waiting_next_edges(g, marked, terminals, connected, b) == waiting_next_edges(g, marked, terminals, connected, a),
    decreases b - a,
{
    if a < b {
        lemma_waiting_next_edges_skip(g, marked, terminals, connected, a, (b - 1) as nat);
        assert(bit_at(connected, b - 1));
    }
}

/// The sources of the saturated edges among `es`, in order.
pub open spec fn saturated_sources(g: Graph<(), u32>, sat: FixedBitSet, es: Seq<usize>) -> Seq<usize>
    decreases es.len(),
{
    if es.len() == 0 {
        Seq::empty()
    } else {
        let prev = saturated_sources(g, sat, es.drop_last());
        if bit_at(sat, es.last() as int) {
            prev.push(edge_source(g, es.last() as int))
        } else {
            prev
        }
    }
}

/// The next edges collected by walking up saturated edges from the nodes of `stack`, when the
/// nodes marked in `visited` were walked already: the walk takes the last node of the stack,
/// skips it if it was walked, else collects its `first_next_edge` (when it has a candidate
/// edge) and stacks the sources of its saturated incoming edges in the order the graph lists
/// them.
pub open spec fn walk_up_collect(g: Graph<(), u32>, flow: Flow, stack: Seq<usize>, visited: Seq<bool>) -> Seq<
    NextSaturatingEdge,
>
    decreases visited.len() - count_true(visited), stack.len(),
{
    if stack.len() == 0 {
        Seq::empty()
    } else {
        let x = stack.last();
        let rest = stack.drop_last();
        if x >= visited.len() || visited[x as int] {
            walk_up_collect(g, flow, rest, visited)
        } else {
            proof {
                lemma_count_true_set(visited, x as int);
                lemma_count_true_le_len(visited.update(x as int, true));
            }
            let here = if has_candidate(g, flow.marked_or_saturated_edges, x) {
                seq![first_next_edge(g, flow.marked_or_saturated_edges, x)]
            } else {
                Seq::empty()
            };
            here + walk_up_collect(
                g,
                flow,
                rest + saturated_sources(g, flow.saturated_edges, listed_edges(g, graph_edge_order(g), x, true)),
                visited.update(x as int, true),
            )
        }
    }
}

/// Every edge of `scheduled` is the next edge of a terminal still waiting for the tree.
pub open spec fn schedules_next_edges(
    g: Graph<(), u32>,
    marked: FixedBitSet,
    terminals: Seq<usize>,
    connected: FixedBitSet,
    scheduled: Seq<NextSaturatingEdge>,
) -> bool {
    forall|k: int|
        0 <= k < scheduled.len() ==> is_next_edge(g, marked, #[trigger] scheduled[k].target, Some(scheduled[k]))
            && is_waiting_terminal(terminals, connected, scheduled[k].target)
}

/// Every waiting terminal that has a next edge has it in `scheduled`, flows at rate one and is
/// fed by its own index.
pub open spec fn feeds_waiting_terminals(
    g: Graph<(), u32>,
    flow: Flow,
    terminals: Seq<usize>,
    scheduled: Seq<NextSaturatingEdge>,
) -> bool {
    forall|ix: int|
        0 <= ix < terminals.len() && !bit_at(flow.root_feeding_terminals, ix) && (exists|e: usize|
            is_candidate_edge(g, flow.marked_or_saturated_edges, terminals[ix], e)) ==> {
            &&& exists|k: int| 0 <= k < scheduled.len() && #[trigger] scheduled[k].target == terminals[ix]
            &&& flow.node_to_flow_rates@[terminals[ix] as int] == 1
            &&& bit_at(flow.node_to_feeding_terminals@[terminals[ix] as int], ix)
        }
}

/// Every bit set in a feeding set is the index of a terminal not connected yet, and it is set
/// only at that terminal's own node (as right after `Flow::initialize_terminals`).
pub open spec fn feeds_only_own_terminals(flow: Flow, terminals: Seq<usize>) -> bool {
    forall|m: int, i: int|
        0 <= m < flow.node_to_feeding_terminals@.len() && #[trigger] bit_at(flow.node_to_feeding_terminals@[m], i) ==> {
            &&& 0 <= i < terminals.len()
            &&& !bit_at(flow.root_feeding_terminals, i)
            &&& terminals[i] == m
        }
}

/// The saturated edge `e` goes from `y` into `x`: water at `x` flows up to `y` through it.
pub open spec fn is_up_edge(g: Graph<(), u32>, saturated: FixedBitSet, e: usize, x: usize, y: usize) -> bool {
    &&& e < graph_edges(g).len()
    &&& bit_at(saturated, e as int)
    &&& edge_target(g, e as int) == x
    &&& edge_source(g, e as int) == y
}

/// Some saturated edge goes from `y` into `x`.
pub open spec fn is_up_step(g: Graph<(), u32>, saturated: FixedBitSet, x: usize, y: usize) -> bool {
    exists|e: usize| #[trigger] is_up_edge(g, saturated, e, x, y)
}

/// `p` walks up saturated edges, from `p[0]` to its last node.
pub open spec fn is_up_path(g: Graph<(), u32>, saturated: FixedBitSet, p: Seq<usize>) -> bool {
    &&& p.len() >= 1
    &&& forall|i: int| 0 <= i < p.len() - 1 ==> #[trigger] is_up_step(g, saturated, p[i], p[i + 1])
}

/// Water at `u` reaches `c` through saturated edges (`c == u` included).
pub open spec fn reaches_up(g: Graph<(), u32>, saturated: FixedBitSet, u: usize, c: usize) -> bool {
    exists|p: Seq<usize>| #[trigger] is_up_path(g, saturated, p) && p[0] == u && p.last() == c
}

/// No terminal feeds both.
pub open spec fn feeds_apart(a: FixedBitSet, b: FixedBitSet) -> bool {
    forall|i: int| !(#[trigger] bit_at(a, i) && bit_at(b, i))
}

/// `edges` are the next edges of the nodes that water at `u` reaches, one per node that has
/// one, and none of those nodes is fed by a terminal feeding `v`.
pub open spec fn collects_next_edges_above(g: Graph<(), u32>, flow: Flow, u: usize, v: usize, edges: Seq<NextSaturatingEdge>) -> bool {
    &&& forall|k: int|
        0 <= k < edges.len() ==> is_next_edge(g, flow.marked_or_saturated_edges, #[trigger] edges[k].target, Some(edges[k]))
            && reaches_up(g, flow.saturated_edges, u, edges[k].target) && edges[k].target < graph_node_count(g)
    &&& forall|a: int, b: int| 0 <= a < b < edges.len() ==> edges[a].target != edges[b].target
    &&& forall|c: usize|
        c < graph_node_count(g) && #[trigger] reaches_up(g, flow.saturated_edges, u, c) ==> {
            &&& feeds_apart(flow.node_to_feeding_terminals@[c as int], flow.node_to_feeding_terminals@[v as int])
            &&& (exists|e: usize| is_candidate_edge(g, flow.marked_or_saturated_edges, c, e)) ==> exists|k: int|
                0 <= k < edges.len() && #[trigger] edges[k].target == c
        }
}

/// Going up one more saturated edge.
pub proof fn lemma_reaches_up_extend(g: Graph<(), u32>, sat: FixedBitSet, u: usize, x: usize, e: usize, y: usize)
    requires
        reaches_up(g, sat, u, x),
        is_up_edge(g, sat, e, x, y),
    ensures
        reaches_up(g, sat, u, y),
{
    let p = choose|p: Seq<usize>| #[trigger] is_up_path(g, sat, p) && p[0] == u && p.last() == x;
    let q = p.push(y);
    assert forall|i: int| 0 <= i < q.len() - 1 implies #[trigger] is_up_step(g, sat, q[i], q[i + 1]) by {
        if i < p.len() - 1 {
            assert(q[i] == p[i] && q[i + 1] == p[i + 1]);
            assert(is_up_step(g, sat, p[i], p[i + 1]));
        } else {
            assert(is_up_edge(g, sat, e, q[i], q[i + 1]));
        }
    }
    assert(is_up_path(g, sat, q));
}

/// Starting one saturated edge lower.
pub proof fn lemma_reaches_up_prepend(g: Graph<(), u32>, sat: FixedBitSet, x: usize, e: usize, y: usize, c: usize)
    requires
        is_up_edge(g, sat, e, x, y),
        reaches_up(g, sat, y, c),
    ensures
        reaches_up(g, sat, x, c),
{
    let p = choose|p: Seq<usize>| #[trigger] is_up_path(g, sat, p) && p[0] == y && p.last() == c;
    let q = seq![x] + p;
    assert forall|i: int| 0 <= i < q.len() - 1 implies #[trigger] is_up_step(g, sat, q[i], q[i + 1]) by {
        if i == 0 {
            assert(q[1] == p[0]);
            assert(is_up_edge(g, sat, e, q[0], q[1]));
        } else {
            let j = i - 1;
            assert(q[i] == p[j] && q[i + 1] == p[j + 1]);
            assert(is_up_step(g, sat, p[j], p[j + 1]));
        }
    }
    assert(is_up_path(g, sat, q));
    assert(q.last() == p.last());
}

/// A set of nodes holding `u` and closed under going up saturated edges holds every node water
/// at `u` reaches.
pub proof fn lemma_closed_holds_reached(g: Graph<(), u32>, sat: FixedBitSet, visited: FixedBitSet, u: usize, p: Seq<usize>)
    requires
        is_up_path(g, sat, p),
        p[0] == u,
        bit_at(visited, u as int),
        forall|x: usize, e: usize|
            bit_at(visited, x as int) && #[trigger] is_up_edge(g, sat, e, x, edge_source(g, e as int)) ==> bit_at(
                visited,
                edge_source(g, e as int) as int,
            ),
    ensures
        bit_at(visited, p.last() as int),
    decreases p.len(),
{
    if p.len() > 1 {
        let q = p.drop_last();
        assert forall|i: int| 0 <= i < q.len() - 1 implies #[trigger] is_up_step(g, sat, q[i], q[i + 1]) by {
            assert(q[i] == p[i] && q[i + 1] == p[i + 1]);
            assert(is_up_step(g, sat, p[i], p[i + 1]));
        }
        lemma_closed_holds_reached(g, sat, visited, u, q);
        let i = p.len() - 2;
        assert(is_up_step(g, sat, p[i], p[i + 1]));
        let f = choose|f: usize| #[trigger] is_up_edge(g, sat, f, p[i], p[i + 1]);
        assert(q.last() == p[i]);
        assert(edge_source(g, f as int) == p[i + 1]);
    }
}

/// Setting an unset bit counts one more.
pub proof fn lemma_count_true_set(s: Seq<bool>, i: int)
    requires
        0 <= i < s.len(),
        !s[i],
    ensures
        count_true(s.update(i, true)) == count_true(s) + 1,
    decreases s.len(),
{
    if i < s.len() - 1 {
        assert(s.update(i, true).drop_last() =~= s.drop_last().update(i, true));
        lemma_count_true_set(s.drop_last(), i);
    } else {
        assert(s.update(i, true).drop_last() =~= s.drop_last());
    }
}

/// What the clock must do after a step of the simulation.
#[derive(Clone, Copy, Debug, PartialEq, Eq)]
pub enum HeapUpdate {
    /// Schedule `edge` to saturate `capacity / flow_rate` seconds from now.
    Push { edge: usize, capacity: u32, flow_rate: u32 },
    /// Water now reaches `edge` at `new_flow_rate` instead of `old_flow_rate`: the time left
    /// before it saturates is scaled by `old_flow_rate / new_flow_rate`.
    Rescale { edge: usize, old_flow_rate: u32, new_flow_rate: u32 },
    /// Schedule `edge`, the next incoming edge of the node whose edge of weight
    /// `saturated_weight` just saturated, `(weight - saturated_weight) / flow_rate` seconds from
    /// now.
    PushAfter { edge: usize, weight: u32, saturated_weight: u32, flow_rate: u32 },
}

/// What the simulation does after an edge saturated.
#[derive(Clone, Copy, Debug, PartialEq, Eq)]
pub enum FlacControlFlow {
    /// Go on with the next edge.
    Continue,
    /// Stop this run: water of terminals already in the tree would come back.
    Break,
    /// Water reached the tree: the saturated edges below `subtree_root_node_id` join it
    /// (`Flow::add_subtree`), and the run ends there, one new subtree per run.
    FoundSubtree { subtree_root_node_id: usize },
}

/// `n` has an incoming edge that may still saturate.
pub open spec fn has_candidate(g: Graph<(), u32>, marked: FixedBitSet, n: usize) -> bool {
    exists|e: usize| is_candidate_edge(g, marked, n, e)
}

/// Water at `u` would come back to a node through which water of a terminal feeding `v`
/// already flows.
pub open spec fn is_degenerate(g: Graph<(), u32>, flow: Flow, u: usize, v: usize) -> bool {
    exists|c: usize|
        #![trigger reaches_up(g, flow.saturated_edges, u, c)]
        c < graph_node_count(g) && reaches_up(g, flow.saturated_edges, u, c) && !feeds_apart(
            flow.node_to_feeding_terminals@[c as int],
            flow.node_to_feeding_terminals@[v as int],
        )
}

/// The clock updates for the next edges `collected` when `extra` more water flows through
/// their targets, whose rates were `rates`.
pub open spec fn rate_updates(rates: Seq<u32>, collected: Seq<NextSaturatingEdge>, extra: u32) -> Seq<HeapUpdate>
    decreases collected.len(),
{
    if collected.len() == 0 {
        Seq::empty()
    } else {
        let n = collected.last();
        let old_rate = rates[n.target as int];
        let new_rate = (old_rate + extra) as u32;
        rate_updates(rates, collected.drop_last(), extra).push(
            if old_rate == 0 {
                HeapUpdate::Push { edge: n.id, capacity: n.weight, flow_rate: new_rate }
            } else {
                HeapUpdate::Rescale { edge: n.id, old_flow_rate: old_rate, new_flow_rate: new_rate }
            },
        )
    }
}

/// Some edge of `collected` goes into `n`.
pub open spec fn has_target(collected: Seq<NextSaturatingEdge>, n: usize) -> bool {
    exists|k: int| 0 <= k < collected.len() && #[trigger] collected[k].target == n
}

/// The union of two bit sets fed by distinct terminals counts the bits of both, and at most
/// its length.
pub proof fn lemma_union_count(a: FixedBitSet, b: FixedBitSet, c: FixedBitSet)
    requires
        feeds_apart(a, b),
        bitset_bits(c).len() == if bitset_bits(b).len() > bitset_bits(a).len() {
            bitset_bits(b).len()
        } else {
            bitset_bits(a).len()
        },
        forall|i: int| 0 <= i < bitset_bits(c).len() ==> bitset_bits(c)[i] == (bit_at(a, i) || bit_at(b, i)),
    ensures
        count_true(bitset_bits(c)) == count_true(bitset_bits(a)) + count_true(bitset_bits(b)),
        count_true(bitset_bits(c)) <= bitset_bits(c).len(),
{
    assert forall|i: int| !(seq_bit(bitset_bits(a), i) && seq_bit(bitset_bits(b), i)) by {
        assert(!(bit_at(a, i) && bit_at(b, i)));
    }
    assert forall|i: int| 0 <= i < bitset_bits(c).len() implies bitset_bits(c)[i] == (seq_bit(bitset_bits(a), i) || seq_bit(bitset_bits(b), i)) by {
        assert(bitset_bits(c)[i] == (bit_at(a, i) || bit_at(b, i)));
    }
    lemma_count_true_union(bitset_bits(a), bitset_bits(b), bitset_bits(c));
    lemma_count_true_le_len(bitset_bits(c));
}

/// Appending an edge into a node not targeted yet adds that node to the targets.
pub proof fn lemma_has_target_push(pre: Seq<NextSaturatingEdge>, next: NextSaturatingEdge)
    ensures
        forall|n: usize| #[trigger] has_target(pre.push(next), n) == (has_target(pre, n) || n == next.target),
{
    let post = pre.push(next);
    assert forall|n: usize| #[trigger] has_target(post, n) == (has_target(pre, n) || n == next.target) by {
        if has_target(post, n) && !has_target(pre, n) {
            let j = choose|j: int| 0 <= j < post.len() && #[trigger] post[j].target == n;
            if j < pre.len() {
                assert(pre[j].target == n);
            }
        }
        if has_target(pre, n) {
            let j = choose|j: int| 0 <= j < pre.len() && #[trigger] pre[j].target == n;
            assert(post[j].target == n);
        }
        if n == next.target {
            assert(post[pre.len() as int].target == n);
        }
    }
}

/// No node but `v` flows faster than the number of terminals feeding it, and their feeding
/// sets fit in a `u32`.
pub open spec fn rates_fit(feeding: Seq<FixedBitSet>, rates: Seq<u32>, v: usize) -> bool {
    forall|n: usize|
        n < feeding.len() && n != v ==> {
            &&& bitset_bits(#[trigger] feeding[n as int]).len() <= u32::MAX
            &&& rates[n as int] <= count_true(bitset_bits(feeding[n as int]))
        }
}

/// Each target of `collected` flows `extra` faster; the other nodes keep their rate.
pub open spec fn rates_increased(before: Seq<u32>, after: Seq<u32>, collected: Seq<NextSaturatingEdge>, extra: u32) -> bool {
    &&& after.len() == before.len()
    &&& forall|n: usize|
        n < before.len() ==> #[trigger] after[n as int] == before[n as int] + if has_target(collected, n) {
            extra
        } else {
            0
        }
}

/// Each target of `collected` but `v` is also fed by `added`; the others keep their feeding;
/// the slot of `v` is untouched unless `v` is a target.
pub open spec fn feeding_increased(
    before: Seq<FixedBitSet>,
    after: Seq<FixedBitSet>,
    collected: Seq<NextSaturatingEdge>,
    added: FixedBitSet,
    v: usize,
) -> bool {
    &&& after.len() == before.len()
    &&& (after[v as int] == before[v as int] || has_target(collected, v))
    &&& forall|n: usize, i: int|
        n < before.len() && n != v ==> #[trigger] bit_at(after[n as int], i) == (bit_at(before[n as int], i) || (has_target(
            collected,
            n,
        ) && bit_at(added, i)))
}

/// `tail` is what the clock does for `v` once one of its incoming edges, of weight
/// `saturated_weight`, saturated: schedule its next edge (the first cheapest one), if any, at
/// rate `rate_v`.
pub open spec fn schedules_after(
    g: Graph<(), u32>,
    marked: FixedBitSet,
    v: usize,
    saturated_weight: u32,
    rate_v: u32,
    tail: Seq<HeapUpdate>,
) -> bool {
    exists|next: Option<NextSaturatingEdge>|
        #[trigger] is_next_edge(g, marked, v, next) && (next matches Some(n) ==> is_first_cheapest(
            g,
            marked,
            v,
            listed_edges(g, graph_edge_order(g), v, true),
            n.id,
        )) && tail == match next {
            None => Seq::<HeapUpdate>::empty(),
            Some(n) => seq![
                HeapUpdate::PushAfter {
                    edge: n.id,
                    weight: n.weight,
                    saturated_weight: saturated_weight,
                    flow_rate: rate_v,
                },
            ],
        }
}

/// `head` are the clock updates for spreading the water feeding `v` over the next edges of
/// the nodes above `u`, in the order the walk up from `u` collects them (`walk_up_collect`,
/// which `collects_next_edges_above` characterizes).
pub open spec fn spreads_flow(g: Graph<(), u32>, flow: Flow, u: usize, v: usize, head: Seq<HeapUpdate>) -> bool {
    let collected = walk_up_collect(g, flow, seq![u], cleared_bits(graph_node_count(g)));
    &&& collects_next_edges_above(g, flow, u, v, collected)
    &&& head == rate_updates(flow.node_to_flow_rates@, collected, flow.node_to_flow_rates@[v as int])
}

/// The node `n` is above `u` and will take more water.
pub open spec fn takes_flow(g: Graph<(), u32>, flow: Flow, u: usize, n: usize) -> bool {
    reaches_up(g, flow.saturated_edges, u, n) && has_candidate(g, flow.marked_or_saturated_edges, n)
}

/// `after` is `before` once the water feeding `v` spreads above `u`: every node above `u` that
/// has a next edge is also fed by the terminals feeding `v` and flows `v`'s rate faster.
pub open spec fn flow_spread(g: Graph<(), u32>, before: Flow, after: Flow, u: usize, v: usize) -> bool {
    &&& after.node_to_flow_rates@.len() == before.node_to_flow_rates@.len()
    &&& after.node_to_feeding_terminals@.len() == before.node_to_feeding_terminals@.len()
    &&& forall|n: usize|
        n < before.node_to_flow_rates@.len() ==> #[trigger] after.node_to_flow_rates@[n as int]
            == before.node_to_flow_rates@[n as int] + if takes_flow(g, before, u, n) {
            before.node_to_flow_rates@[v as int]
        } else {
            0
        }
    &&& after.node_to_feeding_terminals@[v as int] == before.node_to_feeding_terminals@[v as int]
    &&& forall|n: usize, i: int|
        n < before.node_to_feeding_terminals@.len() && n != v ==> #[trigger] bit_at(after.node_to_feeding_terminals@[n as int], i)
            == (bit_at(before.node_to_feeding_terminals@[n as int], i) || (takes_flow(g, before, u, n) && bit_at(
            before.node_to_feeding_terminals@[v as int],
            i,
        )))
}

/// What `update_flow_rates` does with `saturating_edge`, from `u` into `v`, when the flow
/// state was `before` and becomes `after`, returning `control` and the clock `updates` (the
/// marking of the edge aside).
pub open spec fn is_saturation_step(
    g: Graph<(), u32>,
    tree: SteinerTree,
    before: Flow,
    after: Flow,
    saturating_edge: usize,
    control: FlacControlFlow,
    updates: Seq<HeapUpdate>,
) -> bool {
    let u = edge_source(g, saturating_edge as int);
    let v = edge_target(g, saturating_edge as int);
    let marked = Flow { marked_or_saturated_edges: after.marked_or_saturated_edges, ..before };
    if bit_at(tree.nodes, v as int) {
        &&& control == FlacControlFlow::Continue
        &&& updates.len() == 0
        &&& after == marked
    } else if bit_at(tree.nodes, u as int) {
        &&& updates.len() == 0
        &&& after.saturated_edges == before.saturated_edges
        &&& after.node_to_feeding_terminals == before.node_to_feeding_terminals
        &&& after.node_to_flow_rates == before.node_to_flow_rates
        &&& if feeds_apart(before.root_feeding_terminals, before.node_to_feeding_terminals@[v as int]) {
            &&& control == (FlacControlFlow::FoundSubtree { subtree_root_node_id: v })
            &&& bitset_bits(after.root_feeding_terminals).len() == if bitset_bits(
                before.node_to_feeding_terminals@[v as int],
            ).len() > bitset_bits(before.root_feeding_terminals).len() {
                bitset_bits(before.node_to_feeding_terminals@[v as int]).len()
            } else {
                bitset_bits(before.root_feeding_terminals).len()
            }
            &&& forall|i: int|
                #[trigger] bit_at(after.root_feeding_terminals, i) == (bit_at(before.root_feeding_terminals, i) || bit_at(
                    before.node_to_feeding_terminals@[v as int],
                    i,
                ))
        } else {
            &&& control == FlacControlFlow::Break
            &&& after.root_feeding_terminals == before.root_feeding_terminals
        }
    } else {
        &&& control == FlacControlFlow::Continue
        &&& after.root_feeding_terminals == before.root_feeding_terminals
        &&& if is_degenerate(g, marked, u, v) {
            &&& after.saturated_edges == before.saturated_edges
            &&& after.node_to_feeding_terminals == before.node_to_feeding_terminals
            &&& after.node_to_flow_rates == before.node_to_flow_rates
            &&& schedules_after(g, after.marked_or_saturated_edges, v, edge_weight(g, saturating_edge as int), after.node_to_flow_rates@[v as int], updates)
        } else {
            &&& bitset_bits(after.saturated_edges) == bitset_bits(before.saturated_edges).update(saturating_edge as int, true)
            &&& flow_spread(g, marked, after, u, v)
            &&& exists|k: int|
                0 <= k <= updates.len() && spreads_flow(g, marked, u, v, #[trigger] updates.subrange(0, k)) && schedules_after(
                    g,
                    after.marked_or_saturated_edges,
                    v,
                    edge_weight(g, saturating_edge as int),
                    after.node_to_flow_rates@[v as int],
                    updates.subrange(k, updates.len() as int),
                )
        }
    }
}

/// The nodes targeted by the collected next edges are exactly the nodes above `u` that take
/// more water.
pub proof fn lemma_targets_take_flow(g: Graph<(), u32>, flow: Flow, u: usize, v: usize, collected: Seq<NextSaturatingEdge>)
    requires
        collects_next_edges_above(g, flow, u, v, collected),
    ensures
        forall|n: usize| n < graph_node_count(g) ==> #[trigger] has_target(collected, n) == takes_flow(g, flow, u, n),
{
    assert forall|n: usize| n < graph_node_count(g) implies #[trigger] has_target(collected, n) == takes_flow(g, flow, u, n) by {
        if has_target(collected, n) {
            let k = choose|k: int| 0 <= k < collected.len() && #[trigger] collected[k].target == n;
            assert(is_next_edge(g, flow.marked_or_saturated_edges, collected[k].target, Some(collected[k])));
            assert(is_candidate_edge(g, flow.marked_or_saturated_edges, n, collected[k].id));
        }
        if takes_flow(g, flow, u, n) {
            assert(reaches_up(g, flow.saturated_edges, u, n));
        }
    }
}

/// The total weight of the edges of `g` among the first `k` that `in_tree` does not hold.
pub open spec fn weight_outside(g: Graph<(), u32>, in_tree: Seq<bool>, k: nat) -> int
    decreases k,
{
    if k == 0 {
        0
    } else {
        weight_outside(g, in_tree, (k - 1) as nat) + if !seq_bit(in_tree, k - 1) {
            edge_weight(g, k - 1) as int
        } else {
            0
        }
    }
}

/// The total weight of the edges of `g` outside the tree.
pub open spec fn tree_weight_left(g: Graph<(), u32>, tree: SteinerTree) -> int {
    weight_outside(g, bitset_bits(tree.edges), graph_edges(g).len())
}

/// Adding an edge to the tree takes its weight out of what is left.
pub proof fn lemma_weight_outside_set(g: Graph<(), u32>, in_tree: Seq<bool>, e: int, k: nat)
    requires
        0 <= e < in_tree.len(),
        !in_tree[e],
    ensures
        weight_outside(g, in_tree.update(e, true), k) == weight_outside(g, in_tree, k) - if e < k {
            edge_weight(g, e) as int
        } else {
            0
        },
    decreases k,
{
    if k > 0 {
        lemma_weight_outside_set(g, in_tree, e, (k - 1) as nat);
    }
}

/// The total weight of the edges among the first `k` that are in the tree.
pub open spec fn weight_inside(g: Graph<(), u32>, in_tree: Seq<bool>, k: nat) -> int
    decreases k,
{
    if k == 0 {
        0
    } else {
        weight_inside(g, in_tree, (k - 1) as nat) + if seq_bit(in_tree, k - 1) {
            edge_weight(g, k - 1) as int
        } else {
            0
        }
    }
}

/// Every edge weighs either inside or outside the tree.
proof fn lemma_weight_split(g: Graph<(), u32>, in_tree: Seq<bool>, k: nat)
    ensures
        weight_inside(g, in_tree, k) + weight_outside(g, in_tree, k) == weight_outside(g, Seq::empty(), k),
    decreases k,
{
    if k > 0 {
        lemma_weight_split(g, in_tree, (k - 1) as nat);
    }
}

/// Law: a tree whose weight plus what is left outside it is the weight of the whole graph (as
/// for a new tree, and kept by `Flow::add_subtree`) weighs exactly its edges.
pub proof fn law_tree_weight_is_its_edges(g: Graph<(), u32>, tree: SteinerTree)
    requires
        tree.total_weight + tree_weight_left(g, tree) == weight_outside(g, Seq::empty(), graph_edges(g).len()),
    ensures
        tree.total_weight == weight_inside(g, bitset_bits(tree.edges), graph_edges(g).len()),
{
    lemma_weight_split(g, bitset_bits(tree.edges), graph_edges(g).len());
}

/// Law: a tree with no edge and no weight, as `SteinerTree::new` makes it, leaves the weight of
/// the whole graph outside.
pub proof fn law_new_tree_weight(g: Graph<(), u32>, tree: SteinerTree)
    requires
        bitset_bits(tree.edges) == cleared_bits(graph_edges(g).len()),
        tree.total_weight == 0,
    ensures
        tree.total_weight + tree_weight_left(g, tree) == weight_outside(g, Seq::empty(), graph_edges(g).len()),
{
    lemma_weight_outside_cleared(g, graph_edges(g).len(), graph_edges(g).len());
}

/// No edge of a cleared tree is inside: what is left is everything.
proof fn lemma_weight_outside_cleared(g: Graph<(), u32>, n: nat, k: nat)
    requires
        k <= n,
    ensures
        weight_outside(g, cleared_bits(n), k) == weight_outside(g, Seq::empty(), k),
    decreases k,
{
    if k > 0 {
        lemma_weight_outside_cleared(g, n, (k - 1) as nat);
    }
}

/// No bit set, no bit counted.
pub proof fn lemma_count_true_none(s: Seq<bool>)
    requires
        forall|i: int| 0 <= i < s.len() ==> !s[i],
    ensures
        count_true(s) == 0,
    decreases s.len(),
{
    if s.len() > 0 {
        lemma_count_true_none(s.drop_last());
    }
}

/// `count_true` of a sequence is at most its length.
pub proof fn lemma_count_true_le_len(s: Seq<bool>)
    ensures
        count_true(s) <= s.len(),
    decreases s.len(),
{
    if s.len() > 0 {
        lemma_count_true_le_len(s.drop_last());
    }
}

/// No bit of a cleared sequence is set.
pub proof fn lemma_count_true_cleared(n: nat)
    ensures
        count_true(cleared_bits(n)) == 0,
    decreases n,
{
    if n > 0 {
        assert(cleared_bits(n).drop_last() =~= cleared_bits((n - 1) as nat));
        lemma_count_true_cleared((n - 1) as nat);
    }
}

/// A sequence with a set bit counts at least one.
pub proof fn lemma_count_true_pos(s: Seq<bool>, i: int)
    requires
        0 <= i < s.len(),
        s[i],
    ensures
        count_true(s) >= 1,
    decreases s.len(),
{
    if i < s.len() - 1 {
        lemma_count_true_pos(s.drop_last(), i);
    }
}

/// Two sequences of one length whose bits pointwise are the disjoint union of two others count
/// as many set bits as those two together.
pub proof fn lemma_count_true_disjoint_union(a: Seq<bool>, b: Seq<bool>, c: Seq<bool>)
    requires
        a.len() == b.len() == c.len(),
        forall|i: int| 0 <= i < c.len() ==> c[i] == (a[i] || b[i]),
        forall|i: int| 0 <= i < c.len() ==> !(a[i] && b[i]),
    ensures
        count_true(c) == count_true(a) + count_true(b),
    decreases c.len(),
{
    if c.len() > 0 {
        lemma_count_true_disjoint_union(a.drop_last(), b.drop_last(), c.drop_last());
    }
}

/// Bits are counted the same whatever unset bits pad them.
pub proof fn lemma_count_true_pad(s: Seq<bool>, n: nat)
    requires
        s.len() <= n,
    ensures
        count_true(Seq::new(n, |i: int| seq_bit(s, i))) == count_true(s),
    decreases n,
{
    let p = Seq::new(n, |i: int| seq_bit(s, i));
    if n == s.len() {
        assert(p =~= s);
    } else {
        lemma_count_true_pad(s, (n - 1) as nat);
        assert(p.drop_last() =~= Seq::new((n - 1) as nat, |i: int| seq_bit(s, i)));
    }
}

/// A union of disjoint bit sets counts the bits of both.
pub proof fn lemma_count_true_union(a: Seq<bool>, b: Seq<bool>, c: Seq<bool>)
    requires
        c.len() >= a.len(),
        c.len() >= b.len(),
        forall|i: int| 0 <= i < c.len() ==> c[i] == (seq_bit(a, i) || seq_bit(b, i)),
        forall|i: int| !(seq_bit(a, i) && seq_bit(b, i)),
    ensures
        count_true(c) == count_true(a) + count_true(b),
{
    let pa = Seq::new(c.len(), |i: int| seq_bit(a, i));
    let pb = Seq::new(c.len(), |i: int| seq_bit(b, i));
    lemma_count_true_pad(a, c.len());
    lemma_count_true_pad(b, c.len());
    assert forall|i: int| 0 <= i < c.len() implies !(pa[i] && pb[i]) by {
        assert(!(seq_bit(a, i) && seq_bit(b, i)));
    }
    lemma_count_true_disjoint_union(pa, pb, c);
}

/// No saturated edge touches the tree: water only saturates edges between nodes outside it.
pub open spec fn saturated_outside_tree(g: Graph<(), u32>, flow: Flow, tree: SteinerTree) -> bool {
    forall|e: usize|
        e < graph_edges(g).len() && #[trigger] bit_at(flow.saturated_edges, e as int) ==> !bit_at(
            tree.nodes,
            edge_source(g, e as int) as int,
        ) && !bit_at(tree.nodes, edge_target(g, e as int) as int)
}

/// Law: with nothing saturated (as right after `Flow::initialize_terminals`), no saturated edge
/// touches the tree.
pub proof fn law_nothing_saturated_touches_tree(g: Graph<(), u32>, flow: Flow, tree: SteinerTree)
    requires
        bitset_bits(flow.saturated_edges) == cleared_bits(graph_edges(g).len()),
    ensures
        saturated_outside_tree(g, flow, tree),
{
}

/// Law: a step of the simulation (`Flow::update_flow_rates`) never saturates an edge touching
/// the tree.
pub proof fn law_saturation_stays_outside_tree(
    g: Graph<(), u32>,
    tree: SteinerTree,
    before: Flow,
    after: Flow,
    saturating_edge: usize,
    control: FlacControlFlow,
    updates: Seq<HeapUpdate>,
)
    requires
        saturated_outside_tree(g, before, tree),
        is_saturation_step(g, tree, before, after, saturating_edge, control, updates),
        saturating_edge < graph_edges(g).len(),
        bitset_bits(before.saturated_edges).len() == graph_edges(g).len(),
    ensures
        saturated_outside_tree(g, after, tree),
{
    let u = edge_source(g, saturating_edge as int);
    let v = edge_target(g, saturating_edge as int);
    let marked = Flow { marked_or_saturated_edges: after.marked_or_saturated_edges, ..before };
    if !bit_at(tree.nodes, v as int) && !bit_at(tree.nodes, u as int) && !is_degenerate(g, marked, u, v) {
        assert forall|e: usize| e < graph_edges(g).len() && #[trigger] bit_at(after.saturated_edges, e as int) implies !bit_at(
            tree.nodes,
            edge_source(g, e as int) as int,
        ) && !bit_at(tree.nodes, edge_target(g, e as int) as int) by {
            if e != saturating_edge {
                assert(bit_at(before.saturated_edges, e as int));
            }
        }
    }
}

/// What `Flow::add_subtree` does to the tree, from `before` to `after`, for the edge `e` that
/// reached it and the saturated edges `sat`: it gains the target of `e` and `e`; it loses
/// nothing; every edge it gains is `e` or a saturated edge out of one of its nodes, into one of
/// its nodes; every node it gains is the target of `e` or of an edge it gains; it gains every
/// saturated edge out of the target of `e` or out of a node it gains; and every node it gains,
/// like the source of every edge it gains but `e`, climbs saturated edges up to the target of
/// `e`.
pub open spec fn adds_subtree(g: Graph<(), u32>, sat: FixedBitSet, before: SteinerTree, after: SteinerTree, e: usize) -> bool {
    let root = edge_target(g, e as int);
    &&& bit_at(after.nodes, root as int)
    &&& bit_at(after.edges, e as int)
    &&& forall|x: int| #[trigger] bit_at(before.nodes, x) ==> bit_at(after.nodes, x)
    &&& forall|f: int| #[trigger] bit_at(before.edges, f) ==> bit_at(after.edges, f)
    &&& forall|f: usize|
        #[trigger] bit_at(after.edges, f as int) && !bit_at(before.edges, f as int) ==> {
            &&& f == e || (bit_at(sat, f as int) && bit_at(after.nodes, edge_source(g, f as int) as int))
            &&& bit_at(after.nodes, edge_target(g, f as int) as int)
        }
    &&& forall|x: usize|
        #[trigger] bit_at(after.nodes, x as int) && !bit_at(before.nodes, x as int) ==> x == root || exists|f: usize|
            bit_at(after.edges, f as int) && !bit_at(before.edges, f as int) && edge_target(g, f as int) == x
    &&& forall|f: usize|
        f < graph_edges(g).len() && bit_at(sat, f as int) && (edge_source(g, f as int) == root || (bit_at(
            after.nodes,
            edge_source(g, f as int) as int,
        ) && !bit_at(before.nodes, edge_source(g, f as int) as int))) ==> #[trigger] bit_at(after.edges, f as int)
    &&& forall|x: usize|
        #[trigger] bit_at(after.nodes, x as int) && !bit_at(before.nodes, x as int) ==> reaches_up(g, sat, x, root)
    &&& forall|f: usize|
        #[trigger] bit_at(after.edges, f as int) && !bit_at(before.edges, f as int) && f != e ==> reaches_up(
            g,
            sat,
            edge_source(g, f as int),
            root,
        )
}

impl Flow {
    /// The flow state fits `g`: one bit per edge, one feeding set and flow rate per node, and
    /// no node flows faster than the number of terminals feeding it.
    pub open spec fn wf(&self, g: Graph<(), u32>) -> bool {
        &&& bitset_bits(self.saturated_edges).len() == graph_edges(g).len()
        &&& bitset_bits(self.marked_or_saturated_edges).len() == graph_edges(g).len()
        &&& self.node_to_feeding_terminals@.len() == graph_node_count(g)
        &&& self.node_to_flow_rates@.len() == graph_node_count(g)
        &&& bitset_bits(self.root_feeding_terminals).len() <= u32::MAX
        &&& bitset_tail_clear(self.root_feeding_terminals)
        &&& forall|n: int|
            0 <= n < graph_node_count(g) ==> {
                &&& bitset_bits(#[trigger] self.node_to_feeding_terminals@[n]).len() <= u32::MAX
                &&& bitset_tail_clear(self.node_to_feeding_terminals@[n])
                &&& self.node_to_flow_rates@[n] <= count_true(bitset_bits(self.node_to_feeding_terminals@[n]))
            }
    }

    /// A fresh flow state for `graph`: nothing saturated, marked or fed.
    pub fn new(graph: &Graph<(), u32>) -> (r: Self)
        ensures
            r.wf(*graph),
            bitset_bits(r.root_feeding_terminals).len() == 0,
    {
        let n = node_bound(graph);
        let e = edge_bound(graph);
        let mut feeding: Vec<FixedBitSet> = Vec::new();
        let mut rates: Vec<u32> = Vec::new();
        let mut i: usize = 0;
        while i < n
            invariant
                i <= n,
                feeding@.len() == i,
                rates@.len() == i,
                forall|k: int| 0 <= k < i ==> bitset_bits(#[trigger] feeding@[k]).len() == 0,
                forall|k: int| 0 <= k < i ==> bitset_tail_clear(#[trigger] feeding@[k]),
                forall|k: int| 0 <= k < i ==> #[trigger] rates@[k] == 0,
            decreases n - i,
        {
            feeding.push(bitset_new());
            rates.push(0);
            i = i + 1;
        }
        let r = Flow {
            saturated_edges: bitset_with_capacity(e),
            marked_or_saturated_edges: bitset_with_capacity(e),
            root_feeding_terminals: bitset_new(),
            node_to_feeding_terminals: feeding,
            node_to_flow_rates: rates,
        };
        assert forall|k: int| 0 <= k < n implies {
            &&& bitset_bits(#[trigger] r.node_to_feeding_terminals@[k]).len() <= u32::MAX
            &&& r.node_to_flow_rates@[k] <= count_true(bitset_bits(r.node_to_feeding_terminals@[k]))
        } by {
            assert(rates@[k] == 0);
        }
        r
    }

    /// Forgets which terminals are connected (the lengths of the bit sets stay).
    pub fn reset(&mut self)
        ensures
            final(self).saturated_edges == old(self).saturated_edges,
            final(self).marked_or_saturated_edges == old(self).marked_or_saturated_edges,
            final(self).node_to_feeding_terminals == old(self).node_to_feeding_terminals,
            final(self).node_to_flow_rates == old(self).node_to_flow_rates,
            bitset_bits(final(self).root_feeding_terminals) == cleared_bits(
                bitset_bits(old(self).root_feeding_terminals).len(),
            ),
            bitset_tail_clear(final(self).root_feeding_terminals),
    {
        bitset_clear(&mut self.root_feeding_terminals);
    }

    /// Whether every terminal of the last run reached the tree.
    pub fn all_terminals_connected(&self) -> (r: bool)
        ensures
            r == (forall|i: int|
                0 <= i < bitset_bits(self.root_feeding_terminals).len() ==> bitset_bits(
                    self.root_feeding_terminals,
                )[i]),
    {
        bitset_is_full(&self.root_feeding_terminals)
    }

    /// How a run ends, given whether it added a subtree to the tree: `Break` when every terminal
    /// is connected, or when the run connected none (a new run, on the same tree, would do the
    /// same); `Continue` when more runs are needed.
    pub fn run_outcome(&self, found_subtree: bool) -> (r: ControlFlow<()>)
        ensures
            r is Break <==> (!found_subtree || forall|i: int|
                0 <= i < bitset_bits(self.root_feeding_terminals).len() ==> bitset_bits(
                    self.root_feeding_terminals,
                )[i]),
    {
        if !found_subtree || self.all_terminals_connected() {
            ControlFlow::Break(())
        } else {
            ControlFlow::Continue(())
        }
    }

    /// Clears what a run leaves behind: nothing saturated or marked, no node fed.
    fn clear_for_run(&mut self, graph: &Graph<(), u32>)
        requires
            old(self).wf(*graph),
        ensures
            final(self).wf(*graph),
            final(self).root_feeding_terminals == old(self).root_feeding_terminals,
            bitset_bits(final(self).saturated_edges) == cleared_bits(graph_edges(*graph).len()),
            bitset_bits(final(self).marked_or_saturated_edges) == cleared_bits(graph_edges(*graph).len()),
            forall|k: int| 0 <= k < graph_node_count(*graph) ==> #[trigger] final(self).node_to_flow_rates@[k] == 0,
            forall|k: int|
                0 <= k < graph_node_count(*graph) ==> bitset_bits(#[trigger] final(self).node_to_feeding_terminals@[k])
                    == cleared_bits(bitset_bits(old(self).node_to_feeding_terminals@[k]).len()),
    {
        bitset_clear(&mut self.saturated_edges);
        bitset_clear(&mut self.marked_or_saturated_edges);
        let n = node_bound(graph);
        let mut i: usize = 0;
        while i < n
            invariant
                i <= n,
                n == graph_node_count(*graph),
                self.node_to_feeding_terminals@.len() == n,
                self.node_to_flow_rates@.len() == n,
                forall|k: int| 0 <= k < i ==> #[trigger] self.node_to_flow_rates@[k] == 0,
                forall|k: int|
                    0 <= k < i ==> bitset_bits(#[trigger] self.node_to_feeding_terminals@[k]) == cleared_bits(
                        bitset_bits(old(self).node_to_feeding_terminals@[k]).len(),
                    ),
                forall|k: int| 0 <= k < i ==> bitset_tail_clear(#[trigger] self.node_to_feeding_terminals@[k]),
                forall|k: int|
                    i <= k < n ==> #[trigger] self.node_to_feeding_terminals@[k] == old(
                        self,
                    ).node_to_feeding_terminals@[k],
                bitset_bits(self.saturated_edges) == cleared_bits(graph_edges(*graph).len()),
                bitset_bits(self.marked_or_saturated_edges) == cleared_bits(graph_edges(*graph).len()),
                self.root_feeding_terminals == old(self).root_feeding_terminals,
            decreases n - i,
        {
            bitset_clear(&mut self.node_to_feeding_terminals[i]);
            self.node_to_flow_rates.set(i, 0);
            i = i + 1;
        }
        proof {
            assert forall|k: int| 0 <= k < n implies {
                &&& bitset_bits(#[trigger] self.node_to_feeding_terminals@[k]).len() <= u32::MAX
                &&& self.node_to_flow_rates@[k] <= count_true(bitset_bits(self.node_to_feeding_terminals@[k]))
            } by {
                lemma_count_true_cleared(bitset_bits(old(self).node_to_feeding_terminals@[k]).len());
            }
        }
    }

    /// Resets the simulation for a new run: nothing saturated, marked or fed. Then every
    /// terminal not yet connected to the tree (an unset bit of `root_feeding_terminals`, grown to
    /// the number of terminals) that has a next edge feeds itself at rate one; those next edges
    /// are returned, in terminal order, to be scheduled at their weight; every other node flows at
    /// rate zero and is fed by no terminal. `None` when every terminal is connected already. The run's invariant (`flac_inv`) then holds.
    pub fn initialize_terminals(&mut self, graph: &Graph<(), u32>, tree: &SteinerTree) -> (r: Option<Vec<NextSaturatingEdge>>)
        requires
            old(self).wf(*graph),
            tree.wf(*graph),
            bitset_bits(old(self).root_feeding_terminals).len() <= tree.terminals@.len(),
            tree.terminals@.len() <= u32::MAX,
        ensures
            final(self).wf(*graph),
            feeds_only_own_terminals(*final(self), tree.terminals@),
            flac_inv(*graph, tree.terminals@, *final(self)),
            connected_in_tree(*tree, *old(self)) ==> connected_in_tree(*tree, *final(self)),
            bitset_bits(final(self).saturated_edges) == cleared_bits(graph_edges(*graph).len()),
            bitset_bits(final(self).marked_or_saturated_edges) == cleared_bits(graph_edges(*graph).len()),
            bitset_bits(final(self).root_feeding_terminals) == bitset_bits(old(self).root_feeding_terminals)
                + cleared_bits(
                (tree.terminals@.len() - bitset_bits(old(self).root_feeding_terminals).len()) as nat,
            ),
            r is Some == exists|ix: int|
                0 <= ix < tree.terminals@.len() && !#[trigger] bit_at(final(self).root_feeding_terminals, ix),
            r matches Some(scheduled) ==> schedules_next_edges(
                *graph,
                final(self).marked_or_saturated_edges,
                tree.terminals@,
                final(self).root_feeding_terminals,
                scheduled@,
            ),
            r matches Some(scheduled) ==> feeds_waiting_terminals(*graph, *final(self), tree.terminals@, scheduled@),
            r matches Some(scheduled) ==> scheduled@ == waiting_next_edges(
                *graph,
                final(self).marked_or_saturated_edges,
                tree.terminals@,
                final(self).root_feeding_terminals,
                tree.terminals@.len(),
            ),
            r matches Some(scheduled) ==> forall|k: int|
                0 <= k < scheduled@.len() ==> is_fed_candidate(*graph, *final(self), #[trigger] scheduled@[k].id),
            forall|n: int|
                0 <= n < graph_node_count(*graph) && final(self).node_to_flow_rates@[n] != 0 ==> exists|ix: int|
                    0 <= ix < tree.terminals@.len() && !bit_at(final(self).root_feeding_terminals, ix)
                        && tree.terminals@[ix] == n,
            forall|n: int|
                0 <= n < graph_node_count(*graph) && final(self).node_to_flow_rates@[n] != 0 ==> has_candidate(
                    *graph,
                    final(self).marked_or_saturated_edges,
                    n as usize,
                ),
            forall|m: int, i: int|
                0 <= m < graph_node_count(*graph) && #[trigger] bit_at(final(self).node_to_feeding_terminals@[m], i)
                    ==> final(self).node_to_flow_rates@[m] != 0,
    {
        self.clear_for_run(graph);
        let n_terminals = tree.terminals.len();
        bitset_grow(&mut self.root_feeding_terminals, n_terminals);
        let ghost connected = self.root_feeding_terminals;
        proof {
            if connected_in_tree(*tree, *old(self)) {
                assert forall|i: int|
                    0 <= i < tree.terminals@.len() && #[trigger] bit_at(self.root_feeding_terminals, i) implies bit_at(
                        tree.nodes,
                        tree.terminals@[i] as int,
                    ) by {
                    assert(bit_at(old(self).root_feeding_terminals, i));
                }
            }
        }
        assert(bitset_bits(connected).len() == n_terminals) by {
            if n_terminals <= bitset_bits(old(self).root_feeding_terminals).len() {
                assert(bitset_bits(old(self).root_feeding_terminals) + cleared_bits(0) =~= bitset_bits(old(self).root_feeding_terminals));
            }
        }
        let zeroes = bitset_zeroes(&self.root_feeding_terminals);
        assert forall|m: int, i: int|
            0 <= m < graph_node_count(*graph) implies !#[trigger] bit_at(self.node_to_feeding_terminals@[m], i) by {
            assert(bitset_bits(self.node_to_feeding_terminals@[m]) == cleared_bits(
                bitset_bits(old(self).node_to_feeding_terminals@[m]).len(),
            ));
        }
        if zeroes.len() == 0 {
            proof {
                if exists|ix: int| 0 <= ix < tree.terminals@.len() && !#[trigger] bit_at(self.root_feeding_terminals, ix) {
                    let ix = choose|ix: int| 0 <= ix < tree.terminals@.len() && !#[trigger] bit_at(self.root_feeding_terminals, ix);
                    assert(zeroes@.contains(ix as usize));
                }
                self.start_run_inv(*graph, tree.terminals@);
            }
            return None;
        }
        assert(!bit_at(self.root_feeding_terminals, zeroes@[0] as int));
        let scheduled = self.feed_terminals(graph, tree, &zeroes);
        proof {
            self.start_run_inv(*graph, tree.terminals@);
            assert forall|k: int| 0 <= k < scheduled@.len() implies is_fed_candidate(*graph, *self, #[trigger] scheduled@[k].id) by {
                let n = scheduled@[k];
                assert(is_next_edge(*graph, self.marked_or_saturated_edges, n.target, Some(n)));
                assert(is_waiting_terminal(tree.terminals@, self.root_feeding_terminals, n.target));
                let ix = choose|ix: int|
                    0 <= ix < tree.terminals@.len() && !bit_at(self.root_feeding_terminals, ix) && tree.terminals@[ix] == n.target;
                assert(is_candidate_edge(*graph, self.marked_or_saturated_edges, tree.terminals@[ix], n.id));
                assert(bit_at(self.node_to_feeding_terminals@[n.target as int], ix));
            }
        }
        Some(scheduled)
    }

    /// The indices from `upto` (one past `zeroes[j - 1]`) up to `zeroes[j]` (or `n` past the
    /// last) are all set, `zeroes` listing the unset indices below `n` in increasing order.
    proof fn lemma_connected_before(&self, zeroes: Seq<usize>, connected: FixedBitSet, n: nat, j: int, upto: nat)
        requires
            0 <= j <= zeroes.len(),
            n <= usize::MAX,
            bitset_bits(connected).len() == n,
            forall|a: int, b: int| 0 <= a < b < zeroes.len() ==> zeroes[a] < zeroes[b],
            forall|a: int| 0 <= a < zeroes.len() ==> zeroes[a] < n,
            forall|k: int| 0 <= k < n && !bitset_bits(connected)[k] ==> #[trigger] zeroes.contains(k as usize),
            j == 0 ==> upto == 0,
            j > 0 ==> upto == zeroes[j - 1] + 1,
        ensures
            forall|i: int|
                upto <= i < (if j < zeroes.len() {
                    zeroes[j] as int
                } else {
                    n as int
                }) ==> #[trigger] bit_at(connected, i),
    {
        assert forall|i: int|
            upto <= i < (if j < zeroes.len() {
                zeroes[j] as int
            } else {
                n as int
            }) implies #[trigger] bit_at(connected, i) by {
            if j < zeroes.len() {
                assert(zeroes[j] < n);
            }
            if !bitset_bits(connected)[i] {
                assert(zeroes.contains(i as usize));
                let a = choose|a: int| 0 <= a < zeroes.len() && zeroes[a] == i as usize;
                if a < j {
                    if a < j - 1 {
                        assert(zeroes[a] < zeroes[j - 1]);
                    }
                } else if a > j {
                    assert(zeroes[j] < zeroes[a]);
                }
            }
        }
    }

    /// With nothing saturated, each terminal that pours feeding its own node when that node can
    /// take water, and nothing else fed, the run's invariant holds.
    proof fn start_run_inv(&self, g: Graph<(), u32>, terminals: Seq<usize>)
        requires
            self.wf(g),
            feeds_only_own_terminals(*self, terminals),
            bitset_bits(self.saturated_edges) == cleared_bits(graph_edges(g).len()),
            forall|ix: int|
                0 <= ix < terminals.len() && !bit_at(self.root_feeding_terminals, ix) && (exists|e: usize|
                    is_candidate_edge(g, self.marked_or_saturated_edges, terminals[ix], e)) ==> bit_at(
                    self.node_to_feeding_terminals@[terminals[ix] as int],
                    ix,
                ),
        ensures
            flac_inv(g, terminals, *self),
    {
        assert forall|e: int| !#[trigger] bit_at(self.saturated_edges, e) by {}
        lemma_fresh_run(g, terminals, *self);
    }

    /// Makes each listed terminal index (of a terminal not connected yet) feed its terminal at
    /// rate one when the terminal has a next edge, and returns those next edges in order.
    fn feed_terminals(&mut self, graph: &Graph<(), u32>, tree: &SteinerTree, zeroes: &Vec<usize>) -> (scheduled: Vec<NextSaturatingEdge>)
        requires
            old(self).wf(*graph),
            tree.wf(*graph),
            tree.terminals@.len() <= u32::MAX,
            bitset_bits(old(self).root_feeding_terminals).len() == tree.terminals@.len(),
            bitset_bits(old(self).saturated_edges) == cleared_bits(graph_edges(*graph).len()),
            bitset_bits(old(self).marked_or_saturated_edges) == cleared_bits(graph_edges(*graph).len()),
            forall|k: int| 0 <= k < graph_node_count(*graph) ==> #[trigger] old(self).node_to_flow_rates@[k] == 0,
            forall|a: int, b: int| 0 <= a < b < zeroes@.len() ==> zeroes@[a] < zeroes@[b],
            forall|a: int|
                0 <= a < zeroes@.len() ==> zeroes@[a] < tree.terminals@.len() && !bitset_bits(old(self).root_feeding_terminals)[zeroes@[a] as int],
            forall|k: int|
                0 <= k < tree.terminals@.len() && !bitset_bits(old(self).root_feeding_terminals)[k] ==> #[trigger] zeroes@.contains(k as usize),
            forall|m: int, i: int|
                0 <= m < graph_node_count(*graph) ==> !#[trigger] bit_at(old(self).node_to_feeding_terminals@[m], i),
        ensures
            final(self).wf(*graph),
            feeds_only_own_terminals(*final(self), tree.terminals@),
            scheduled@ == waiting_next_edges(
                *graph,
                final(self).marked_or_saturated_edges,
                tree.terminals@,
                final(self).root_feeding_terminals,
                tree.terminals@.len(),
            ),
            final(self).root_feeding_terminals == old(self).root_feeding_terminals,
            final(self).saturated_edges == old(self).saturated_edges,
            final(self).marked_or_saturated_edges == old(self).marked_or_saturated_edges,
            schedules_next_edges(
                *graph,
                final(self).marked_or_saturated_edges,
                tree.terminals@,
                final(self).root_feeding_terminals,
                scheduled@,
            ),
            feeds_waiting_terminals(*graph, *final(self), tree.terminals@, scheduled@),
            forall|n: int|
                0 <= n < graph_node_count(*graph) && final(self).node_to_flow_rates@[n] != 0 ==> exists|ix: int|
                    0 <= ix < tree.terminals@.len() && !bit_at(final(self).root_feeding_terminals, ix)
                        && tree.terminals@[ix] == n,
            forall|n: int|
                0 <= n < graph_node_count(*graph) && final(self).node_to_flow_rates@[n] != 0 ==> has_candidate(
                    *graph,
                    final(self).marked_or_saturated_edges,
                    n as usize,
                ),
            forall|m: int, i: int|
                0 <= m < graph_node_count(*graph) && #[trigger] bit_at(final(self).node_to_feeding_terminals@[m], i)
                    ==> final(self).node_to_flow_rates@[m] != 0,
    {
        let n = node_bound(graph);
        let n_terminals = tree.terminals.len();
        let ghost connected = self.root_feeding_terminals;
        let mut scheduled: Vec<NextSaturatingEdge> = Vec::new();
        let ghost mut sources: Seq<int> = Seq::empty();
        let ghost mut upto: nat = 0;
        let mut j: usize = 0;
        while j < zeroes.len()
            invariant
                0 <= j <= zeroes@.len(),
                n == graph_node_count(*graph),
                n_terminals == tree.terminals@.len(),
                n_terminals <= u32::MAX,
                tree.wf(*graph),
                self.root_feeding_terminals == connected,
                connected == old(self).root_feeding_terminals,
                self.saturated_edges == old(self).saturated_edges,
                self.marked_or_saturated_edges == old(self).marked_or_saturated_edges,
                bitset_bits(connected).len() == n_terminals,
                forall|a: int| 0 <= a < zeroes@.len() ==> zeroes@[a] < n_terminals && !bitset_bits(connected)[zeroes@[a] as int],
                bitset_bits(self.marked_or_saturated_edges) == cleared_bits(graph_edges(*graph).len()),
                self.wf(*graph),
                sources.len() == scheduled@.len(),
                forall|k: int|
                    0 <= k < scheduled@.len() ==> 0 <= #[trigger] sources[k] < n_terminals && !bit_at(connected, sources[k])
                        && is_next_edge(
                        *graph,
                        self.marked_or_saturated_edges,
                        tree.terminals@[sources[k]],
                        Some(scheduled@[k]),
                    ),
                forall|a: int|
                    0 <= a < j && (exists|e: usize| is_candidate_edge(*graph, self.marked_or_saturated_edges, tree.terminals@[zeroes@[a] as int], e))
                        ==> {
                        &&& exists|k: int| 0 <= k < scheduled@.len() && #[trigger] scheduled@[k].target == tree.terminals@[zeroes@[a] as int]
                        &&& self.node_to_flow_rates@[tree.terminals@[zeroes@[a] as int] as int] == 1
                        &&& bit_at(self.node_to_feeding_terminals@[tree.terminals@[zeroes@[a] as int] as int], zeroes@[a] as int)
                    },
                forall|m: int|
                    0 <= m < n && self.node_to_flow_rates@[m] != 0 ==> exists|a: int|
                        0 <= a < j && tree.terminals@[#[trigger] zeroes@[a] as int] == m,
                forall|m: int|
                    0 <= m < n && self.node_to_flow_rates@[m] != 0 ==> has_candidate(
                        *graph,
                        self.marked_or_saturated_edges,
                        m as usize,
                    ),
                forall|m: int, i: int|
                    0 <= m < n && #[trigger] bit_at(self.node_to_feeding_terminals@[m], i) ==> self.node_to_flow_rates@[m] != 0,
                feeds_only_own_terminals(*self, tree.terminals@),
                upto <= n_terminals,
                forall|a: int, b: int| 0 <= a < b < zeroes@.len() ==> zeroes@[a] < zeroes@[b],
                forall|k: int|
                    0 <= k < n_terminals && !bitset_bits(connected)[k] ==> #[trigger] zeroes@.contains(k as usize),
                j == 0 ==> upto == 0,
                j > 0 ==> upto == zeroes@[j - 1] + 1,
                scheduled@ == waiting_next_edges(*graph, self.marked_or_saturated_edges, tree.terminals@, connected, upto),
            decreases zeroes@.len() - j,
        {
            let ix = zeroes[j];
            let terminal = tree.terminals[ix];
            assert(!bit_at(connected, ix as int));
            proof {
                self.lemma_connected_before(zeroes@, connected, n_terminals as nat, j as int, upto);
                lemma_waiting_next_edges_skip(*graph, self.marked_or_saturated_edges, tree.terminals@, connected, upto, ix as nat);
            }
            let next = self.find_next_edge_in_t_minus(graph, terminal);
            proof {
                if let Some(edge) = next {
                    lemma_first_next_edge(*graph, self.marked_or_saturated_edges, terminal, edge);
                }
            }
            let ghost old_scheduled = scheduled@;
            let ghost old_feeding = self.node_to_feeding_terminals@;
            let ghost old_rates = self.node_to_flow_rates@;
            let ghost old_self = *self;
            if let Some(edge) = next {
                scheduled.push(edge);
                let feeding = &mut self.node_to_feeding_terminals[terminal];
                bitset_grow(feeding, n_terminals);
                bitset_insert(feeding, ix);
                self.node_to_flow_rates.set(terminal, 1);
                proof {
                    let fb = bitset_bits(self.node_to_feeding_terminals@[terminal as int]);
                    lemma_count_true_pos(fb, ix as int);
                    assert forall|m: int, i: int|
                        0 <= m < self.node_to_feeding_terminals@.len() && #[trigger] bit_at(self.node_to_feeding_terminals@[m], i) implies {
                            &&& 0 <= i < tree.terminals@.len()
                            &&& !bit_at(self.root_feeding_terminals, i)
                            &&& tree.terminals@[i] == m
                        } by {
                        if m != terminal as int {
                            assert(self.node_to_feeding_terminals@[m] == old_feeding[m]);
                            assert(bit_at(old_self.node_to_feeding_terminals@[m], i));
                        } else if i != ix as int {
                            assert(bit_at(old_feeding[m], i));
                            assert(bit_at(old_self.node_to_feeding_terminals@[m], i));
                        }
                    }
                    assert(is_candidate_edge(*graph, self.marked_or_saturated_edges, terminal, edge.id));
                    assert forall|m: int| 0 <= m < n && self.node_to_flow_rates@[m] != 0 implies has_candidate(
                        *graph,
                        self.marked_or_saturated_edges,
                        m as usize,
                    ) by {
                        if m != terminal as int {
                            assert(old_rates[m] != 0);
                        }
                    }
                    assert forall|m: int, i: int|
                        0 <= m < n && #[trigger] bit_at(self.node_to_feeding_terminals@[m], i) implies self.node_to_flow_rates@[m] != 0 by {
                        if m != terminal as int {
                            assert(self.node_to_feeding_terminals@[m] == old_feeding[m]);
                            assert(bit_at(old_feeding[m], i));
                        }
                    }
                    sources = sources.push(ix as int);
                    assert forall|k: int| 0 <= k < scheduled@.len() implies 0 <= #[trigger] sources[k] < n_terminals && !bit_at(connected, sources[k])
                        && is_next_edge(
                        *graph,
                        self.marked_or_saturated_edges,
                        tree.terminals@[sources[k]],
                        Some(scheduled@[k]),
                    ) by {
                        if k < old_scheduled.len() {
                            assert(scheduled@[k] == old_scheduled[k]);
                        }
                    }
                    assert forall|b: int| 0 <= b < n_terminals && #[trigger] bit_at(old_feeding[terminal as int], b) implies bit_at(
                        self.node_to_feeding_terminals@[terminal as int], b) by {}
                    assert forall|a: int|
                        0 <= a < j + 1 && (exists|e: usize| is_candidate_edge(*graph, self.marked_or_saturated_edges, tree.terminals@[zeroes@[a] as int], e))
                        implies {
                        &&& exists|k: int| 0 <= k < scheduled@.len() && #[trigger] scheduled@[k].target == tree.terminals@[zeroes@[a] as int]
                        &&& self.node_to_flow_rates@[tree.terminals@[zeroes@[a] as int] as int] == 1
                        &&& bit_at(self.node_to_feeding_terminals@[tree.terminals@[zeroes@[a] as int] as int], zeroes@[a] as int)
                    } by {
                        let t = tree.terminals@[zeroes@[a] as int];
                        if a < j {
                            let k = choose|k: int| 0 <= k < old_scheduled.len() && #[trigger] old_scheduled[k].target == t;
                            assert(scheduled@[k] == old_scheduled[k]);
                            if t != terminal {
                                assert(self.node_to_feeding_terminals@[t as int] == old_feeding[t as int]);
                            } else {
                                assert(bit_at(old_feeding[terminal as int], zeroes@[a] as int));
                            }
                        } else {
                            assert(scheduled@[old_scheduled.len() as int].target == t);
                        }
                    }
                    assert forall|m: int|
                        0 <= m < n && self.node_to_flow_rates@[m] != 0 implies exists|a: int|
                            0 <= a < j + 1 && tree.terminals@[#[trigger] zeroes@[a] as int] == m by {
                        if m == terminal as int {
                            assert(tree.terminals@[zeroes@[j as int] as int] == m);
                        } else {
                            assert(old_rates[m] != 0);
                        }
                    }
                    assert forall|m: int| 0 <= m < n implies {
                        &&& bitset_bits(#[trigger] self.node_to_feeding_terminals@[m]).len() <= u32::MAX
                        &&& self.node_to_flow_rates@[m] <= count_true(bitset_bits(self.node_to_feeding_terminals@[m]))
                    } by {
                        if m != terminal as int {
                            assert(self.node_to_feeding_terminals@[m] == old_feeding[m]);
                        }
                    }
                }
            } else {
                proof {
                    assert forall|a: int|
                        0 <= a < j + 1 && (exists|e: usize| is_candidate_edge(*graph, self.marked_or_saturated_edges, tree.terminals@[zeroes@[a] as int], e))
                        implies {
                        &&& exists|k: int| 0 <= k < scheduled@.len() && #[trigger] scheduled@[k].target == tree.terminals@[zeroes@[a] as int]
                        &&& self.node_to_flow_rates@[tree.terminals@[zeroes@[a] as int] as int] == 1
                        &&& bit_at(self.node_to_feeding_terminals@[tree.terminals@[zeroes@[a] as int] as int], zeroes@[a] as int)
                    } by {
                        if a == j {
                            let e = choose|e: usize| is_candidate_edge(*graph, self.marked_or_saturated_edges, tree.terminals@[zeroes@[a] as int], e);
                            assert(!is_candidate_edge(*graph, self.marked_or_saturated_edges, terminal, e));
                        }
                    }
                    assert forall|m: int|
                        0 <= m < n && self.node_to_flow_rates@[m] != 0 implies exists|a: int|
                            0 <= a < j + 1 && tree.terminals@[#[trigger] zeroes@[a] as int] == m by {
                        assert(old_rates[m] != 0);
                    }
                }
            }
            proof {
                upto = (ix + 1) as nat;
            }
            j = j + 1;
        }
        proof {
            self.lemma_connected_before(zeroes@, connected, n_terminals as nat, j as int, upto);
            lemma_waiting_next_edges_skip(*graph, self.marked_or_saturated_edges, tree.terminals@, connected, upto, n_terminals as nat);
            assert forall|k: int| 0 <= k < scheduled@.len() implies is_next_edge(
                    *graph,
                    self.marked_or_saturated_edges,
                    #[trigger] scheduled@[k].target,
                    Some(scheduled@[k]),
                ) && is_waiting_terminal(tree.terminals@, self.root_feeding_terminals, scheduled@[k].target) by {
                assert(0 <= sources[k] < n_terminals);
                assert(is_next_edge(*graph, self.marked_or_saturated_edges, tree.terminals@[sources[k]], Some(scheduled@[k])));
            }
            assert forall|ix: int|
                0 <= ix < tree.terminals@.len() && !bit_at(self.root_feeding_terminals, ix)
                    && (exists|e: usize| is_candidate_edge(*graph, self.marked_or_saturated_edges, tree.terminals@[ix], e))
                    implies {
                    &&& exists|k: int| 0 <= k < scheduled@.len() && #[trigger] scheduled@[k].target == tree.terminals@[ix]
                    &&& self.node_to_flow_rates@[tree.terminals@[ix] as int] == 1
                    &&& bit_at(self.node_to_feeding_terminals@[tree.terminals@[ix] as int], ix)
                } by {
                assert(zeroes@.contains(ix as usize));
                let a = choose|a: int| 0 <= a < zeroes@.len() && zeroes@[a] == ix as usize;
                assert(zeroes@[a] as int == ix);
            }
        }
        scheduled
    }

    /// Walks up the saturated edges from `u`, each node once. `None` (degenerate flow) as soon
    /// as a node is fed by one of the terminals feeding `v`; otherwise the next edges of every
    /// node reached, one per node.
    pub fn detect_degenerate_flow_and_collect_edges(&self, graph: &Graph<(), u32>, u: usize, v: usize) -> (r: Option<
        Vec<NextSaturatingEdge>,
    >)
        requires
            self.wf(*graph),
            u < graph_node_count(*graph),
            v < graph_node_count(*graph),
        ensures
            r is None ==> exists|c: usize|
                #![trigger reaches_up(*graph, self.saturated_edges, u, c)]
                c < graph_node_count(*graph) && reaches_up(*graph, self.saturated_edges, u, c)
                    && !feeds_apart(self.node_to_feeding_terminals@[c as int], self.node_to_feeding_terminals@[v as int]),
            r matches Some(edges) ==> collects_next_edges_above(*graph, *self, u, v, edges@),
            r matches Some(edges) ==> edges@ == walk_up_collect(*graph, *self, seq![u], cleared_bits(graph_node_count(*graph))),
    {
        let n = node_bound(graph);
        let mut visited = bitset_with_capacity(n);
        let mut stack: Vec<usize> = Vec::new();
        stack.push(u);
        let mut collected: Vec<NextSaturatingEdge> = Vec::new();
        let ghost sat = self.saturated_edges;
        let ghost whole = walk_up_collect(*graph, *self, seq![u], cleared_bits(n as nat));
        proof {
            assert(collected@ + walk_up_collect(*graph, *self, stack@, bitset_bits(visited)) =~= whole);
            lemma_count_true_cleared(n as nat);
            lemma_count_true_le_len(bitset_bits(visited));
            let p = seq![u];
            assert(is_up_path(*graph, sat, p));
            assert(stack@[0] == u);
        }
        while stack.len() > 0
            invariant
                n == graph_node_count(*graph),
                self.wf(*graph),
                u < n,
                v < n,
                sat == self.saturated_edges,
                bitset_bits(visited).len() == n,
                count_true(bitset_bits(visited)) <= n,
                forall|k: int| 0 <= k < stack@.len() ==> #[trigger] stack@[k] < n,
                forall|k: int| 0 <= k < stack@.len() ==> reaches_up(*graph, sat, u, #[trigger] stack@[k]),
                forall|x: usize| x < n && #[trigger] bit_at(visited, x as int) ==> reaches_up(*graph, sat, u, x),
                bit_at(visited, u as int) || stack@.contains(u),
                forall|x: usize, e: usize|
                    x < n && bit_at(visited, x as int) && #[trigger] is_up_edge(*graph, sat, e, x, edge_source(*graph, e as int))
                        ==> bit_at(visited, edge_source(*graph, e as int) as int) || stack@.contains(edge_source(*graph, e as int)),
                forall|x: usize|
                    x < n && #[trigger] bit_at(visited, x as int) ==> feeds_apart(
                        self.node_to_feeding_terminals@[x as int],
                        self.node_to_feeding_terminals@[v as int],
                    ),
                forall|k: int|
                    0 <= k < collected@.len() ==> is_next_edge(
                        *graph,
                        self.marked_or_saturated_edges,
                        #[trigger] collected@[k].target,
                        Some(collected@[k]),
                    ) && bit_at(visited, collected@[k].target as int),
                forall|a: int, b: int| 0 <= a < b < collected@.len() ==> collected@[a].target != collected@[b].target,
                forall|x: usize|
                    x < n && #[trigger] bit_at(visited, x as int) && (exists|e: usize|
                        is_candidate_edge(*graph, self.marked_or_saturated_edges, x, e)) ==> exists|k: int|
                        0 <= k < collected@.len() && #[trigger] collected@[k].target == x,
                collected@ + walk_up_collect(*graph, *self, stack@, bitset_bits(visited)) == whole,
            decreases n - count_true(bitset_bits(visited)), stack@.len(),
        {
            let ghost stack_before = stack@;
            let current = stack.pop().unwrap();
            let ghost stack_after_pop = stack@;
            assert(stack_before =~= stack_after_pop.push(current));
            let ghost visited_before = bitset_bits(visited);
            let ghost visited_val = visited;
            let already = bitset_put(&mut visited, current);
            assert(forall|x: usize| x != current ==> #[trigger] bit_at(visited, x as int) == bit_at(visited_val, x as int));
            if already {
                proof {
                    assert(walk_up_collect(*graph, *self, stack_before, visited_before) == walk_up_collect(
                        *graph,
                        *self,
                        stack_after_pop,
                        visited_before,
                    ));
                    assert(bitset_bits(visited) =~= visited_before);
                    assert(forall|x: usize| #[trigger] bit_at(visited, x as int) == bit_at(visited_val, x as int));
                    assert forall|x: usize| x < n && #[trigger] bit_at(visited, x as int) implies reaches_up(*graph, sat, u, x) by {
                        assert(bit_at(visited_val, x as int));
                    }
                    assert forall|x: usize|
                        x < n && #[trigger] bit_at(visited, x as int) implies feeds_apart(
                            self.node_to_feeding_terminals@[x as int],
                            self.node_to_feeding_terminals@[v as int],
                        ) by {
                        assert(bit_at(visited_val, x as int));
                    }
                    assert forall|x: usize, e: usize|
                        x < n && bit_at(visited, x as int) && #[trigger] is_up_edge(*graph, sat, e, x, edge_source(*graph, e as int))
                        implies bit_at(visited, edge_source(*graph, e as int) as int) || stack@.contains(edge_source(*graph, e as int)) by {
                        let src = edge_source(*graph, e as int);
                        assert(bit_at(visited_val, x as int));
                        if src != current && !bit_at(visited, src as int) {
                            assert(!bit_at(visited_val, src as int));
                            assert(stack_before.contains(src));
                            let k = choose|k: int| 0 <= k < stack_before.len() && stack_before[k] == src;
                            assert(stack_after_pop[k] == src);
                        }
                    }
                    if !bit_at(visited, u as int) {
                        assert(stack_before.contains(u));
                        let k = choose|k: int| 0 <= k < stack_before.len() && stack_before[k] == u;
                        assert(stack_after_pop[k] == u);
                    }
                    assert forall|x: usize|
                        x < n && #[trigger] bit_at(visited, x as int) && (exists|e: usize|
                            is_candidate_edge(*graph, self.marked_or_saturated_edges, x, e)) implies exists|k: int|
                            0 <= k < collected@.len() && #[trigger] collected@[k].target == x by {
                        assert(bit_at(visited_val, x as int));
                    }
                }
                continue;
            }
            proof {
                lemma_count_true_set(visited_before, current as int);
                lemma_count_true_le_len(bitset_bits(visited));
            }
            let current_feeding = &self.node_to_feeding_terminals[current];
            if !bitset_is_disjoint(&self.node_to_feeding_terminals[v], current_feeding) {
                return None;
            }
            let next = self.find_next_edge_in_t_minus(graph, current);
            let ghost old_collected = collected@;
            let ghost here = if has_candidate(*graph, self.marked_or_saturated_edges, current) {
                seq![first_next_edge(*graph, self.marked_or_saturated_edges, current)]
            } else {
                Seq::<NextSaturatingEdge>::empty()
            };
            proof {
                if let Some(edge) = next {
                    lemma_first_next_edge(*graph, self.marked_or_saturated_edges, current, edge);
                }
            }
            if let Some(edge) = next {
                collected.push(edge);
            }
            proof {
                assert forall|x: usize|
                    x < n && #[trigger] bit_at(visited, x as int) && (exists|e: usize|
                        is_candidate_edge(*graph, self.marked_or_saturated_edges, x, e)) implies exists|k: int|
                        0 <= k < collected@.len() && #[trigger] collected@[k].target == x by {
                    if x == current {
                        let e = choose|e: usize| is_candidate_edge(*graph, self.marked_or_saturated_edges, x, e);
                        assert(next is Some);
                        assert(collected@[collected@.len() - 1].target == x);
                    } else {
                        assert(bit_at(visited_val, x as int));
                        let k = choose|k: int| 0 <= k < old_collected.len() && #[trigger] old_collected[k].target == x;
                        assert(collected@[k] == old_collected[k]);
                    }
                }
            }
            let incoming = edges_directed(graph, current, true);
            proof {
                assert(collected@ =~= old_collected + here);
                assert(incoming@.subrange(0, 0) =~= Seq::<usize>::empty());
                assert(stack@ =~= stack_after_pop + saturated_sources(*graph, sat, incoming@.subrange(0, 0)));
            }
            let mut i: usize = 0;
            while i < incoming.len()
                invariant
                    0 <= i <= incoming@.len(),
                    n == graph_node_count(*graph),
                    sat == self.saturated_edges,
                    forall|k: int|
                        0 <= k < incoming@.len() ==> {
                            &&& #[trigger] incoming@[k] < graph_edges(*graph).len()
                            &&& edge_target(*graph, incoming@[k] as int) == current
                            &&& edge_source(*graph, incoming@[k] as int) < n
                        },
                    forall|k: int| 0 <= k < stack@.len() ==> #[trigger] stack@[k] < n,
                    forall|k: int| 0 <= k < stack@.len() ==> reaches_up(*graph, sat, u, #[trigger] stack@[k]),
                    reaches_up(*graph, sat, u, current),
                    stack@.len() >= stack_after_pop.len(),
                    forall|k: int| 0 <= k < stack_after_pop.len() ==> #[trigger] stack@[k] == stack_after_pop[k],
                    stack@ == stack_after_pop + saturated_sources(*graph, sat, incoming@.subrange(0, i as int)),
                    forall|k: int|
                        0 <= k < i && bit_at(sat, incoming@[k] as int) ==> #[trigger] stack@.contains(
                            edge_source(*graph, incoming@[k] as int),
                        ),
                decreases incoming@.len() - i,
            {
                let e = incoming[i];
                proof {
                    let es = incoming@.subrange(0, i + 1);
                    assert(es.drop_last() =~= incoming@.subrange(0, i as int));
                    assert(es.last() == e);
                }
                if bitset_contains(&self.saturated_edges, e) {
                    let (src, _) = edge_endpoints(graph, e).unwrap();
                    proof {
                        lemma_reaches_up_extend(*graph, sat, u, current, e, src);
                    }
                    let ghost stack_pre = stack@;
                    stack.push(src);
                    proof {
                        assert(stack@[stack@.len() - 1] == src);
                        assert forall|k: int|
                            0 <= k < i + 1 && bit_at(sat, incoming@[k] as int) implies #[trigger] stack@.contains(
                                edge_source(*graph, incoming@[k] as int),
                            ) by {
                            if k < i {
                                assert(stack_pre.contains(edge_source(*graph, incoming@[k] as int)));
                                let j = choose|j: int| 0 <= j < stack_pre.len() && stack_pre[j] == edge_source(*graph, incoming@[k] as int);
                                assert(stack@[j] == stack_pre[j]);
                            } else {
                                assert(stack@[stack@.len() - 1] == edge_source(*graph, incoming@[k] as int));
                            }
                        }
                    }
                }
                proof {
                    assert(stack@ =~= stack_after_pop + saturated_sources(*graph, sat, incoming@.subrange(0, i + 1)));
                }
                i = i + 1;
            }
            proof {
                assert(incoming@.subrange(0, incoming@.len() as int) =~= incoming@);
                assert(walk_up_collect(*graph, *self, stack_before, visited_before) == here + walk_up_collect(
                    *graph,
                    *self,
                    stack_after_pop + saturated_sources(*graph, sat, incoming@),
                    visited_before.update(current as int, true),
                ));
                assert(collected@ + walk_up_collect(*graph, *self, stack@, bitset_bits(visited)) =~= old_collected + (here
                    + walk_up_collect(*graph, *self, stack@, bitset_bits(visited))));
            }
            proof {
                let vb = bitset_bits(visited);
                assert forall|x: usize, e: usize|
                    x < n && bit_at(visited, x as int) && #[trigger] is_up_edge(*graph, sat, e, x, edge_source(*graph, e as int))
                    implies bit_at(visited, edge_source(*graph, e as int) as int) || stack@.contains(edge_source(*graph, e as int)) by {
                    let src = edge_source(*graph, e as int);
                    if x == current {
                        assert(incoming@.contains(e));
                        let k = choose|k: int| 0 <= k < incoming@.len() && incoming@[k] == e;
                        assert(stack@.contains(edge_source(*graph, incoming@[k] as int)));
                    } else if src != current && !bit_at(visited, src as int) {
                        assert(visited_before[x as int]);
                        assert(stack_after_pop.push(current).contains(src));
                        let k = choose|k: int| 0 <= k < stack_after_pop.len() + 1 && stack_after_pop.push(current)[k] == src;
                        assert(stack_after_pop[k] == src);
                        assert(stack@[k] == src);
                    }
                }
                if current != u && !visited_before[u as int] {
                    assert(stack_after_pop.push(current).contains(u));
                    let k = choose|k: int| 0 <= k < stack_after_pop.len() + 1 && stack_after_pop.push(current)[k] == u;
                    assert(stack_after_pop[k] == u);
                    assert(stack@[k] == u);
                }
            }
        }
        proof {
            assert forall|c: usize|
                c < graph_node_count(*graph) && #[trigger] reaches_up(*graph, self.saturated_edges, u, c) implies bit_at(visited, c as int) by {
                let p = choose|p: Seq<usize>| #[trigger] is_up_path(*graph, sat, p) && p[0] == u && p.last() == c;
                lemma_closed_holds_reached(*graph, sat, visited, u, p);
            }
        }
        Some(collected)
    }

    /// Lets the water feeding `v` (the terminals `v_feeding`, at rate `extra`) also flow
    /// through the target of every edge of `collected`, and returns the matching clock updates.
    /// The slot of `v` is left as it is.
    /// Lets the water feeding `v` (the terminals `v_feeding`, at rate `extra`) also flow
    /// through the target of every edge of `collected`, and returns the matching clock updates.
    /// The slot of `v` is left as it is.
    #[verifier::rlimit(40)]
    fn increase_flow(
        &mut self,
        graph: &Graph<(), u32>,
        v: usize,
        v_feeding: &FixedBitSet,
        extra: u32,
        collected: &Vec<NextSaturatingEdge>,
    ) -> (updates: Vec<HeapUpdate>)
        requires
            v < graph_node_count(*graph),
            old(self).node_to_feeding_terminals@.len() == graph_node_count(*graph),
            old(self).node_to_flow_rates@.len() == graph_node_count(*graph),
            rates_fit(old(self).node_to_feeding_terminals@, old(self).node_to_flow_rates@, v),
            bitset_bits(*v_feeding).len() <= u32::MAX,
            bitset_tail_clear(*v_feeding),
            forall|n: int|
                0 <= n < graph_node_count(*graph) ==> bitset_tail_clear(#[trigger] old(self).node_to_feeding_terminals@[n]),
            extra <= count_true(bitset_bits(*v_feeding)),
            forall|k: int| 0 <= k < collected@.len() ==> #[trigger] collected@[k].target < graph_node_count(*graph),
            forall|a: int, b: int| 0 <= a < b < collected@.len() ==> collected@[a].target != collected@[b].target,
            forall|k: int|
                0 <= k < collected@.len() && #[trigger] collected@[k].target != v ==> feeds_apart(
                    old(self).node_to_feeding_terminals@[collected@[k].target as int],
                    *v_feeding,
                ),
            has_target(collected@, v) ==> extra == 0,
        ensures
            final(self).saturated_edges == old(self).saturated_edges,
            final(self).marked_or_saturated_edges == old(self).marked_or_saturated_edges,
            final(self).root_feeding_terminals == old(self).root_feeding_terminals,
            final(self).node_to_feeding_terminals@.len() == graph_node_count(*graph),
            final(self).node_to_flow_rates@.len() == graph_node_count(*graph),
            rates_fit(final(self).node_to_feeding_terminals@, final(self).node_to_flow_rates@, v),
            forall|n: int|
                0 <= n < graph_node_count(*graph) ==> bitset_tail_clear(#[trigger] final(self).node_to_feeding_terminals@[n]),
            rates_increased(old(self).node_to_flow_rates@, final(self).node_to_flow_rates@, collected@, extra),
            feeding_increased(
                old(self).node_to_feeding_terminals@,
                final(self).node_to_feeding_terminals@,
                collected@,
                *v_feeding,
                v,
            ),
            updates@ == rate_updates(old(self).node_to_flow_rates@, collected@, extra),
    {
        let mut updates: Vec<HeapUpdate> = Vec::new();
        let mut k: usize = 0;
        proof {
            assert(collected@.subrange(0, 0) =~= Seq::<NextSaturatingEdge>::empty());
        }
        while k < collected.len()
            invariant
                0 <= k <= collected@.len(),
                v < graph_node_count(*graph),
                self.saturated_edges == old(self).saturated_edges,
                self.marked_or_saturated_edges == old(self).marked_or_saturated_edges,
                self.root_feeding_terminals == old(self).root_feeding_terminals,
                self.node_to_feeding_terminals@.len() == graph_node_count(*graph),
                self.node_to_flow_rates@.len() == graph_node_count(*graph),
                bitset_bits(*v_feeding).len() <= u32::MAX,
                bitset_tail_clear(*v_feeding),
                forall|n: int|
                    0 <= n < graph_node_count(*graph) ==> bitset_tail_clear(#[trigger] self.node_to_feeding_terminals@[n]),
                extra <= count_true(bitset_bits(*v_feeding)),
                forall|j: int| 0 <= j < collected@.len() ==> #[trigger] collected@[j].target < graph_node_count(*graph),
                forall|a: int, b: int| 0 <= a < b < collected@.len() ==> collected@[a].target != collected@[b].target,
                forall|j: int|
                    0 <= j < collected@.len() && #[trigger] collected@[j].target != v ==> feeds_apart(
                        old(self).node_to_feeding_terminals@[collected@[j].target as int],
                        *v_feeding,
                    ),
                has_target(collected@, v) ==> extra == 0,
                rates_fit(self.node_to_feeding_terminals@, self.node_to_flow_rates@, v),
                rates_increased(old(self).node_to_flow_rates@, self.node_to_flow_rates@, collected@.subrange(0, k as int), extra),
                feeding_increased(
                    old(self).node_to_feeding_terminals@,
                    self.node_to_feeding_terminals@,
                    collected@.subrange(0, k as int),
                    *v_feeding,
                    v,
                ),
                updates@ == rate_updates(old(self).node_to_flow_rates@, collected@.subrange(0, k as int), extra),
            decreases collected@.len() - k,
        {
            let next = collected[k];
            let target = next.target;
            let ghost pre = collected@.subrange(0, k as int);
            let ghost post = collected@.subrange(0, k + 1);
            assert(post =~= pre.push(next));
            assert(post.drop_last() =~= pre);
            proof {
                assert(!has_target(pre, target)) by {
                    if has_target(pre, target) {
                        let j = choose|j: int| 0 <= j < pre.len() && #[trigger] pre[j].target == target;
                        assert(collected@[j].target == collected@[k as int].target);
                    }
                }
                lemma_has_target_push(pre, next);
            }
            let ghost old_slots = self.node_to_feeding_terminals@;
            let ghost old_rates = self.node_to_flow_rates@;
            let ghost old_slot = self.node_to_feeding_terminals@[target as int];
            let old_rate = self.node_to_flow_rates[target];
            proof {
                if target != v {
                    assert forall|i: int| !(#[trigger] bit_at(old_slot, i) && bit_at(*v_feeding, i)) by {
                        assert(bit_at(old_slot, i) == bit_at(old(self).node_to_feeding_terminals@[target as int], i));
                        assert(!(bit_at(old(self).node_to_feeding_terminals@[target as int], i) && bit_at(*v_feeding, i)));
                    }
                    lemma_count_true_le_len(bitset_bits(old_slot));
                } else {
                    assert(has_target(collected@, v)) by {
                        assert(collected@[k as int].target == v);
                    }
                }
            }
            bitset_union_with(&mut self.node_to_feeding_terminals[target], v_feeding);
            proof {
                if target != v {
                    lemma_union_count(old_slot, *v_feeding, self.node_to_feeding_terminals@[target as int]);
                }
            }
            let new_rate = old_rate + extra;
            self.node_to_flow_rates.set(target, new_rate);
            if old_rate == 0 {
                updates.push(HeapUpdate::Push { edge: next.id, capacity: next.weight, flow_rate: new_rate });
            } else {
                updates.push(HeapUpdate::Rescale { edge: next.id, old_flow_rate: old_rate, new_flow_rate: new_rate });
            }
            proof {
                assert(updates@ =~= rate_updates(old(self).node_to_flow_rates@, post, extra));
                assert forall|n: usize| n < old_rates.len() implies #[trigger] self.node_to_flow_rates@[n as int]
                    == old(self).node_to_flow_rates@[n as int] + if has_target(post, n) { extra } else { 0 } by {
                    if n != target {
                        assert(self.node_to_flow_rates@[n as int] == old_rates[n as int]);
                    }
                }
                assert forall|n: usize| n < old_slots.len() && n != v implies {
                    &&& bitset_bits(#[trigger] self.node_to_feeding_terminals@[n as int]).len() <= u32::MAX
                    &&& self.node_to_flow_rates@[n as int] <= count_true(bitset_bits(self.node_to_feeding_terminals@[n as int]))
                } by {
                    if n != target {
                        assert(self.node_to_feeding_terminals@[n as int] == old_slots[n as int]);
                        assert(self.node_to_flow_rates@[n as int] == old_rates[n as int]);
                    }
                }
                assert forall|n: usize, i: int| n < old_slots.len() && n != v implies #[trigger] bit_at(self.node_to_feeding_terminals@[n as int], i)
                    == (bit_at(old(self).node_to_feeding_terminals@[n as int], i) || (has_target(post, n) && bit_at(*v_feeding, i))) by {
                    if n != target {
                        assert(self.node_to_feeding_terminals@[n as int] == old_slots[n as int]);
                    } else {
                        assert(bit_at(old_slot, i) == bit_at(old(self).node_to_feeding_terminals@[n as int], i));
                    }
                }
                if target != v {
                    assert(self.node_to_feeding_terminals@[v as int] == old_slots[v as int]);
                }
            }
            k = k + 1;
        }
        assert(collected@.subrange(0, collected@.len() as int) =~= collected@);
        updates
    }

    /// Handles the saturation of `saturating_edge`, from `u` into `v`, which is marked in any
    /// case:
    /// - if `v` joined the tree meanwhile, nothing else happens;
    /// - if `u` is in the tree, the water feeding `v` reached it: when none of those terminals
    ///   is connected yet they become connected and the saturated edges below `v` form a new
    ///   subtree (`FoundSubtree`), otherwise the run stops (`Break`);
    /// - otherwise, unless the flow is degenerate, the edge saturates and the water feeding `v`
    ///   spreads above `u`; then `v`'s next edge, if any, is scheduled.
    pub fn update_flow_rates(&mut self, graph: &Graph<(), u32>, tree: &SteinerTree, saturating_edge: usize) -> (r: (
        FlacControlFlow,
        Vec<HeapUpdate>,
    ))
        requires
            old(self).wf(*graph),
            tree.wf(*graph),
            saturating_edge < graph_edges(*graph).len(),
        ensures
            final(self).wf(*graph),
            bitset_bits(final(self).marked_or_saturated_edges) == bitset_bits(old(self).marked_or_saturated_edges).update(
                saturating_edge as int,
                true,
            ),
            is_saturation_step(*graph, *tree, *old(self), *final(self), saturating_edge, r.0, r.1@),
            r.0 matches FlacControlFlow::FoundSubtree { subtree_root_node_id } ==> subtree_root_node_id == edge_target(
                *graph,
                saturating_edge as int,
            ) && subtree_root_node_id < graph_node_count(*graph),
            r.0 is FoundSubtree ==> bit_at(tree.nodes, edge_source(*graph, saturating_edge as int) as int),
    {
        let (u, v) = edge_endpoints(graph, saturating_edge).unwrap();
        bitset_insert(&mut self.marked_or_saturated_edges, saturating_edge);
        let ghost marked_flow = *self;
        if bitset_contains(&tree.nodes, v) {
            return (FlacControlFlow::Continue, Vec::new());
        }
        if bitset_contains(&tree.nodes, u) {
            if bitset_is_disjoint(&self.root_feeding_terminals, &self.node_to_feeding_terminals[v]) {
                bitset_union_with(&mut self.root_feeding_terminals, &self.node_to_feeding_terminals[v]);
                return (FlacControlFlow::FoundSubtree { subtree_root_node_id: v }, Vec::new());
            } else {
                return (FlacControlFlow::Break, Vec::new());
            }
        }
        let detected = self.detect_degenerate_flow_and_collect_edges(graph, u, v);
        let ghost detected_spec = detected;
        let mut updates: Vec<HeapUpdate> = Vec::new();
        if let Some(collected) = detected {
            proof {
                if has_target(collected@, v) {
                    let k = choose|k: int| 0 <= k < collected@.len() && #[trigger] collected@[k].target == v;
                    assert(reaches_up(*graph, self.saturated_edges, u, v));
                    let fv = self.node_to_feeding_terminals@[v as int];
                    assert(feeds_apart(fv, fv));
                    assert forall|i: int| 0 <= i < bitset_bits(fv).len() implies !bitset_bits(fv)[i] by {
                        assert(!(bit_at(fv, i) && bit_at(fv, i)));
                    }
                    lemma_count_true_none(bitset_bits(fv));
                }
            }
            bitset_insert(&mut self.saturated_edges, saturating_edge);
            let mut v_feeding = bitset_new();
            std::mem::swap(&mut v_feeding, &mut self.node_to_feeding_terminals[v]);
            let extra = self.node_to_flow_rates[v];
            let ghost spread_from = *self;
            updates = self.increase_flow(graph, v, &v_feeding, extra, &collected);
            let ghost inc = *self;
            self.node_to_feeding_terminals.set(v, v_feeding);
            proof {
                lemma_targets_take_flow(*graph, marked_flow, u, v, collected@);
                let after = *self;
                assert forall|n: usize| n < marked_flow.node_to_flow_rates@.len() implies #[trigger] after.node_to_flow_rates@[n as int]
                    == marked_flow.node_to_flow_rates@[n as int] + if takes_flow(*graph, marked_flow, u, n) {
                    marked_flow.node_to_flow_rates@[v as int]
                } else {
                    0
                } by {
                    assert(after.node_to_flow_rates@[n as int] == spread_from.node_to_flow_rates@[n as int] + if has_target(collected@, n) { extra } else { 0 });
                }
                assert forall|n: usize, i: int|
                    n < marked_flow.node_to_feeding_terminals@.len() && n != v implies #[trigger] bit_at(after.node_to_feeding_terminals@[n as int], i)
                        == (bit_at(marked_flow.node_to_feeding_terminals@[n as int], i) || (takes_flow(*graph, marked_flow, u, n) && bit_at(
                        marked_flow.node_to_feeding_terminals@[v as int],
                        i,
                    ))) by {
                    assert(spread_from.node_to_feeding_terminals@[n as int] == marked_flow.node_to_feeding_terminals@[n as int]);
                    assert(bit_at(after.node_to_feeding_terminals@[n as int], i) == (bit_at(spread_from.node_to_feeding_terminals@[n as int], i)
                        || (has_target(collected@, n) && bit_at(v_feeding, i))));
                }
                assert(flow_spread(*graph, marked_flow, after, u, v));
                assert forall|n: int| 0 <= n < graph_node_count(*graph) implies {
                    &&& bitset_bits(#[trigger] after.node_to_feeding_terminals@[n]).len() <= u32::MAX
                    &&& after.node_to_flow_rates@[n] <= count_true(bitset_bits(after.node_to_feeding_terminals@[n]))
                } by {
                    if n != v as int {
                        assert(after.node_to_feeding_terminals@[n] == inc.node_to_feeding_terminals@[n]);
                        assert(self.node_to_feeding_terminals.len() as int == after.node_to_feeding_terminals@.len());
                        let nu = n as usize;
                        assert(nu as int == n);
                        assert(bitset_bits(inc.node_to_feeding_terminals@[nu as int]).len() <= u32::MAX);
                    } else {
                        assert(after.node_to_flow_rates@[n] == marked_flow.node_to_flow_rates@[n] + if has_target(collected@, v) { extra } else { 0 });
                    }
                }
            }
        }
        let saturated_weight = weight_of(graph, saturating_edge);
        let ghost head = updates@;
        let next = self.find_next_edge_in_t_minus(graph, v);
        if let Some(edge) = next {
            let flow_rate = self.node_to_flow_rates[v];
            updates.push(HeapUpdate::PushAfter { edge: edge.id, weight: edge.weight, saturated_weight, flow_rate });
        }
        proof {
            let tail = updates@.subrange(head.len() as int, updates@.len() as int);
            assert(is_next_edge(*graph, self.marked_or_saturated_edges, v, next));
            assert(tail =~= match next {
                None => Seq::<HeapUpdate>::empty(),
                Some(n) => seq![
                    HeapUpdate::PushAfter {
                        edge: n.id,
                        weight: n.weight,
                        saturated_weight: saturated_weight,
                        flow_rate: self.node_to_flow_rates@[v as int],
                    },
                ],
            });
            assert(schedules_after(*graph, self.marked_or_saturated_edges, v, saturated_weight, self.node_to_flow_rates@[v as int], tail));
            assert(updates@.subrange(0, head.len() as int) =~= head);
            match detected_spec {
                Some(collected) => {
                    assert(!is_degenerate(*graph, marked_flow, u, v));
                    assert(spreads_flow(*graph, marked_flow, u, v, head));
                    assert(spreads_flow(*graph, marked_flow, u, v, updates@.subrange(0, head.len() as int)));
                },
                None => {
                    assert(is_degenerate(*graph, marked_flow, u, v));
                    assert(head.len() == 0);
                    assert(tail =~= updates@);
                },
            }
        }
        (FlacControlFlow::Continue, updates)
    }

    /// Adds to `tree` the saturated edge `saturating_edge` that reached it, then walks down the
    /// saturated edges from `subtree_root` (its target), adding every node reached and every
    /// saturated edge out of them. An edge already in the tree is neither counted again nor
    /// walked through again. Every node and edge added, but `saturating_edge`, lies below
    /// `subtree_root` on saturated edges. False, the walk stopped, when adding the weight of an
    /// edge it reached (`saturating_edge` or a saturated edge outside the tree) would overflow
    /// the tree's `u32` weight.
    pub fn add_subtree(&self, graph: &Graph<(), u32>, tree: &mut SteinerTree, saturating_edge: usize, subtree_root: usize) -> (r:
        bool)
        requires
            self.wf(*graph),
            old(tree).wf(*graph),
            saturating_edge < graph_edges(*graph).len(),
            subtree_root == edge_target(*graph, saturating_edge as int),
            subtree_root < graph_node_count(*graph),
        ensures
            final(tree).wf(*graph),
            final(tree).terminals == old(tree).terminals,
            final(tree).is_terminal == old(tree).is_terminal,
            final(tree).total_weight + tree_weight_left(*graph, *final(tree)) == old(tree).total_weight
                + tree_weight_left(*graph, *old(tree)),
            r ==> adds_subtree(*graph, self.saturated_edges, *old(tree), *final(tree), saturating_edge),
            r && old(tree).is_closed(*graph) && bit_at(old(tree).nodes, edge_source(*graph, saturating_edge as int) as int)
                ==> final(tree).is_closed(*graph),
            !r ==> exists|f: usize|
                f < graph_edges(*graph).len() && !#[trigger] bit_at(final(tree).edges, f as int) && (f == saturating_edge
                    || bit_at(self.saturated_edges, f as int)) && final(tree).total_weight + edge_weight(*graph, f as int)
                    > u32::MAX,
            r && saturated_outside_tree(*graph, *self, *old(tree)) && !bit_at(old(tree).nodes, subtree_root as int) ==> forall|
                e: usize,
            |
                #[trigger] bit_at(final(tree).edges, e as int) && !bit_at(old(tree).edges, e as int) ==> !bit_at(
                    old(tree).nodes,
                    edge_target(*graph, e as int) as int,
                ),
    {
        let ghost before = *tree;
        if !self.add_subtree_walk(graph, tree, saturating_edge, subtree_root) {
            return false;
        }
        proof {
            if saturated_outside_tree(*graph, *self, before) && !bit_at(before.nodes, subtree_root as int) {
                let after = *tree;
                assert forall|e: usize| #[trigger] bit_at(after.edges, e as int) && !bit_at(before.edges, e as int) implies !bit_at(
                    before.nodes,
                    edge_target(*graph, e as int) as int,
                ) by {
                    if e != saturating_edge {
                        assert(bit_at(self.saturated_edges, e as int));
                        assert(e < graph_edges(*graph).len());
                    }
                }
            }
            if before.is_closed(*graph) && bit_at(before.nodes, edge_source(*graph, saturating_edge as int) as int) {
                let after = *tree;
                assert forall|e: usize| e < graph_edges(*graph).len() && #[trigger] bit_at(after.edges, e as int) implies bit_at(
                    after.nodes,
                    edge_source(*graph, e as int) as int,
                ) && bit_at(after.nodes, edge_target(*graph, e as int) as int) by {
                    if bit_at(before.edges, e as int) {
                        assert(bit_at(before.nodes, edge_source(*graph, e as int) as int));
                        assert(bit_at(before.nodes, edge_target(*graph, e as int) as int));
                    } else if e == saturating_edge {
                        assert(bit_at(before.nodes, edge_source(*graph, e as int) as int));
                    }
                }
            }
        }
        true
    }

    /// The walk of `add_subtree`.
    fn add_subtree_walk(&self, graph: &Graph<(), u32>, tree: &mut SteinerTree, saturating_edge: usize, subtree_root: usize) -> (r: bool)
        requires
            self.wf(*graph),
            old(tree).wf(*graph),
            saturating_edge < graph_edges(*graph).len(),
            subtree_root == edge_target(*graph, saturating_edge as int),
            subtree_root < graph_node_count(*graph),
        ensures
            final(tree).wf(*graph),
            final(tree).terminals == old(tree).terminals,
            final(tree).is_terminal == old(tree).is_terminal,
            final(tree).total_weight + tree_weight_left(*graph, *final(tree)) == old(tree).total_weight
                + tree_weight_left(*graph, *old(tree)),
            r ==> (bit_at(final(tree).nodes, subtree_root as int)),
            r ==> (bit_at(final(tree).edges, saturating_edge as int)),
            r ==> (forall|x: int| #[trigger] bit_at(old(tree).nodes, x) ==> bit_at(final(tree).nodes, x)),
            r ==> (forall|e: int| #[trigger] bit_at(old(tree).edges, e) ==> bit_at(final(tree).edges, e)),
            r ==> (forall|e: usize|
                #[trigger] bit_at(final(tree).edges, e as int) && !bit_at(old(tree).edges, e as int) ==> {
                    &&& e == saturating_edge || (bit_at(self.saturated_edges, e as int) && bit_at(
                        final(tree).nodes,
                        edge_source(*graph, e as int) as int,
                    ))
                    &&& bit_at(final(tree).nodes, edge_target(*graph, e as int) as int)
                }),
            r ==> (forall|x: usize|
                #[trigger] bit_at(final(tree).nodes, x as int) && !bit_at(old(tree).nodes, x as int) ==> x == subtree_root
                    || exists|e: usize|
                    bit_at(final(tree).edges, e as int) && !bit_at(old(tree).edges, e as int) && edge_target(*graph, e as int) == x),
            r ==> (forall|e: usize|
                e < graph_edges(*graph).len() && bit_at(self.saturated_edges, e as int) && (edge_source(*graph, e as int) == subtree_root || (bit_at(
                    final(tree).nodes,
                    edge_source(*graph, e as int) as int,
                ) && !bit_at(old(tree).nodes, edge_source(*graph, e as int) as int))) ==> #[trigger] bit_at(final(tree).edges, e as int)),
            r ==> (forall|x: usize|
                #[trigger] bit_at(final(tree).nodes, x as int) && !bit_at(old(tree).nodes, x as int) ==> reaches_up(
                    *graph,
                    self.saturated_edges,
                    x,
                    subtree_root,
                )),
            r ==> (forall|e: usize|
                #[trigger] bit_at(final(tree).edges, e as int) && !bit_at(old(tree).edges, e as int) && e != saturating_edge
                    ==> reaches_up(*graph, self.saturated_edges, edge_source(*graph, e as int), subtree_root)),
            !r ==> exists|f: usize|
                f < graph_edges(*graph).len() && !#[trigger] bit_at(final(tree).edges, f as int) && (f == saturating_edge
                    || bit_at(self.saturated_edges, f as int)) && final(tree).total_weight + edge_weight(*graph, f as int)
                    > u32::MAX,
    {
        let ghost initial = old(tree).total_weight + tree_weight_left(*graph, *old(tree));
        let ghost old_nodes = old(tree).nodes;
        let ghost old_edges = old(tree).edges;
        let n_edges = edge_bound(graph);
        let ghost e_count = graph_edges(*graph).len();
        if self.add_tree_edge(graph, tree, saturating_edge).is_none() {
            return false;
        }
        let mut stack: Vec<usize> = Vec::new();
        stack.push(subtree_root);
        let ghost mut processed: Set<usize> = Set::empty();
        proof {
            lemma_count_true_le_len(bitset_bits(tree.edges));
            assert(stack@[0] == subtree_root);
            assert(is_up_path(*graph, self.saturated_edges, seq![subtree_root]));
            assert(reaches_up(*graph, self.saturated_edges, subtree_root, subtree_root));
        }
        while stack.len() > 0
            invariant
                tree.wf(*graph),
                self.wf(*graph),
                n_edges == e_count,
                e_count == graph_edges(*graph).len(),
                subtree_root == edge_target(*graph, saturating_edge as int),
                tree.terminals == old(tree).terminals,
                tree.is_terminal == old(tree).is_terminal,
                tree.total_weight + tree_weight_left(*graph, *tree) == initial,
                initial == old(tree).total_weight + tree_weight_left(*graph, *old(tree)),
                count_true(bitset_bits(tree.edges)) <= e_count,
                bit_at(tree.edges, saturating_edge as int),
                forall|x: int| #[trigger] bit_at(old_nodes, x) ==> bit_at(tree.nodes, x),
                forall|e: int| #[trigger] bit_at(old_edges, e) ==> bit_at(tree.edges, e),
                forall|k: int| 0 <= k < stack@.len() ==> #[trigger] stack@[k] < graph_node_count(*graph),
                forall|k: int|
                    0 <= k < stack@.len() ==> #[trigger] stack@[k] == subtree_root || exists|e: usize|
                        bit_at(tree.edges, e as int) && !bit_at(old_edges, e as int) && edge_target(*graph, e as int) == stack@[k],
                processed.contains(subtree_root) || stack@.contains(subtree_root),
                forall|k: int|
                    0 <= k < stack@.len() ==> reaches_up(*graph, self.saturated_edges, #[trigger] stack@[k], subtree_root),
                forall|x: usize| #[trigger] processed.contains(x) ==> reaches_up(*graph, self.saturated_edges, x, subtree_root),
                forall|x: usize| #[trigger] processed.contains(x) ==> bit_at(tree.nodes, x as int),
                forall|x: usize, e: usize|
                    #[trigger] processed.contains(x) && e < e_count && bit_at(self.saturated_edges, e as int) && edge_source(*graph, e as int) == x
                        ==> #[trigger] bit_at(tree.edges, e as int),
                forall|x: usize|
                    #[trigger] bit_at(tree.nodes, x as int) && !bit_at(old_nodes, x as int) ==> processed.contains(x) && (x == subtree_root
                        || exists|e: usize|
                        bit_at(tree.edges, e as int) && !bit_at(old_edges, e as int) && edge_target(*graph, e as int) == x),
                forall|e: usize|
                    #[trigger] bit_at(tree.edges, e as int) && !bit_at(old_edges, e as int) ==> {
                        &&& e == saturating_edge || (bit_at(self.saturated_edges, e as int) && processed.contains(
                            edge_source(*graph, e as int),
                        ))
                        &&& e < e_count
                        &&& (e == saturating_edge ==> edge_target(*graph, e as int) == subtree_root)
                        &&& (processed.contains(edge_target(*graph, e as int)) || stack@.contains(edge_target(*graph, e as int))
                            || (e == saturating_edge && stack@.contains(subtree_root)))
                    },
            decreases e_count - count_true(bitset_bits(tree.edges)), stack@.len(),
        {
            let ghost stack_before = stack@;
            let node = stack.pop().unwrap();
            let ghost stack_after_pop = stack@;
            assert(stack_before =~= stack_after_pop.push(node));
            assert(stack_before[stack_before.len() - 1] == node);
            assert forall|k: int| 0 <= k < stack@.len() implies reaches_up(
                *graph,
                self.saturated_edges,
                #[trigger] stack@[k],
                subtree_root,
            ) by {
                assert(stack@[k] == stack_before[k]);
            }
            let ghost nodes_before = tree.nodes;
            bitset_insert(&mut tree.nodes, node);
            let ghost nodes_after = tree.nodes;
            let ghost processed_before = processed;
            proof {
                processed = processed.insert(node);
            }
            let ghost count_at_pop = count_true(bitset_bits(tree.edges));
            let ghost edges_at_pop = tree.edges;
            let outgoing = edges_directed(graph, node, false);
            let mut i: usize = 0;
            while i < outgoing.len()
                invariant
                    0 <= i <= outgoing@.len(),
                    tree.wf(*graph),
                    self.wf(*graph),
                    e_count == graph_edges(*graph).len(),
                    subtree_root == edge_target(*graph, saturating_edge as int),
                    node < graph_node_count(*graph),
                    reaches_up(*graph, self.saturated_edges, node, subtree_root),
                    forall|k: int|
                        0 <= k < stack@.len() ==> reaches_up(*graph, self.saturated_edges, #[trigger] stack@[k], subtree_root),
                    tree.nodes == nodes_after,
                    tree.terminals == old(tree).terminals,
                    tree.is_terminal == old(tree).is_terminal,
                    tree.total_weight + tree_weight_left(*graph, *tree) == initial,
                    initial == old(tree).total_weight + tree_weight_left(*graph, *old(tree)),
                initial == old(tree).total_weight + tree_weight_left(*graph, *old(tree)),
                    count_true(bitset_bits(tree.edges)) <= e_count,
                    count_true(bitset_bits(tree.edges)) >= count_at_pop,
                    stack@.len() == stack_after_pop.len() + (count_true(bitset_bits(tree.edges)) - count_at_pop),
                    forall|k: int| 0 <= k < stack_after_pop.len() ==> #[trigger] stack@[k] == stack_after_pop[k],
                    forall|e: int| #[trigger] bit_at(edges_at_pop, e) ==> bit_at(tree.edges, e),
                    forall|k: int|
                        0 <= k < outgoing@.len() ==> {
                            &&& #[trigger] outgoing@[k] < e_count
                            &&& edge_source(*graph, outgoing@[k] as int) == node
                            &&& edge_target(*graph, outgoing@[k] as int) < graph_node_count(*graph)
                        },
                    forall|e: usize| e < e_count ==> (outgoing@.contains(e) <==> edge_source(*graph, e as int) == node),
                    forall|k: int|
                        0 <= k < i && bit_at(self.saturated_edges, outgoing@[k] as int) ==> #[trigger] bit_at(
                            tree.edges,
                            outgoing@[k] as int,
                        ),
                    forall|k: int| stack_after_pop.len() <= k < stack@.len() ==> #[trigger] stack@[k] < graph_node_count(*graph)
                        && exists|e: usize|
                        bit_at(tree.edges, e as int) && !bit_at(edges_at_pop, e as int) && edge_target(*graph, e as int) == stack@[k],
                    forall|e: usize|
                        #[trigger] bit_at(tree.edges, e as int) && !bit_at(edges_at_pop, e as int) ==> {
                            &&& bit_at(self.saturated_edges, e as int)
                            &&& edge_source(*graph, e as int) == node
                            &&& e < e_count
                            &&& stack@.contains(edge_target(*graph, e as int))
                        },
                decreases outgoing@.len() - i,
            {
                let e = outgoing[i];
                let ghost edges_loop = tree.edges;
                if bitset_contains(&self.saturated_edges, e) {
                    let ghost edges_before = tree.edges;
                    let ghost stack_pre = stack@;
                    let added = match self.add_tree_edge(graph, tree, e) {
                        Some(a) => a,
                        None => {
                            proof {
                                assert(!bit_at(tree.edges, e as int));
                            }
                            return false;
                        },
                    };
                    proof {
                        lemma_count_true_le_len(bitset_bits(tree.edges));
                    }
                    if added {
                        let (_, t) = edge_endpoints(graph, e).unwrap();
                        stack.push(t);
                        proof {
                            assert(is_up_edge(*graph, self.saturated_edges, e, t, node));
                            lemma_reaches_up_prepend(*graph, self.saturated_edges, t, e, node, subtree_root);
                            assert forall|k: int| 0 <= k < stack@.len() implies reaches_up(
                                *graph,
                                self.saturated_edges,
                                #[trigger] stack@[k],
                                subtree_root,
                            ) by {
                                if k < stack_pre.len() {
                                    assert(stack@[k] == stack_pre[k]);
                                }
                            }
                            assert(stack@[stack@.len() - 1] == t);
                            assert(bit_at(tree.edges, e as int) && !bit_at(edges_at_pop, e as int) && edge_target(*graph, e as int) == t);
                            assert forall|f: usize|
                                #[trigger] bit_at(tree.edges, f as int) && !bit_at(edges_at_pop, f as int) implies {
                                    &&& bit_at(self.saturated_edges, f as int)
                                    &&& edge_source(*graph, f as int) == node
                                    &&& f < e_count
                                    &&& stack@.contains(edge_target(*graph, f as int))
                                } by {
                                if f != e {
                                    assert(bit_at(edges_before, f as int));
                                    assert(stack_pre.contains(edge_target(*graph, f as int)));
                                    let j = choose|j: int| 0 <= j < stack_pre.len() && stack_pre[j] == edge_target(*graph, f as int);
                                    assert(stack@[j] == stack_pre[j]);
                                } else {
                                    assert(stack@[stack@.len() - 1] == edge_target(*graph, f as int));
                                }
                            }
                            assert forall|k: int| stack_after_pop.len() <= k < stack@.len() implies #[trigger] stack@[k] < graph_node_count(*graph)
                                && exists|f: usize|
                                bit_at(tree.edges, f as int) && !bit_at(edges_at_pop, f as int) && edge_target(*graph, f as int) == stack@[k] by {
                                if k < stack_pre.len() {
                                    assert(stack@[k] == stack_pre[k]);
                                    let f = choose|f: usize|
                                        bit_at(edges_before, f as int) && !bit_at(edges_at_pop, f as int) && edge_target(*graph, f as int) == stack_pre[k];
                                    assert(bit_at(tree.edges, f as int));
                                }
                            }
                        }
                    } else {
                        proof {
                            assert(tree.edges == tree.edges);
                            assert forall|f: usize|
                                #[trigger] bit_at(tree.edges, f as int) && !bit_at(edges_at_pop, f as int) implies {
                                    &&& bit_at(self.saturated_edges, f as int)
                                    &&& edge_source(*graph, f as int) == node
                                    &&& f < e_count
                                    &&& stack@.contains(edge_target(*graph, f as int))
                                } by {
                                assert(bit_at(edges_before, f as int));
                            }
                            assert forall|k: int| stack_after_pop.len() <= k < stack@.len() implies #[trigger] stack@[k] < graph_node_count(*graph)
                                && exists|f: usize|
                                bit_at(tree.edges, f as int) && !bit_at(edges_at_pop, f as int) && edge_target(*graph, f as int) == stack@[k] by {
                                let f = choose|f: usize|
                                    bit_at(edges_before, f as int) && !bit_at(edges_at_pop, f as int) && edge_target(*graph, f as int) == stack@[k];
                                assert(bit_at(tree.edges, f as int));
                            }
                        }
                    }
                }
                proof {
                    assert forall|k: int|
                        0 <= k < i + 1 && bit_at(self.saturated_edges, outgoing@[k] as int) implies #[trigger] bit_at(
                            tree.edges,
                            outgoing@[k] as int,
                        ) by {
                        if k < i {
                            assert(bit_at(edges_loop, outgoing@[k] as int));
                        }
                    }
                }
                i = i + 1;
            }
            proof {
                assert forall|x: usize| #[trigger] processed.contains(x) implies reaches_up(
                    *graph,
                    self.saturated_edges,
                    x,
                    subtree_root,
                ) by {
                    if x != node {
                        assert(processed_before.contains(x));
                    }
                }
                assert(forall|x: int| #[trigger] bit_at(nodes_after, x) == (bit_at(nodes_before, x) || x == node as int));
                assert forall|x: int| #[trigger] bit_at(old_nodes, x) implies bit_at(tree.nodes, x) by {
                    assert(bit_at(nodes_before, x));
                }
                assert forall|e: int| #[trigger] bit_at(old_edges, e) implies bit_at(tree.edges, e) by {
                    assert(bit_at(edges_at_pop, e));
                }
                assert forall|k: int| 0 <= k < stack@.len() implies #[trigger] stack@[k] < graph_node_count(*graph) by {
                    if k < stack_after_pop.len() {
                        assert(stack@[k] == stack_before[k]);
                    }
                }
                assert forall|k: int|
                    0 <= k < stack@.len() implies #[trigger] stack@[k] == subtree_root || exists|e: usize|
                        bit_at(tree.edges, e as int) && !bit_at(old_edges, e as int) && edge_target(*graph, e as int) == stack@[k] by {
                    if k < stack_after_pop.len() {
                        assert(stack@[k] == stack_before[k]);
                        if stack_before[k] != subtree_root {
                            let f = choose|f: usize|
                                bit_at(edges_at_pop, f as int) && !bit_at(old_edges, f as int) && edge_target(*graph, f as int) == stack_before[k];
                            assert(bit_at(tree.edges, f as int));
                        }
                    } else {
                        let f = choose|f: usize|
                            bit_at(tree.edges, f as int) && !bit_at(edges_at_pop, f as int) && edge_target(*graph, f as int) == stack@[k];
                        assert(!bit_at(old_edges, f as int));
                    }
                }
                if !processed.contains(subtree_root) {
                    assert(stack_before.contains(subtree_root));
                    let j = choose|j: int| 0 <= j < stack_before.len() && stack_before[j] == subtree_root;
                    assert(j < stack_after_pop.len());
                    assert(stack@[j] == subtree_root);
                }
                assert forall|x: usize| #[trigger] processed.contains(x) implies bit_at(tree.nodes, x as int) by {
                    if x != node {
                        assert(processed_before.contains(x));
                        assert(bit_at(nodes_before, x as int));
                    }
                }
                assert forall|x: usize, e: usize|
                    #[trigger] processed.contains(x) && e < e_count && bit_at(self.saturated_edges, e as int) && edge_source(*graph, e as int) == x
                    implies #[trigger] bit_at(tree.edges, e as int) by {
                    if x == node {
                        assert(outgoing@.contains(e));
                        let k = choose|k: int| 0 <= k < outgoing@.len() && outgoing@[k] == e;
                        assert(bit_at(tree.edges, outgoing@[k] as int));
                    } else {
                        assert(processed_before.contains(x));
                        assert(bit_at(edges_at_pop, e as int));
                    }
                }
                assert forall|x: usize|
                    #[trigger] bit_at(tree.nodes, x as int) && !bit_at(old_nodes, x as int) implies processed.contains(x) && (x == subtree_root
                        || exists|e: usize|
                        bit_at(tree.edges, e as int) && !bit_at(old_edges, e as int) && edge_target(*graph, e as int) == x) by {
                    if x == node {
                        assert(stack_before[stack_before.len() - 1] == x);
                        if x != subtree_root {
                            let f = choose|f: usize|
                                bit_at(edges_at_pop, f as int) && !bit_at(old_edges, f as int) && edge_target(*graph, f as int) == x;
                            assert(bit_at(tree.edges, f as int));
                        }
                    } else {
                        assert(bit_at(nodes_before, x as int));
                        assert(processed_before.contains(x));
                        if x != subtree_root {
                            let f = choose|f: usize|
                                bit_at(edges_at_pop, f as int) && !bit_at(old_edges, f as int) && edge_target(*graph, f as int) == x;
                            assert(bit_at(tree.edges, f as int));
                        }
                    }
                }
                assert forall|e: usize|
                    #[trigger] bit_at(tree.edges, e as int) && !bit_at(old_edges, e as int) implies {
                        &&& e == saturating_edge || (bit_at(self.saturated_edges, e as int) && processed.contains(
                            edge_source(*graph, e as int),
                        ))
                        &&& e < e_count
                        &&& (e == saturating_edge ==> edge_target(*graph, e as int) == subtree_root)
                        &&& (processed.contains(edge_target(*graph, e as int)) || stack@.contains(edge_target(*graph, e as int))
                            || (e == saturating_edge && stack@.contains(subtree_root)))
                    } by {
                    let t = edge_target(*graph, e as int);
                    if bit_at(edges_at_pop, e as int) {
                        if e != saturating_edge {
                            assert(processed_before.contains(edge_source(*graph, e as int)));
                        }
                        if !processed.contains(t) {
                            if stack_before.contains(t) {
                                let j = choose|j: int| 0 <= j < stack_before.len() && stack_before[j] == t;
                                if j < stack_after_pop.len() {
                                    assert(stack@[j] == t);
                                }
                            } else if e == saturating_edge {
                                assert(stack_before.contains(subtree_root));
                                let j = choose|j: int| 0 <= j < stack_before.len() && stack_before[j] == subtree_root;
                                if j < stack_after_pop.len() {
                                    assert(stack@[j] == subtree_root);
                                }
                            }
                        }
                    } else {
                        assert(edge_source(*graph, e as int) == node);
                        assert(e != saturating_edge);
                    }
                }
            }
        }
        proof {
            assert forall|e: usize|
                e < graph_edges(*graph).len() && bit_at(self.saturated_edges, e as int) && (edge_source(*graph, e as int) == subtree_root || (bit_at(
                    tree.nodes,
                    edge_source(*graph, e as int) as int,
                ) && !bit_at(old_nodes, edge_source(*graph, e as int) as int))) implies #[trigger] bit_at(tree.edges, e as int) by {
                assert(processed.contains(edge_source(*graph, e as int)));
            }
        }
        true
    }

    /// Adds `e` to the tree, with its weight unless it was in the tree already. `None`, the tree
    /// left as it is, when adding its weight would overflow the tree's `u32` weight.
    fn add_tree_edge(&self, graph: &Graph<(), u32>, tree: &mut SteinerTree, e: usize) -> (added: Option<bool>)
        requires
            old(tree).wf(*graph),
            e < graph_edges(*graph).len(),
        ensures
            added is None ==> *final(tree) == *old(tree) && !bit_at(old(tree).edges, e as int) && old(tree).total_weight
                + edge_weight(*graph, e as int) > u32::MAX,
            final(tree).wf(*graph),
            final(tree).nodes == old(tree).nodes,
            final(tree).terminals == old(tree).terminals,
            final(tree).is_terminal == old(tree).is_terminal,
            final(tree).total_weight + tree_weight_left(*graph, *final(tree)) == old(tree).total_weight
                + tree_weight_left(*graph, *old(tree)),
            added matches Some(a) ==> a == !bit_at(old(tree).edges, e as int),
            added is Some ==> bitset_bits(final(tree).edges) == bitset_bits(old(tree).edges).update(e as int, true),
            added == Some(true) ==> count_true(bitset_bits(final(tree).edges)) == count_true(bitset_bits(old(tree).edges))
                + 1,
            added != Some(true) ==> count_true(bitset_bits(final(tree).edges)) == count_true(bitset_bits(old(tree).edges)),
    {
        let ghost before = bitset_bits(tree.edges);
        if bitset_contains(&tree.edges, e) {
            let _ = bitset_put(&mut tree.edges, e);
            proof {
                assert(bitset_bits(tree.edges) =~= before);
            }
            return Some(false);
        }
        let w = weight_of(graph, e);
        if tree.total_weight > u32::MAX - w {
            return None;
        }
        let _ = bitset_put(&mut tree.edges, e);
        proof {
            lemma_weight_outside_set(*graph, before, e as int, graph_edges(*graph).len());
            lemma_count_true_set(before, e as int);
        }
        tree.total_weight = tree.total_weight + w;
        Some(true)
    }

    /// The cheapest incoming edge of `node` that is neither marked nor saturated. On equal
    /// weights the first one listed by the graph is kept.
    pub fn find_next_edge_in_t_minus(&self, graph: &Graph<(), u32>, node: usize) -> (r: Option<NextSaturatingEdge>)
        requires
            node < graph_node_count(*graph),
            bitset_bits(self.marked_or_saturated_edges).len() == graph_edges(*graph).len(),
        ensures
            is_next_edge(*graph, self.marked_or_saturated_edges, node, r),
            r matches Some(n) ==> is_first_cheapest(
                *graph,
                self.marked_or_saturated_edges,
                node,
                listed_edges(*graph, graph_edge_order(*graph), node, true),
                n.id,
            ),
    {
        let incoming = edges_directed(graph, node, true);
        let mut min_weight: u32 = u32::MAX;
        let mut best: Option<NextSaturatingEdge> = None;
        let ghost mut best_k: int = 0;
        let mut i: usize = 0;
        while i < incoming.len()
            invariant
                0 <= i <= incoming@.len(),
                best is Some ==> {
                    &&& 0 <= best_k < i
                    &&& incoming@[best_k] == best->0.id
                    &&& forall|j: int|
                        0 <= j < best_k && is_candidate_edge(
                            *graph,
                            self.marked_or_saturated_edges,
                            node,
                            #[trigger] incoming@[j],
                        ) ==> min_weight < edge_weight(*graph, incoming@[j] as int)
                },
                incoming@.no_duplicates(),
                forall|k: int|
                    0 <= k < incoming@.len() ==> #[trigger] incoming@[k] < graph_edges(*graph).len(),
                forall|e: usize|
                    e < graph_edges(*graph).len() ==> (incoming@.contains(e) <==> edge_target(
                        *graph,
                        e as int,
                    ) == node),
                best is None ==> min_weight == u32::MAX,
                best matches Some(n) ==> {
                    &&& is_candidate_edge(*graph, self.marked_or_saturated_edges, node, n.id)
                    &&& n.weight == edge_weight(*graph, n.id as int)
                    &&& n.target == node
                    &&& min_weight == n.weight
                },
                forall|k: int|
                    0 <= k < i && is_candidate_edge(*graph, self.marked_or_saturated_edges, node, #[trigger] incoming@[k])
                        ==> min_weight <= edge_weight(*graph, incoming@[k] as int) && best is Some,
            decreases incoming@.len() - i,
        {
            let e = incoming[i];
            assert(incoming@.contains(e));
            let marked = bitset_contains(&self.marked_or_saturated_edges, e);
            let w = weight_of(graph, e);
            if !marked && w < min_weight {
                min_weight = w;
                best = Some(NextSaturatingEdge { id: e, weight: w, target: node });
                proof {
                    best_k = i as int;
                }
            }
            i = i + 1;
        }
        proof {
            assert forall|e: usize| is_candidate_edge(*graph, self.marked_or_saturated_edges, node, e) implies (
            best is Some && best->0.weight <= edge_weight(*graph, e as int)) by {
                assert(incoming@.contains(e));
                let k = choose|k: int| 0 <= k < incoming@.len() && incoming@[k] == e;
                assert(is_candidate_edge(*graph, self.marked_or_saturated_edges, node, incoming@[k]));
            }
            if best is Some {
                assert(is_first_cheapest(
                    *graph,
                    self.marked_or_saturated_edges,
                    node,
                    incoming@,
                    best->0.id,
                ));
            }
        }
        best
    }
}

} // verus!
