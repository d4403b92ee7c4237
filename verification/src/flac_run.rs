//! What holds all through one run of the flow simulation, and why the tree stays a tree.
//!
//! Within a run, a node's feeding set holds only terminals whose water climbed saturated edges
//! up to it, and every such terminal while the node can still take water (it has a candidate
//! edge); at most one climb of saturated edges leads from any node to a node that can still take
//! water; and every saturated edge carries the water of some terminal. Degenerate flow detection
//! keeps all of this true from one saturation to the next, so when water reaches the tree, what
//! `Flow::add_subtree` adds hangs off the tree as a tree.
use crate::bitset::{bit_at, bitset_bits};
use crate::flac::{
    adds_subtree, feeds_apart, feeds_only_own_terminals, flow_spread, has_candidate, is_candidate_edge,
    is_degenerate, is_next_edge, is_saturation_step, is_up_edge, is_up_path, is_up_step, lemma_reaches_up_prepend,
    rate_updates, reaches_up, saturated_outside_tree, takes_flow, FlacControlFlow, Flow, HeapUpdate, NextSaturatingEdge,
};
use crate::graph::{edge_source, edge_target, edge_weight, edges_join_nodes, graph_edges, graph_node_count};
use crate::steiner_tree::{
    climbs, climbs_unique, lemma_climbs_concat, lemma_climbs_mono, reaches_by, SteinerTree,
};
use fixedbitset::FixedBitSet;
use petgraph::Graph;
use vstd::prelude::*;

verus! {

/// Terminal index `i` pours water in this run: it is not connected to the tree yet.
pub open spec fn pours(flow: Flow, terminals: Seq<usize>, i: int) -> bool {
    0 <= i < terminals.len() && !bit_at(flow.root_feeding_terminals, i)
}

/// The edge a clock update is about.
pub open spec fn update_edge(u: HeapUpdate) -> usize {
    match u {
        HeapUpdate::Push { edge, .. } => edge,
        HeapUpdate::Rescale { edge, .. } => edge,
        HeapUpdate::PushAfter { edge, .. } => edge,
    }
}

/// `e` may saturate next in this run: a candidate edge into a node that some terminal feeds.
pub open spec fn is_fed_candidate(g: Graph<(), u32>, flow: Flow, e: usize) -> bool {
    &&& is_candidate_edge(g, flow.marked_or_saturated_edges, edge_target(g, e as int), e)
    &&& exists|i: int| #[trigger] bit_at(flow.node_to_feeding_terminals@[edge_target(g, e as int) as int], i)
}

/// `grown` holds the bits of `sat` and bit `f`, nothing else.
pub open spec fn adds_edge(sat: FixedBitSet, grown: FixedBitSet, f: usize) -> bool {
    forall|e: int| #[trigger] bit_at(grown, e) == (bit_at(sat, e) || e == f as int)
}

/// A climb of saturated edges is a path of water going up.
pub proof fn lemma_climbs_reach_up(g: Graph<(), u32>, sat: FixedBitSet, es: Seq<usize>, x: usize, c: usize)
    requires
        climbs(g, sat, es, x, c),
    ensures
        reaches_up(g, sat, x, c),
    decreases es.len(),
{
    if es.len() == 0 {
        assert(is_up_path(g, sat, seq![x]));
    } else {
        let y = edge_source(g, es[0] as int);
        lemma_climbs_reach_up(g, sat, es.drop_first(), y, c);
        assert(is_up_edge(g, sat, es[0], x, y));
        lemma_reaches_up_prepend(g, sat, x, es[0], y, c);
    }
}

/// The edges of a path of water going up, one per step.
proof fn lemma_path_climbs(g: Graph<(), u32>, sat: FixedBitSet, p: Seq<usize>) -> (es: Seq<usize>)
    requires
        is_up_path(g, sat, p),
    ensures
        climbs(g, sat, es, p[0], p.last()),
    decreases p.len(),
{
    if p.len() == 1 {
        Seq::empty()
    } else {
        let q = p.drop_first();
        assert forall|i: int| 0 <= i < q.len() - 1 implies #[trigger] is_up_step(g, sat, q[i], q[i + 1]) by {
            let j = i + 1;
            assert(is_up_step(g, sat, p[j], p[j + 1]));
            assert(q[i] == p[j] && q[i + 1] == p[j + 1]);
        }
        let rest = lemma_path_climbs(g, sat, q);
        let k: int = 0;
        assert(is_up_step(g, sat, p[k], p[k + 1]));
        let e = choose|e: usize| #[trigger] is_up_edge(g, sat, e, p[k], p[k + 1]);
        let es = seq![e] + rest;
        assert(es.drop_first() =~= rest);
        assert(q.last() == p.last());
        es
    }
}

/// A path of water going up is a climb of saturated edges.
pub proof fn lemma_reach_up_climbs(g: Graph<(), u32>, sat: FixedBitSet, x: usize, c: usize)
    requires
        reaches_up(g, sat, x, c),
    ensures
        reaches_by(g, sat, x, c),
{
    let p = choose|p: Seq<usize>| #[trigger] is_up_path(g, sat, p) && p[0] == x && p.last() == c;
    let es = lemma_path_climbs(g, sat, p);
    assert(climbs(g, sat, es, x, c));
}

/// A climb along `sat` and `f` either climbs along `sat` alone, or goes through `f`: a climb
/// along `sat` up to the target of `f`, then `f`, then a climb from the source of `f`.
proof fn lemma_climb_split(
    g: Graph<(), u32>,
    sat: FixedBitSet,
    grown: FixedBitSet,
    f: usize,
    es: Seq<usize>,
    x: usize,
    c: usize,
) -> (r: Option<(Seq<usize>, Seq<usize>)>)
    requires
        adds_edge(sat, grown, f),
        climbs(g, grown, es, x, c),
    ensures
        r is None ==> climbs(g, sat, es, x, c),
        r matches Some((p, q)) ==> {
            &&& es == p + seq![f] + q
            &&& climbs(g, sat, p, x, edge_target(g, f as int))
            &&& climbs(g, grown, q, edge_source(g, f as int), c)
        },
    decreases es.len(),
{
    if es.len() == 0 {
        None
    } else if es[0] == f {
        let q = es.drop_first();
        assert(es =~= Seq::<usize>::empty() + seq![f] + q);
        assert(climbs(g, sat, Seq::<usize>::empty(), x, edge_target(g, f as int)));
        Some((Seq::empty(), q))
    } else {
        let y = edge_source(g, es[0] as int);
        assert(bit_at(sat, es[0] as int));
        match lemma_climb_split(g, sat, grown, f, es.drop_first(), y, c) {
            None => None,
            Some((p1, q1)) => {
                let p = seq![es[0]] + p1;
                assert(p.drop_first() =~= p1);
                assert(es =~= seq![es[0]] + es.drop_first());
                assert(seq![es[0]] + (p1 + seq![f] + q1) =~= p + seq![f] + q1);
                Some((p, q1))
            },
        }
    }
}

/// When no climb along `sat` leads from the source of `f` to its target, a climb along `sat`
/// and `f` goes through `f` at most once.
proof fn lemma_climb_through(
    g: Graph<(), u32>,
    sat: FixedBitSet,
    grown: FixedBitSet,
    f: usize,
    es: Seq<usize>,
    x: usize,
    c: usize,
) -> (r: Option<(Seq<usize>, Seq<usize>)>)
    requires
        adds_edge(sat, grown, f),
        climbs(g, grown, es, x, c),
        !reaches_by(g, sat, edge_source(g, f as int), edge_target(g, f as int)),
    ensures
        r is None ==> climbs(g, sat, es, x, c),
        r matches Some((p, q)) ==> {
            &&& es == p + seq![f] + q
            &&& climbs(g, sat, p, x, edge_target(g, f as int))
            &&& climbs(g, sat, q, edge_source(g, f as int), c)
        },
{
    match lemma_climb_split(g, sat, grown, f, es, x, c) {
        None => None,
        Some((p, q)) => {
            if let Some((p2, _q2)) = lemma_climb_split(g, sat, grown, f, q, edge_source(g, f as int), c) {
                assert(climbs(g, sat, p2, edge_source(g, f as int), edge_target(g, f as int)));
            }
            Some((p, q))
        },
    }
}

/// What holds of the flow all through a run whose terminals are `terminals`:
/// - a node's feeding set holds only terminals that pour and whose water climbed saturated
///   edges up to the node;
/// - a node that can still take water (it has a candidate edge) is fed by every terminal that
///   pours and whose water climbs up to it;
/// - at most one climb of saturated edges leads from any node to a node that can still take
///   water;
/// - the water of some terminal that pours climbs up to the target of every saturated edge.
pub open spec fn flac_inv(g: Graph<(), u32>, terminals: Seq<usize>, flow: Flow) -> bool {
    &&& forall|c: usize, i: int|
        c < graph_node_count(g) && #[trigger] bit_at(flow.node_to_feeding_terminals@[c as int], i) ==> pours(
            flow,
            terminals,
            i,
        ) && reaches_by(g, flow.saturated_edges, terminals[i], c)
    &&& forall|c: usize, i: int|
        c < graph_node_count(g) && has_candidate(g, flow.marked_or_saturated_edges, c) && pours(flow, terminals, i)
            && #[trigger] reaches_by(g, flow.saturated_edges, terminals[i], c) ==> bit_at(
            flow.node_to_feeding_terminals@[c as int],
            i,
        )
    &&& forall|x: usize, c: usize|
        c < graph_node_count(g) && has_candidate(g, flow.marked_or_saturated_edges, c) ==> #[trigger] climbs_unique(
            g,
            flow.saturated_edges,
            x,
            c,
        )
    &&& forall|e: usize|
        e < graph_edges(g).len() && #[trigger] bit_at(flow.saturated_edges, e as int) ==> exists|i: int|
            pours(flow, terminals, i) && #[trigger] reaches_by(
                g,
                flow.saturated_edges,
                terminals[i],
                edge_target(g, e as int),
            )
}

/// Nothing climbs edges of an empty set.
proof fn lemma_no_climb_in_nothing(g: Graph<(), u32>, sat: FixedBitSet, es: Seq<usize>, x: usize, c: usize)
    requires
        forall|e: int| !#[trigger] bit_at(sat, e),
        climbs(g, sat, es, x, c),
    ensures
        es.len() == 0,
        x == c,
{
    if es.len() > 0 {
        assert(bit_at(sat, es[0] as int));
    }
}

/// With nothing saturated, each terminal that pours feeding its own node (when that node can
/// take water) and nothing else, the invariant holds: this is how a run starts.
pub proof fn lemma_fresh_run(g: Graph<(), u32>, terminals: Seq<usize>, flow: Flow)
    requires
        flow.node_to_feeding_terminals@.len() == graph_node_count(g),
        feeds_only_own_terminals(flow, terminals),
        forall|e: int| !#[trigger] bit_at(flow.saturated_edges, e),
        forall|i: int|
            pours(flow, terminals, i) && has_candidate(g, flow.marked_or_saturated_edges, #[trigger] terminals[i])
                ==> bit_at(flow.node_to_feeding_terminals@[terminals[i] as int], i),
    ensures
        flac_inv(g, terminals, flow),
{
    let sat = flow.saturated_edges;
    assert forall|c: usize, i: int|
        c < graph_node_count(g) && #[trigger] bit_at(flow.node_to_feeding_terminals@[c as int], i) implies pours(
            flow,
            terminals,
            i,
        ) && reaches_by(g, sat, terminals[i], c) by {
        assert(climbs(g, sat, Seq::empty(), terminals[i], c));
    }
    assert forall|c: usize, i: int|
        c < graph_node_count(g) && has_candidate(g, flow.marked_or_saturated_edges, c) && pours(flow, terminals, i)
            && #[trigger] reaches_by(g, sat, terminals[i], c) implies bit_at(flow.node_to_feeding_terminals@[c as int], i) by {
        let es = choose|es: Seq<usize>| #[trigger] climbs(g, sat, es, terminals[i], c);
        lemma_no_climb_in_nothing(g, sat, es, terminals[i], c);
    }
    assert forall|x: usize, c: usize|
        c < graph_node_count(g) && has_candidate(g, flow.marked_or_saturated_edges, c) implies #[trigger] climbs_unique(
            g,
            sat,
            x,
            c,
        ) by {
        assert forall|a: Seq<usize>, b: Seq<usize>| climbs(g, sat, a, x, c) && climbs(g, sat, b, x, c) implies a == b by {
            lemma_no_climb_in_nothing(g, sat, a, x, c);
            lemma_no_climb_in_nothing(g, sat, b, x, c);
            assert(a =~= b);
        }
    }
}

/// A node that can take water once more edges are marked could take it before.
proof fn lemma_candidate_kept(g: Graph<(), u32>, before: FixedBitSet, after: FixedBitSet, n: usize)
    requires
        forall|k: int| #[trigger] bit_at(before, k) ==> bit_at(after, k),
        has_candidate(g, after, n),
    ensures
        has_candidate(g, before, n),
{
    let e = choose|e: usize| is_candidate_edge(g, after, n, e);
    assert(is_candidate_edge(g, before, n, e));
}

/// Marking edges, with nothing else changed, keeps the invariant.
proof fn lemma_fewer_candidates(g: Graph<(), u32>, terminals: Seq<usize>, before: Flow, after: Flow)
    requires
        flac_inv(g, terminals, before),
        after.saturated_edges == before.saturated_edges,
        after.node_to_feeding_terminals@ == before.node_to_feeding_terminals@,
        after.root_feeding_terminals == before.root_feeding_terminals,
        forall|k: int| #[trigger] bit_at(before.marked_or_saturated_edges, k) ==> bit_at(after.marked_or_saturated_edges, k),
    ensures
        flac_inv(g, terminals, after),
{
    let sat = before.saturated_edges;
    assert forall|c: usize, i: int|
        c < graph_node_count(g) && has_candidate(g, after.marked_or_saturated_edges, c) && pours(after, terminals, i)
            && #[trigger] reaches_by(g, sat, terminals[i], c) implies bit_at(after.node_to_feeding_terminals@[c as int], i) by {
        lemma_candidate_kept(g, before.marked_or_saturated_edges, after.marked_or_saturated_edges, c);
    }
    assert forall|x: usize, c: usize|
        c < graph_node_count(g) && has_candidate(g, after.marked_or_saturated_edges, c) implies #[trigger] climbs_unique(
            g,
            sat,
            x,
            c,
        ) by {
        lemma_candidate_kept(g, before.marked_or_saturated_edges, after.marked_or_saturated_edges, c);
    }
}

/// The facts of a saturation that lets water spread (see `is_saturation_step`) that the
/// invariant rests on: `e`, from `u` into `v`, joins the saturated edges, water of the
/// terminals feeding `v` spreads above `u` without degenerating, `v` could still take water
/// through `e`, and some terminal feeds `v`.
pub open spec fn spreads_through(g: Graph<(), u32>, before: Flow, after: Flow, e: usize) -> bool {
    let u = edge_source(g, e as int);
    let v = edge_target(g, e as int);
    let marked = Flow { marked_or_saturated_edges: after.marked_or_saturated_edges, ..before };
    &&& e < graph_edges(g).len()
    &&& adds_edge(before.saturated_edges, after.saturated_edges, e)
    &&& flow_spread(g, marked, after, u, v)
    &&& !is_degenerate(g, marked, u, v)
    &&& after.root_feeding_terminals == before.root_feeding_terminals
    &&& forall|k: int| #[trigger] bit_at(before.marked_or_saturated_edges, k) ==> bit_at(after.marked_or_saturated_edges, k)
    &&& has_candidate(g, before.marked_or_saturated_edges, v)
    &&& exists|i: int| #[trigger] bit_at(before.node_to_feeding_terminals@[v as int], i)
}

/// Before a spreading saturation, no climb leads from the source of the edge to its target
/// (that would be degenerate flow).
proof fn lemma_no_climb_back(g: Graph<(), u32>, terminals: Seq<usize>, before: Flow, after: Flow, e: usize)
    requires
        edges_join_nodes(g),
        flac_inv(g, terminals, before),
        spreads_through(g, before, after, e),
    ensures
        !reaches_by(g, before.saturated_edges, edge_source(g, e as int), edge_target(g, e as int)),
{
    let u = edge_source(g, e as int);
    let v = edge_target(g, e as int);
    let sat = before.saturated_edges;
    let marked = Flow { marked_or_saturated_edges: after.marked_or_saturated_edges, ..before };
    if reaches_by(g, sat, u, v) {
        let es = choose|es: Seq<usize>| #[trigger] climbs(g, sat, es, u, v);
        lemma_climbs_reach_up(g, sat, es, u, v);
        let i = choose|i: int| #[trigger] bit_at(before.node_to_feeding_terminals@[v as int], i);
        assert(bit_at(before.node_to_feeding_terminals@[v as int], i) && bit_at(before.node_to_feeding_terminals@[v as int], i));
        assert(edge_source(g, e as int) < graph_node_count(g));
        assert(reaches_up(g, marked.saturated_edges, u, v));
        assert(is_degenerate(g, marked, u, v));
    }
}

/// Some terminal that pours and feeds `v` (a node that can still take water and that some
/// terminal feeds) sends its water up to any node `x` that climbs to `v`.
proof fn lemma_water_below(
    g: Graph<(), u32>,
    terminals: Seq<usize>,
    flow: Flow,
    v: usize,
    x: usize,
    p: Seq<usize>,
) -> (i: int)
    requires
        flac_inv(g, terminals, flow),
        v < graph_node_count(g),
        has_candidate(g, flow.marked_or_saturated_edges, v),
        exists|i: int| #[trigger] bit_at(flow.node_to_feeding_terminals@[v as int], i),
        climbs(g, flow.saturated_edges, p, x, v),
    ensures
        pours(flow, terminals, i),
        reaches_by(g, flow.saturated_edges, terminals[i], x),
        bit_at(flow.node_to_feeding_terminals@[v as int], i),
{
    let sat = flow.saturated_edges;
    if p.len() == 0 {
        let i = choose|i: int| #[trigger] bit_at(flow.node_to_feeding_terminals@[v as int], i);
        i
    } else {
        assert(bit_at(sat, p[0] as int));
        let i = choose|i: int|
            pours(flow, terminals, i) && #[trigger] reaches_by(g, sat, terminals[i], edge_target(g, p[0] as int));
        let t0 = choose|t0: Seq<usize>| #[trigger] climbs(g, sat, t0, terminals[i], x);
        lemma_climbs_concat(g, sat, t0, p, terminals[i], x, v);
        assert(reaches_by(g, sat, terminals[i], v));
        i
    }
}

/// An old climb from `x` to a node `c` that can still take water, beside a climb from `x` to
/// `v` (fed, and able to take water) and one from `u` to `c`: then water climbs from `u` to `c`
/// and some terminal feeds both `c` and `v`, which is what makes saturating an edge from `u`
/// into `v` degenerate.
proof fn lemma_second_way_shares_water(
    g: Graph<(), u32>,
    terminals: Seq<usize>,
    flow: Flow,
    u: usize,
    v: usize,
    x: usize,
    c: usize,
    w: Seq<usize>,
    p: Seq<usize>,
    q: Seq<usize>,
)
    requires
        flac_inv(g, terminals, flow),
        v < graph_node_count(g),
        has_candidate(g, flow.marked_or_saturated_edges, v),
        exists|i: int| #[trigger] bit_at(flow.node_to_feeding_terminals@[v as int], i),
        c < graph_node_count(g),
        has_candidate(g, flow.marked_or_saturated_edges, c),
        climbs(g, flow.saturated_edges, w, x, c),
        climbs(g, flow.saturated_edges, p, x, v),
        climbs(g, flow.saturated_edges, q, u, c),
    ensures
        reaches_up(g, flow.saturated_edges, u, c),
        !feeds_apart(flow.node_to_feeding_terminals@[c as int], flow.node_to_feeding_terminals@[v as int]),
{
    let sat = flow.saturated_edges;
    let i = lemma_water_below(g, terminals, flow, v, x, p);
    let t0 = choose|t0: Seq<usize>| #[trigger] climbs(g, sat, t0, terminals[i], x);
    lemma_climbs_concat(g, sat, t0, w, terminals[i], x, c);
    assert(reaches_by(g, sat, terminals[i], c));
    assert(bit_at(flow.node_to_feeding_terminals@[c as int], i));
    lemma_climbs_reach_up(g, sat, q, u, c);
    assert(bit_at(flow.node_to_feeding_terminals@[c as int], i) && bit_at(flow.node_to_feeding_terminals@[v as int], i));
}

/// After a spreading saturation, climbs to a node that can take water are still unique.
proof fn lemma_unique_after(
    g: Graph<(), u32>,
    terminals: Seq<usize>,
    before: Flow,
    after: Flow,
    e: usize,
    x: usize,
    c: usize,
)
    requires
        edges_join_nodes(g),
        flac_inv(g, terminals, before),
        spreads_through(g, before, after, e),
        c < graph_node_count(g),
        has_candidate(g, after.marked_or_saturated_edges, c),
    ensures
        climbs_unique(g, after.saturated_edges, x, c),
{
    let u = edge_source(g, e as int);
    let v = edge_target(g, e as int);
    let sat = before.saturated_edges;
    let grown = after.saturated_edges;
    let marked = Flow { marked_or_saturated_edges: after.marked_or_saturated_edges, ..before };
    assert(edge_source(g, e as int) < graph_node_count(g));
    lemma_no_climb_back(g, terminals, before, after, e);
    lemma_candidate_kept(g, before.marked_or_saturated_edges, after.marked_or_saturated_edges, c);
    assert(climbs_unique(g, sat, x, c));
    assert(climbs_unique(g, sat, x, v));
    assert(climbs_unique(g, sat, u, c));
    assert forall|a: Seq<usize>, b: Seq<usize>| climbs(g, grown, a, x, c) && climbs(g, grown, b, x, c) implies a == b by {
        let ra = lemma_climb_through(g, sat, grown, e, a, x, c);
        let rb = lemma_climb_through(g, sat, grown, e, b, x, c);
        match ra {
            None => match rb {
                None => {
                    assert(climbs(g, sat, a, x, c) && climbs(g, sat, b, x, c));
                },
                Some((p, q)) => {
                    lemma_second_way_shares_water(g, terminals, before, u, v, x, c, a, p, q);
                    assert(reaches_up(g, marked.saturated_edges, u, c));
                    assert(is_degenerate(g, marked, u, v));
                },
            },
            Some((p1, q1)) => match rb {
                None => {
                    lemma_second_way_shares_water(g, terminals, before, u, v, x, c, b, p1, q1);
                    assert(reaches_up(g, marked.saturated_edges, u, c));
                    assert(is_degenerate(g, marked, u, v));
                },
                Some((p2, q2)) => {
                    assert(climbs(g, sat, p1, x, v) && climbs(g, sat, p2, x, v));
                    assert(climbs(g, sat, q1, u, c) && climbs(g, sat, q2, u, c));
                },
            },
        }
    }
}

/// After a spreading saturation, a node that can take water is fed by every terminal that
/// pours and whose water climbs up to it.
proof fn lemma_fed_after(
    g: Graph<(), u32>,
    terminals: Seq<usize>,
    before: Flow,
    after: Flow,
    e: usize,
    c: usize,
    i: int,
    es: Seq<usize>,
)
    requires
        edges_join_nodes(g),
        before.node_to_feeding_terminals@.len() == graph_node_count(g),
        flac_inv(g, terminals, before),
        spreads_through(g, before, after, e),
        c < graph_node_count(g),
        has_candidate(g, after.marked_or_saturated_edges, c),
        pours(after, terminals, i),
        climbs(g, after.saturated_edges, es, terminals[i], c),
    ensures
        bit_at(after.node_to_feeding_terminals@[c as int], i),
{
    let u = edge_source(g, e as int);
    let v = edge_target(g, e as int);
    let sat = before.saturated_edges;
    let grown = after.saturated_edges;
    let marked = Flow { marked_or_saturated_edges: after.marked_or_saturated_edges, ..before };
    assert(edge_source(g, e as int) < graph_node_count(g));
    lemma_no_climb_back(g, terminals, before, after, e);
    lemma_candidate_kept(g, before.marked_or_saturated_edges, after.marked_or_saturated_edges, c);
    match lemma_climb_through(g, sat, grown, e, es, terminals[i], c) {
        None => {
            assert(reaches_by(g, sat, terminals[i], c));
            assert(bit_at(before.node_to_feeding_terminals@[c as int], i));
            if c != v {
                assert(bit_at(after.node_to_feeding_terminals@[c as int], i) == (bit_at(marked.node_to_feeding_terminals@[c as int], i) || (
                takes_flow(g, marked, u, c) && bit_at(marked.node_to_feeding_terminals@[v as int], i))));
            }
        },
        Some((p, q)) => {
            assert(reaches_by(g, sat, terminals[i], v));
            assert(bit_at(before.node_to_feeding_terminals@[v as int], i));
            lemma_climbs_reach_up(g, sat, q, u, c);
            assert(takes_flow(g, marked, u, c));
            if c == v {
                assert(reaches_by(g, sat, u, v));
            }
            assert(bit_at(after.node_to_feeding_terminals@[c as int], i) == (bit_at(marked.node_to_feeding_terminals@[c as int], i) || (
            takes_flow(g, marked, u, c) && bit_at(marked.node_to_feeding_terminals@[v as int], i))));
        },
    }
}

/// After a spreading saturation, every terminal in a feeding set pours and its water climbs up
/// to the node.
proof fn lemma_fed_sound_after(
    g: Graph<(), u32>,
    terminals: Seq<usize>,
    before: Flow,
    after: Flow,
    e: usize,
    c: usize,
    i: int,
)
    requires
        edges_join_nodes(g),
        before.node_to_feeding_terminals@.len() == graph_node_count(g),
        flac_inv(g, terminals, before),
        spreads_through(g, before, after, e),
        c < graph_node_count(g),
        bit_at(after.node_to_feeding_terminals@[c as int], i),
    ensures
        pours(after, terminals, i),
        reaches_by(g, after.saturated_edges, terminals[i], c),
{
    let u = edge_source(g, e as int);
    let v = edge_target(g, e as int);
    let sat = before.saturated_edges;
    let grown = after.saturated_edges;
    let marked = Flow { marked_or_saturated_edges: after.marked_or_saturated_edges, ..before };
    assert(edge_source(g, e as int) < graph_node_count(g));
    assert forall|k: int| #[trigger] bit_at(sat, k) implies bit_at(grown, k) by {}
    if c != v {
        assert(bit_at(after.node_to_feeding_terminals@[c as int], i) == (bit_at(marked.node_to_feeding_terminals@[c as int], i) || (
        takes_flow(g, marked, u, c) && bit_at(marked.node_to_feeding_terminals@[v as int], i))));
    }
    if c == v || bit_at(before.node_to_feeding_terminals@[c as int], i) {
        assert(bit_at(before.node_to_feeding_terminals@[c as int], i));
        let es = choose|es: Seq<usize>| #[trigger] climbs(g, sat, es, terminals[i], c);
        lemma_climbs_mono(g, sat, grown, es, terminals[i], c);
    } else {
        assert(takes_flow(g, marked, u, c) && bit_at(before.node_to_feeding_terminals@[v as int], i));
        let t0 = choose|t0: Seq<usize>| #[trigger] climbs(g, sat, t0, terminals[i], v);
        lemma_reach_up_climbs(g, sat, u, c);
        let q = choose|q: Seq<usize>| #[trigger] climbs(g, sat, q, u, c);
        lemma_climbs_mono(g, sat, grown, t0, terminals[i], v);
        lemma_climbs_mono(g, sat, grown, q, u, c);
        let one = seq![e];
        assert(one.drop_first() =~= Seq::<usize>::empty());
        assert(climbs(g, grown, Seq::<usize>::empty(), u, u));
        assert(climbs(g, grown, one, v, u));
        lemma_climbs_concat(g, grown, t0, one, terminals[i], v, u);
        lemma_climbs_concat(g, grown, t0 + one, q, terminals[i], u, c);
    }
}

/// After a spreading saturation, the water of some terminal that pours climbs up to the target
/// of every saturated edge.
proof fn lemma_wet_after(g: Graph<(), u32>, terminals: Seq<usize>, before: Flow, after: Flow, e: usize, f: usize)
    requires
        edges_join_nodes(g),
        flac_inv(g, terminals, before),
        spreads_through(g, before, after, e),
        f < graph_edges(g).len(),
        bit_at(after.saturated_edges, f as int),
    ensures
        exists|i: int|
            pours(after, terminals, i) && #[trigger] reaches_by(
                g,
                after.saturated_edges,
                terminals[i],
                edge_target(g, f as int),
            ),
{
    let v = edge_target(g, e as int);
    let sat = before.saturated_edges;
    let grown = after.saturated_edges;
    assert(edge_source(g, e as int) < graph_node_count(g));
    assert forall|k: int| #[trigger] bit_at(sat, k) implies bit_at(grown, k) by {}
    let i = if f == e {
        let i = choose|i: int| #[trigger] bit_at(before.node_to_feeding_terminals@[v as int], i);
        i
    } else {
        assert(bit_at(sat, f as int));
        let i = choose|i: int|
            pours(before, terminals, i) && #[trigger] reaches_by(g, sat, terminals[i], edge_target(g, f as int));
        i
    };
    assert(pours(before, terminals, i) && reaches_by(g, sat, terminals[i], edge_target(g, f as int)));
    let es = choose|es: Seq<usize>| #[trigger] climbs(g, sat, es, terminals[i], edge_target(g, f as int));
    lemma_climbs_mono(g, sat, grown, es, terminals[i], edge_target(g, f as int));
    assert(reaches_by(g, grown, terminals[i], edge_target(g, f as int)));
}

/// A spreading saturation keeps the invariant.
proof fn lemma_spread_keeps_inv(g: Graph<(), u32>, terminals: Seq<usize>, before: Flow, after: Flow, e: usize)
    requires
        edges_join_nodes(g),
        before.node_to_feeding_terminals@.len() == graph_node_count(g),
        flac_inv(g, terminals, before),
        spreads_through(g, before, after, e),
    ensures
        flac_inv(g, terminals, after),
{
    let grown = after.saturated_edges;
    assert forall|c: usize, i: int|
        c < graph_node_count(g) && #[trigger] bit_at(after.node_to_feeding_terminals@[c as int], i) implies pours(
            after,
            terminals,
            i,
        ) && reaches_by(g, grown, terminals[i], c) by {
        lemma_fed_sound_after(g, terminals, before, after, e, c, i);
    }
    assert forall|c: usize, i: int|
        c < graph_node_count(g) && has_candidate(g, after.marked_or_saturated_edges, c) && pours(after, terminals, i)
            && #[trigger] reaches_by(g, grown, terminals[i], c) implies bit_at(after.node_to_feeding_terminals@[c as int], i) by {
        let es = choose|es: Seq<usize>| #[trigger] climbs(g, grown, es, terminals[i], c);
        lemma_fed_after(g, terminals, before, after, e, c, i, es);
    }
    assert forall|x: usize, c: usize|
        c < graph_node_count(g) && has_candidate(g, after.marked_or_saturated_edges, c) implies #[trigger] climbs_unique(
            g,
            grown,
            x,
            c,
        ) by {
        lemma_unique_after(g, terminals, before, after, e, x, c);
    }
    assert forall|f: usize| f < graph_edges(g).len() && #[trigger] bit_at(grown, f as int) implies exists|i: int|
        pours(after, terminals, i) && #[trigger] reaches_by(g, grown, terminals[i], edge_target(g, f as int)) by {
        lemma_wet_after(g, terminals, before, after, e, f);
    }
}

/// Law: within a run, each step of the simulation (`Flow::update_flow_rates`) that goes on,
/// on an edge that may saturate next (a candidate edge into a node that some terminal feeds, as
/// every edge the run schedules is: see `law_step_schedules_fed_candidates`), keeps
/// the run's invariant: feeding sets tell exactly whose water reaches the nodes that can still
/// take water, at most one climb of saturated edges leads to such a node, and every saturated
/// edge carries water.
pub proof fn law_step_keeps_flac_inv(
    g: Graph<(), u32>,
    tree: SteinerTree,
    before: Flow,
    after: Flow,
    e: usize,
    control: FlacControlFlow,
    updates: Seq<HeapUpdate>,
)
    requires
        edges_join_nodes(g),
        before.wf(g),
        flac_inv(g, tree.terminals@, before),
        is_saturation_step(g, tree, before, after, e, control, updates),
        bitset_bits(after.marked_or_saturated_edges) == bitset_bits(before.marked_or_saturated_edges).update(e as int, true),
        is_fed_candidate(g, before, e),
        control == FlacControlFlow::Continue,
    ensures
        flac_inv(g, tree.terminals@, after),
{
    let u = edge_source(g, e as int);
    let v = edge_target(g, e as int);
    let marked = Flow { marked_or_saturated_edges: after.marked_or_saturated_edges, ..before };
    assert forall|k: int| #[trigger] bit_at(before.marked_or_saturated_edges, k) implies bit_at(
        after.marked_or_saturated_edges,
        k,
    ) by {}
    assert(has_candidate(g, before.marked_or_saturated_edges, v));
    if bit_at(tree.nodes, v as int) || is_degenerate(g, marked, u, v) {
        lemma_fewer_candidates(g, tree.terminals@, before, after);
    } else {
        assert forall|k: int| #[trigger] bit_at(after.saturated_edges, k) == (bit_at(before.saturated_edges, k) || k == e as int) by {}
        assert(spreads_through(g, before, after, e));
        lemma_spread_keeps_inv(g, tree.terminals@, before, after, e);
    }
}

/// A climb of saturated edges up to the target of `e`, from a node `Flow::add_subtree` added
/// (or from that target), runs along edges the tree gained.
proof fn lemma_subtree_climb(
    g: Graph<(), u32>,
    flow: Flow,
    before: SteinerTree,
    after: SteinerTree,
    e: usize,
    es: Seq<usize>,
    x: usize,
)
    requires
        adds_subtree(g, flow.saturated_edges, before, after, e),
        before.is_closed(g),
        saturated_outside_tree(g, flow, before),
        climbs(g, flow.saturated_edges, es, x, edge_target(g, e as int)),
    ensures
        climbs(g, after.edges, es, x, edge_target(g, e as int)),
    decreases es.len(),
{
    let v = edge_target(g, e as int);
    let sat = flow.saturated_edges;
    if es.len() > 0 {
        let y = edge_source(g, es[0] as int);
        lemma_subtree_climb(g, flow, before, after, e, es.drop_first(), y);
        assert(climbs(g, sat, es.drop_first(), y, v));
        if es.drop_first().len() == 0 {
            assert(y == v);
        } else {
            let f1 = es.drop_first()[0];
            assert(climbs(g, after.edges, es.drop_first(), y, v));
            assert(bit_at(after.edges, f1 as int));
            assert(bit_at(sat, f1 as int));
            assert(!bit_at(before.nodes, edge_target(g, f1 as int) as int));
            assert(!bit_at(before.edges, f1 as int));
            assert(bit_at(after.nodes, y as int));
        }
        assert(bit_at(after.edges, es[0] as int));
    }
}

/// The edges that `Flow::add_subtree` adds, with the tree's own, never give a node two ways in:
/// two ways into a new node would be two climbs of saturated edges from it up to the target of
/// `e`, which could still take water when `e` saturated.
proof fn lemma_one_edge_in(
    g: Graph<(), u32>,
    terminals: Seq<usize>,
    flow: Flow,
    before: SteinerTree,
    after: SteinerTree,
    e: usize,
    root: usize,
    f1: usize,
    f2: usize,
)
    requires
        edges_join_nodes(g),
        flac_inv(g, terminals, flow),
        saturated_outside_tree(g, flow, before),
        before.is_arborescence(g, root),
        e < graph_edges(g).len(),
        is_candidate_edge(g, flow.marked_or_saturated_edges, edge_target(g, e as int), e),
        !bit_at(before.nodes, edge_target(g, e as int) as int),
        adds_subtree(g, flow.saturated_edges, before, after, e),
        f1 < graph_edges(g).len(),
        f2 < graph_edges(g).len(),
        bit_at(after.edges, f1 as int),
        bit_at(after.edges, f2 as int),
        f1 != f2,
    ensures
        edge_target(g, f1 as int) != edge_target(g, f2 as int),
{
    let v = edge_target(g, e as int);
    let sat = flow.saturated_edges;
    assert(edge_source(g, e as int) < graph_node_count(g));
    assert(has_candidate(g, flow.marked_or_saturated_edges, v));
    let old1 = bit_at(before.edges, f1 as int);
    let old2 = bit_at(before.edges, f2 as int);
    if old1 && old2 {
        assert(bit_at(before.edges, f1 as int) && bit_at(before.edges, f2 as int));
    } else if old1 || old2 {
        let (fo, fn_) = if old1 {
            (f1, f2)
        } else {
            (f2, f1)
        };
        assert(bit_at(before.nodes, edge_target(g, fo as int) as int));
        if fn_ != e {
            assert(bit_at(sat, fn_ as int));
        }
        assert(!bit_at(before.nodes, edge_target(g, fn_ as int) as int));
    } else if edge_target(g, f1 as int) == edge_target(g, f2 as int) {
        let z = edge_target(g, f1 as int);
        if f1 == e || f2 == e {
            let fo = if f1 == e {
                f2
            } else {
                f1
            };
            assert(bit_at(sat, fo as int));
            lemma_reach_up_climbs(g, sat, edge_source(g, fo as int), v);
            let w = choose|w: Seq<usize>| #[trigger] climbs(g, sat, w, edge_source(g, fo as int), v);
            let a = seq![fo] + w;
            assert(a.drop_first() =~= w);
            assert(climbs(g, sat, a, v, v));
            assert(climbs(g, sat, Seq::<usize>::empty(), v, v));
            assert(climbs_unique(g, sat, v, v));
            assert(a.len() != 0);
        } else {
            assert(bit_at(sat, f1 as int) && bit_at(sat, f2 as int));
            lemma_reach_up_climbs(g, sat, edge_source(g, f1 as int), v);
            lemma_reach_up_climbs(g, sat, edge_source(g, f2 as int), v);
            let w1 = choose|w: Seq<usize>| #[trigger] climbs(g, sat, w, edge_source(g, f1 as int), v);
            let w2 = choose|w: Seq<usize>| #[trigger] climbs(g, sat, w, edge_source(g, f2 as int), v);
            let a1 = seq![f1] + w1;
            let a2 = seq![f2] + w2;
            assert(a1.drop_first() =~= w1);
            assert(a2.drop_first() =~= w2);
            assert(climbs(g, sat, a1, z, v));
            assert(climbs(g, sat, a2, z, v));
            assert(climbs_unique(g, sat, z, v));
            assert(a1[0] != a2[0]);
        }
    }
}

/// Law: when water reaches the tree through the edge `e` (`Flow::update_flow_rates` answers
/// `FoundSubtree`) in a run whose invariant held before that step, the tree that
/// `Flow::add_subtree` builds from the saturated edges is still an arborescence with the same
/// root: what it adds hangs off the tree at the source of `e`, every node is reached by exactly
/// one edge, and no cycle forms.
pub proof fn law_found_subtree_keeps_arborescence(
    g: Graph<(), u32>,
    terminals: Seq<usize>,
    flow: Flow,
    before: SteinerTree,
    after: SteinerTree,
    e: usize,
    root: usize,
)
    requires
        edges_join_nodes(g),
        flac_inv(g, terminals, flow),
        saturated_outside_tree(g, flow, before),
        before.is_arborescence(g, root),
        e < graph_edges(g).len(),
        is_candidate_edge(g, flow.marked_or_saturated_edges, edge_target(g, e as int), e),
        bit_at(before.nodes, edge_source(g, e as int) as int),
        !bit_at(before.nodes, edge_target(g, e as int) as int),
        adds_subtree(g, flow.saturated_edges, before, after, e),
    ensures
        after.is_arborescence(g, root),
{
    let u = edge_source(g, e as int);
    let v = edge_target(g, e as int);
    let sat = flow.saturated_edges;
    assert(edge_source(g, e as int) < graph_node_count(g));
    assert forall|f: usize| f < graph_edges(g).len() && #[trigger] bit_at(after.edges, f as int) implies bit_at(
        after.nodes,
        edge_source(g, f as int) as int,
    ) && bit_at(after.nodes, edge_target(g, f as int) as int) by {
        if bit_at(before.edges, f as int) {
            assert(bit_at(before.nodes, edge_source(g, f as int) as int));
            assert(bit_at(before.nodes, edge_target(g, f as int) as int));
        } else if f == e {
            assert(bit_at(before.nodes, u as int));
        }
    }
    assert forall|f: usize| f < graph_edges(g).len() && #[trigger] bit_at(after.edges, f as int) implies edge_target(
        g,
        f as int,
    ) != root by {
        if !bit_at(before.edges, f as int) && f != e {
            assert(bit_at(sat, f as int));
        }
    }
    assert forall|f1: usize, f2: usize|
        #![trigger bit_at(after.edges, f1 as int), bit_at(after.edges, f2 as int)]
        f1 < graph_edges(g).len() && f2 < graph_edges(g).len() && bit_at(after.edges, f1 as int) && bit_at(
            after.edges,
            f2 as int,
        ) && f1 != f2 implies edge_target(g, f1 as int) != edge_target(g, f2 as int) by {
        lemma_one_edge_in(g, terminals, flow, before, after, e, root, f1, f2);
    }
    assert forall|x: usize| #[trigger] bit_at(after.nodes, x as int) implies reaches_by(g, after.edges, x, root) by {
        assert forall|f: int| #[trigger] bit_at(before.edges, f) implies bit_at(after.edges, f) by {}
        if bit_at(before.nodes, x as int) {
            let w = choose|w: Seq<usize>| #[trigger] climbs(g, before.edges, w, x, root);
            lemma_climbs_mono(g, before.edges, after.edges, w, x, root);
        } else {
            lemma_reach_up_climbs(g, sat, x, v);
            let es = choose|es: Seq<usize>| #[trigger] climbs(g, sat, es, x, v);
            lemma_subtree_climb(g, flow, before, after, e, es, x);
            let one = seq![e];
            assert(one.drop_first() =~= Seq::<usize>::empty());
            assert(climbs(g, after.edges, Seq::<usize>::empty(), u, u));
            assert(climbs(g, after.edges, one, v, u));
            let w = choose|w: Seq<usize>| #[trigger] climbs(g, before.edges, w, u, root);
            lemma_climbs_mono(g, before.edges, after.edges, w, u, root);
            lemma_climbs_concat(g, after.edges, es, one, x, v, u);
            lemma_climbs_concat(g, after.edges, es + one, w, x, u, root);
        }
    }
}

/// Every terminal whose index is marked connected is a node of the tree.
pub open spec fn connected_in_tree(tree: SteinerTree, flow: Flow) -> bool {
    forall|i: int|
        0 <= i < tree.terminals@.len() && #[trigger] bit_at(flow.root_feeding_terminals, i) ==> bit_at(
            tree.nodes,
            tree.terminals@[i] as int,
        )
}

/// Law: under the run's invariant, water reaching the tree never comes from a terminal already
/// connected, so a step (`Flow::update_flow_rates`) never answers `Break`.
pub proof fn law_reaching_tree_never_breaks(
    g: Graph<(), u32>,
    tree: SteinerTree,
    before: Flow,
    after: Flow,
    e: usize,
    control: FlacControlFlow,
    updates: Seq<HeapUpdate>,
)
    requires
        edges_join_nodes(g),
        flac_inv(g, tree.terminals@, before),
        is_saturation_step(g, tree, before, after, e, control, updates),
        e < graph_edges(g).len(),
    ensures
        control != FlacControlFlow::Break,
{
    let v = edge_target(g, e as int);
    assert(edge_source(g, e as int) < graph_node_count(g));
    if control == FlacControlFlow::Break {
        assert(!feeds_apart(before.root_feeding_terminals, before.node_to_feeding_terminals@[v as int]));
        let i = choose|i: int|
            bit_at(before.root_feeding_terminals, i) && bit_at(before.node_to_feeding_terminals@[v as int], i);
        assert(pours(before, tree.terminals@, i));
    }
}

/// Law: a step (`Flow::update_flow_rates`) that finds no subtree connects no terminal, so every
/// terminal marked connected is still a node of the (unchanged) tree.
pub proof fn law_step_keeps_connected_in_tree(
    g: Graph<(), u32>,
    tree: SteinerTree,
    before: Flow,
    after: Flow,
    e: usize,
    control: FlacControlFlow,
    updates: Seq<HeapUpdate>,
)
    requires
        connected_in_tree(tree, before),
        is_saturation_step(g, tree, before, after, e, control, updates),
        !(control is FoundSubtree),
    ensures
        connected_in_tree(tree, after),
{
}

/// Law: when water reaches the tree through `e` (`Flow::update_flow_rates` answers
/// `FoundSubtree`, marking the terminals feeding the target of `e` connected) in a run whose
/// invariant held before that step, every terminal marked connected is a node of the tree that
/// `Flow::add_subtree` builds.
pub proof fn law_found_subtree_connects_terminals(
    g: Graph<(), u32>,
    tree_before: SteinerTree,
    tree_after: SteinerTree,
    before: Flow,
    after: Flow,
    e: usize,
    control: FlacControlFlow,
    updates: Seq<HeapUpdate>,
)
    requires
        edges_join_nodes(g),
        flac_inv(g, tree_before.terminals@, before),
        connected_in_tree(tree_before, before),
        saturated_outside_tree(g, before, tree_before),
        tree_before.is_closed(g),
        is_saturation_step(g, tree_before, before, after, e, control, updates),
        control is FoundSubtree,
        e < graph_edges(g).len(),
        adds_subtree(g, after.saturated_edges, tree_before, tree_after, e),
        tree_after.terminals@ == tree_before.terminals@,
    ensures
        connected_in_tree(tree_after, after),
{
    let v = edge_target(g, e as int);
    let sat = before.saturated_edges;
    let terminals = tree_before.terminals@;
    assert(edge_source(g, e as int) < graph_node_count(g));
    assert forall|i: int| 0 <= i < terminals.len() && #[trigger] bit_at(after.root_feeding_terminals, i) implies bit_at(
        tree_after.nodes,
        terminals[i] as int,
    ) by {
        if bit_at(before.root_feeding_terminals, i) {
            assert(bit_at(tree_before.nodes, terminals[i] as int));
        } else {
            assert(bit_at(before.node_to_feeding_terminals@[v as int], i));
            let es = choose|es: Seq<usize>| #[trigger] climbs(g, sat, es, terminals[i], v);
            lemma_subtree_climb(g, before, tree_before, tree_after, e, es, terminals[i]);
            if es.len() > 0 {
                assert(bit_at(after.saturated_edges, es[0] as int));
                assert(!bit_at(tree_before.nodes, edge_target(g, es[0] as int) as int));
                assert(!bit_at(tree_before.edges, es[0] as int));
                assert(bit_at(tree_after.edges, es[0] as int));
            }
        }
    }
}

/// Law: once every terminal is marked connected (`Flow::all_terminals_connected`), every
/// terminal is a node of the tree.
pub proof fn law_all_connected_means_all_in_tree(tree: SteinerTree, flow: Flow)
    requires
        connected_in_tree(tree, flow),
        tree.terminals@.len() <= bitset_bits(flow.root_feeding_terminals).len(),
        forall|i: int|
            0 <= i < bitset_bits(flow.root_feeding_terminals).len() ==> bitset_bits(flow.root_feeding_terminals)[i],
    ensures
        forall|i: int| 0 <= i < tree.terminals@.len() ==> bit_at(tree.nodes, #[trigger] tree.terminals@[i] as int),
{
    assert forall|i: int| 0 <= i < tree.terminals@.len() implies bit_at(tree.nodes, #[trigger] tree.terminals@[i] as int) by {
        assert(bit_at(flow.root_feeding_terminals, i));
    }
}

/// The clock updates for the collected next edges are about those edges, in order.
proof fn lemma_rate_updates_edges(rates: Seq<u32>, collected: Seq<NextSaturatingEdge>, extra: u32)
    ensures
        rate_updates(rates, collected, extra).len() == collected.len(),
        forall|k: int|
            0 <= k < collected.len() ==> update_edge(#[trigger] rate_updates(rates, collected, extra)[k]) == collected[k].id,
    decreases collected.len(),
{
    if collected.len() > 0 {
        lemma_rate_updates_edges(rates, collected.drop_last(), extra);
        let prev = rate_updates(rates, collected.drop_last(), extra);
        assert forall|k: int|
            0 <= k < collected.len() implies update_edge(#[trigger] rate_updates(rates, collected, extra)[k]) == collected[k].id by {
            if k < collected.len() - 1 {
                assert(rate_updates(rates, collected, extra)[k] == prev[k]);
                assert(collected.drop_last()[k] == collected[k]);
            }
        }
    }
}

/// The clock update scheduling the next edge of `v` (see `schedules_after`) is about an edge
/// that may saturate next, when some terminal feeds `v`.
proof fn lemma_next_edge_fed(
    g: Graph<(), u32>,
    flow: Flow,
    v: usize,
    saturated_weight: u32,
    rate_v: u32,
    tail: Seq<HeapUpdate>,
)
    requires
        crate::flac::schedules_after(g, flow.marked_or_saturated_edges, v, saturated_weight, rate_v, tail),
        exists|i: int| #[trigger] bit_at(flow.node_to_feeding_terminals@[v as int], i),
    ensures
        forall|k: int| 0 <= k < tail.len() ==> is_fed_candidate(g, flow, update_edge(#[trigger] tail[k])),
{
    let next = choose|next: Option<NextSaturatingEdge>|
        #[trigger] is_next_edge(g, flow.marked_or_saturated_edges, v, next) && tail == match next {
            None => Seq::<HeapUpdate>::empty(),
            Some(n) => seq![
                HeapUpdate::PushAfter {
                    edge: n.id,
                    weight: n.weight,
                    saturated_weight: saturated_weight,
                    flow_rate: rate_v,
                },
            ],
        };
    if let Some(n) = next {
        assert(update_edge(tail[0]) == n.id);
        assert(edge_target(g, n.id as int) == v);
    }
}

/// Law: every edge that a step (`Flow::update_flow_rates`) on an edge that may saturate next
/// schedules may saturate next too, and every other such edge still may: so the edges the clock
/// holds are always edges on which the run's invariant is kept (`law_step_keeps_flac_inv`).
pub proof fn law_step_schedules_fed_candidates(
    g: Graph<(), u32>,
    tree: SteinerTree,
    before: Flow,
    after: Flow,
    e: usize,
    control: FlacControlFlow,
    updates: Seq<HeapUpdate>,
)
    requires
        edges_join_nodes(g),
        before.wf(g),
        is_saturation_step(g, tree, before, after, e, control, updates),
        bitset_bits(after.marked_or_saturated_edges) == bitset_bits(before.marked_or_saturated_edges).update(e as int, true),
        is_fed_candidate(g, before, e),
    ensures
        forall|k: int| 0 <= k < updates.len() ==> is_fed_candidate(g, after, update_edge(#[trigger] updates[k])),
        forall|f: usize| f != e && #[trigger] is_fed_candidate(g, before, f) ==> is_fed_candidate(g, after, f),
{
    let u = edge_source(g, e as int);
    let v = edge_target(g, e as int);
    let marked = Flow { marked_or_saturated_edges: after.marked_or_saturated_edges, ..before };
    assert(edge_source(g, e as int) < graph_node_count(g));
    assert forall|k: int| #[trigger] bit_at(after.marked_or_saturated_edges, k) == (bit_at(before.marked_or_saturated_edges, k)
        || k == e as int) by {}
    let spreads = !bit_at(tree.nodes, v as int) && !bit_at(tree.nodes, u as int) && !is_degenerate(g, marked, u, v);
    // Feeding sets only grow.
    assert forall|n: usize, i: int|
        n < graph_node_count(g) && #[trigger] bit_at(before.node_to_feeding_terminals@[n as int], i) implies bit_at(
        after.node_to_feeding_terminals@[n as int],
        i,
    ) by {
        if spreads && n != v {
            assert(bit_at(after.node_to_feeding_terminals@[n as int], i) == (bit_at(marked.node_to_feeding_terminals@[n as int], i)
                || (takes_flow(g, marked, u, n) && bit_at(marked.node_to_feeding_terminals@[v as int], i))));
        }
    }
    assert forall|f: usize| f != e && #[trigger] is_fed_candidate(g, before, f) implies is_fed_candidate(g, after, f) by {
        let t = edge_target(g, f as int);
        assert(edge_source(g, f as int) < graph_node_count(g));
        let i = choose|i: int| #[trigger] bit_at(before.node_to_feeding_terminals@[t as int], i);
        assert(bit_at(after.node_to_feeding_terminals@[t as int], i));
    }
    let wi = choose|i: int| #[trigger] bit_at(before.node_to_feeding_terminals@[v as int], i);
    assert(bit_at(after.node_to_feeding_terminals@[v as int], wi));
    if bit_at(tree.nodes, v as int) || bit_at(tree.nodes, u as int) {
    } else if is_degenerate(g, marked, u, v) {
        lemma_next_edge_fed(g, after, v, edge_weight(g, e as int), after.node_to_flow_rates@[v as int], updates);
    } else {
        let k0 = choose|k: int|
            0 <= k <= updates.len() && crate::flac::spreads_flow(g, marked, u, v, #[trigger] updates.subrange(0, k))
                && crate::flac::schedules_after(
                g,
                after.marked_or_saturated_edges,
                v,
                edge_weight(g, e as int),
                after.node_to_flow_rates@[v as int],
                updates.subrange(k, updates.len() as int),
            );
        let head = updates.subrange(0, k0);
        let tail = updates.subrange(k0, updates.len() as int);
        lemma_next_edge_fed(g, after, v, edge_weight(g, e as int), after.node_to_flow_rates@[v as int], tail);
        let collected = choose|collected: Seq<NextSaturatingEdge>|
            #[trigger] crate::flac::collects_next_edges_above(g, marked, u, v, collected) && head == rate_updates(
                marked.node_to_flow_rates@,
                collected,
                marked.node_to_flow_rates@[v as int],
            );
        lemma_rate_updates_edges(marked.node_to_flow_rates@, collected, marked.node_to_flow_rates@[v as int]);
        assert forall|k: int| 0 <= k < updates.len() implies is_fed_candidate(g, after, update_edge(#[trigger] updates[k])) by {
            if k < k0 {
                assert(updates[k] == head[k]);
                let n = collected[k];
                assert(update_edge(head[k]) == n.id);
                assert(is_next_edge(g, after.marked_or_saturated_edges, n.target, Some(n)));
                let t = n.target;
                assert(edge_target(g, n.id as int) == t);
                assert(has_candidate(g, after.marked_or_saturated_edges, t));
                assert(takes_flow(g, marked, u, t));
                if t != v {
                    assert(bit_at(after.node_to_feeding_terminals@[t as int], wi) == (bit_at(marked.node_to_feeding_terminals@[t as int], wi)
                        || (takes_flow(g, marked, u, t) && bit_at(marked.node_to_feeding_terminals@[v as int], wi))));
                }
                assert(bit_at(after.node_to_feeding_terminals@[t as int], wi));
            } else {
                assert(updates[k] == tail[k - k0]);
            }
        }
    }
}

/// Law: a step that finds a subtree (`Flow::update_flow_rates` answers `FoundSubtree`), on an
/// edge that may saturate next, in a run whose invariant held, connects at least one terminal
/// that was not connected: each run that reaches the tree makes progress.
pub proof fn law_found_subtree_connects_a_new_terminal(
    g: Graph<(), u32>,
    tree: SteinerTree,
    before: Flow,
    after: Flow,
    e: usize,
    control: FlacControlFlow,
    updates: Seq<HeapUpdate>,
)
    requires
        edges_join_nodes(g),
        flac_inv(g, tree.terminals@, before),
        is_saturation_step(g, tree, before, after, e, control, updates),
        is_fed_candidate(g, before, e),
        control is FoundSubtree,
    ensures
        exists|i: int|
            0 <= i < tree.terminals@.len() && !bit_at(before.root_feeding_terminals, i) && #[trigger] bit_at(
                after.root_feeding_terminals,
                i,
            ),
{
    let v = edge_target(g, e as int);
    assert(edge_source(g, e as int) < graph_node_count(g));
    let i = choose|i: int| #[trigger] bit_at(before.node_to_feeding_terminals@[v as int], i);
    assert(pours(before, tree.terminals@, i));
    assert(bit_at(after.root_feeding_terminals, i));
}

} // verus!
