//! Splitting query partitions that would depend on themselves. A partition is one request to a
//! subgraph; if one of its fields requires (through `RequiredBySubgraph` edges, either way)
//! another of its fields, the request would wait on itself. Walking down from the starting
//! nodes, the fields of the partitions below each node are dealt out again, sorted by position,
//! each to the first partition of its resolver that holds no field linked to it, or to a new
//! copy of its own partition.
use crate::bitset::{bitset_bits, bitset_put, bitset_with_capacity, cleared_bits};
use crate::mutation_order::{add_edge, position_le, remove_edge_between, sorted_by_position, PartitionField};
use crate::query::{Edge, Node, QueryPosition, ResolverDefinitionId};
use crate::query_graph::{
    is_required_walk, lemma_view_add_edge_wf, lemma_view_add_node_wf, lemma_view_remove_edge_wf, out_edges, qg_add_node,
    qg_edge_count, qg_edges, qg_has_required_path, qg_node, qg_node_count, qgraph_edges, qgraph_nodes, qgraph_out_lists,
    required_path, required_step, view_add_edge, view_add_node, view_of, view_remove_edge_between, view_wf, QView,
    first_out_to,
};
use petgraph::Graph;
use vstd::prelude::*;

verus! {

/// The fields reached by the `Field` edges `outs` of partition `p`.
pub open spec fn partition_children(
    nodes: Seq<Node>,
    positions: Seq<Option<QueryPosition>>,
    p: usize,
    resolver: ResolverDefinitionId,
    outs: Seq<(usize, usize, Edge)>,
) -> Seq<PartitionField>
    decreases outs.len(),
{
    if outs.len() == 0 {
        Seq::empty()
    } else {
        let prev = partition_children(nodes, positions, p, resolver, outs.drop_last());
        let t = outs.last().1;
        if outs.last().2 is Field {
            match nodes[t as int] {
                Node::Field(f) => prev.push(
                    PartitionField {
                        position: positions[f.id.0 as int],
                        original_partition_node_ix: p,
                        resolver_definition_id: resolver,
                        field_node_ix: t,
                    },
                ),
                _ => prev,
            }
        } else {
            prev
        }
    }
}

/// What the walk finds through the edges `outs` of a node: the partitions below it, their
/// fields, and the nodes to visit next (fields below it, and the fields of those partitions).
pub open spec fn scan(
    nodes: Seq<Node>,
    lists: Seq<Seq<(usize, usize, Edge)>>,
    positions: Seq<Option<QueryPosition>>,
    outs: Seq<(usize, usize, Edge)>,
) -> (Seq<(usize, ResolverDefinitionId)>, Seq<PartitionField>, Seq<usize>)
    decreases outs.len(),
{
    if outs.len() == 0 {
        (Seq::empty(), Seq::empty(), Seq::empty())
    } else {
        let prev = scan(nodes, lists, positions, outs.drop_last());
        let t = outs.last().1;
        if outs.last().2 is QueryPartition || outs.last().2 is Field {
            match nodes[t as int] {
                Node::QueryPartition { resolver_definition_id, .. } => {
                    let children = partition_children(
                        nodes,
                        positions,
                        t,
                        resolver_definition_id,
                        out_edges(lists, t),
                    );
                    (
                        prev.0.push((t, resolver_definition_id)),
                        prev.1 + children,
                        prev.2 + children.map_values(|f: PartitionField| f.field_node_ix),
                    )
                },
                Node::Field(_) => (prev.0, prev.1, prev.2.push(t)),
                Node::Root => prev,
            }
        } else {
            prev
        }
    }
}

/// `x` inserted into the sorted `s` after every field whose position is not after its own.
pub open spec fn insert_by_position(s: Seq<PartitionField>, x: PartitionField) -> Seq<PartitionField>
    decreases s.len(),
{
    if s.len() == 0 {
        seq![x]
    } else if position_le(s.last().position, x.position) {
        s.push(x)
    } else {
        insert_by_position(s.drop_last(), x).push(s.last())
    }
}

/// The fields sorted by position, fields of equal position kept in order.
pub open spec fn stable_sort(s: Seq<PartitionField>) -> Seq<PartitionField>
    decreases s.len(),
{
    if s.len() == 0 {
        Seq::empty()
    } else {
        insert_by_position(stable_sort(s.drop_last()), s.last())
    }
}

/// The view once each field of `fields` is detached from its partition.
pub open spec fn detach_fields(
    g: QView,
    fields: Seq<PartitionField>,
) -> QView
    decreases fields.len(),
{
    if fields.len() == 0 {
        g
    } else {
        view_remove_edge_between(
            detach_fields(g, fields.drop_last()),
            fields.last().original_partition_node_ix,
            fields.last().field_node_ix,
        )
    }
}

/// Whether a field of partition `p` (a target of one of its `Field` edges) and `field` are
/// linked by `RequiredBySubgraph` edges, either way.
pub open spec fn is_linked(g: QView, p: usize, field: usize) -> bool {
    let outs = out_edges(g.2, p);
    exists|i: int|
        0 <= i < outs.len() && #[trigger] outs[i].2 is Field && (required_path(g.1, outs[i].1, field) || required_path(
            g.1,
            field,
            outs[i].1,
        ))
}

/// The first partition of `parts` with resolver `resolver` that holds no field linked to
/// `field`.
pub open spec fn first_free_partition(
    g: QView,
    parts: Seq<(usize, ResolverDefinitionId)>,
    resolver: ResolverDefinitionId,
    field: usize,
) -> Option<usize>
    decreases parts.len(),
{
    if parts.len() == 0 {
        None
    } else if parts[0].1 == resolver && !is_linked(g, parts[0].0, field) {
        Some(parts[0].0)
    } else {
        first_free_partition(g, parts.drop_first(), resolver, field)
    }
}

/// The view once the `RequiredBySubgraph` and `MutationExecutedAfter` edges among `outs` are
/// copied onto `new`, in order.
pub open spec fn copy_dependencies(
    g: QView,
    new: usize,
    outs: Seq<(usize, usize, Edge)>,
) -> QView
    decreases outs.len(),
{
    if outs.len() == 0 {
        g
    } else {
        let prev = copy_dependencies(g, new, outs.drop_last());
        let (_, t, kind) = outs.last();
        if kind is RequiredBySubgraph || kind is MutationExecutedAfter {
            view_add_edge(prev, new, t, kind)
        } else {
            prev
        }
    }
}

/// Deals out the field `f` below node `x`: to the first free partition of its resolver, or to a
/// new copy of its own partition, attached to `x` and carrying its dependencies. The view, the
/// partitions, and how many nodes and edges were added.
pub open spec fn assign_field(
    g: QView,
    parts: Seq<(usize, ResolverDefinitionId)>,
    x: usize,
    f: PartitionField,
) -> (QView, Seq<(usize, ResolverDefinitionId)>, nat, nat) {
    match first_free_partition(g, parts, f.resolver_definition_id, f.field_node_ix) {
        Some(p) => (view_add_edge(g, p, f.field_node_ix, Edge::Field), parts, 0, 1),
        None => {
            let new = g.0.len() as usize;
            let g2 = view_add_node(g, g.0[f.original_partition_node_ix as int]);
            let g3 = view_add_edge(g2, x, new, Edge::QueryPartition);
            let g4 = copy_dependencies(g3, new, out_edges(g3.2, f.original_partition_node_ix));
            (
                view_add_edge(g4, new, f.field_node_ix, Edge::Field),
                parts.push((new, f.resolver_definition_id)),
                1,
                (g4.1.len() - g.1.len() + 1) as nat,
            )
        },
    }
}

/// Deals out the fields of `fields` in order.
pub open spec fn assign_fields(
    g: QView,
    parts: Seq<(usize, ResolverDefinitionId)>,
    x: usize,
    fields: Seq<PartitionField>,
) -> (QView, Seq<(usize, ResolverDefinitionId)>, nat, nat)
    decreases fields.len(),
{
    if fields.len() == 0 {
        (g, parts, 0, 0)
    } else {
        let prev = assign_fields(g, parts, x, fields.drop_last());
        let step = assign_field(prev.0, prev.1, x, fields.last());
        (step.0, step.1, prev.2 + step.2, prev.3 + step.3)
    }
}

/// Visiting node `x`: if the partitions below it hold fields, those are detached, sorted, and
/// dealt out again among those partitions (and copies of them). The view, the nodes to visit
/// next, and how many nodes and edges were added.
pub open spec fn split_step(g: QView, positions: Seq<Option<QueryPosition>>, x: usize) -> (QView, Seq<usize>, nat, nat) {
    let found = scan(g.0, g.2, positions, out_edges(g.2, x));
    if found.1.len() == 0 {
        (g, found.2, 0, 0)
    } else {
        let sorted = stable_sort(found.1);
        let assigned = assign_fields(detach_fields(g, sorted), found.0, x, sorted);
        (assigned.0, found.2, assigned.2, assigned.3)
    }
}

/// The number of unset bits.
pub open spec fn count_false(s: Seq<bool>) -> nat
    decreases s.len(),
{
    if s.len() == 0 {
        0
    } else {
        count_false(s.drop_last()) + (if s.last() { 0nat } else { 1nat })
    }
}

/// Setting an unset bit leaves one unset bit fewer.
pub proof fn lemma_count_false_set(s: Seq<bool>, i: int)
    requires
        0 <= i < s.len(),
        !s[i],
    ensures
        count_false(s.update(i, true)) + 1 == count_false(s),
    decreases s.len(),
{
    if i < s.len() - 1 {
        lemma_count_false_set(s.drop_last(), i);
        assert(s.update(i, true).drop_last() =~= s.drop_last().update(i, true));
    } else {
        assert(s.update(i, true).drop_last() =~= s.drop_last());
    }
}

/// The walk from the nodes of `stack` (the last one first), each node of `visited` visited at
/// most once; nodes outside `visited` are not visited. The view, and how many nodes and edges
/// were added.
pub open spec fn split_walk(g: QView, positions: Seq<Option<QueryPosition>>, stack: Seq<usize>, visited: Seq<bool>) -> (
    QView,
    nat,
    nat,
)
    decreases count_false(visited), stack.len(),
{
    if stack.len() == 0 {
        (g, 0, 0)
    } else {
        let x = stack.last();
        if x >= visited.len() || visited[x as int] {
            split_walk(g, positions, stack.drop_last(), visited)
        } else {
            let step = split_step(g, positions, x);
            proof {
                lemma_count_false_set(visited, x as int);
            }
            let rest = split_walk(step.0, positions, stack.drop_last() + step.1, visited.update(x as int, true));
            (rest.0, step.2 + rest.1, step.3 + rest.2)
        }
    }
}

/// Whether `a` comes strictly after `b`.
fn position_after(a: Option<QueryPosition>, b: Option<QueryPosition>) -> (r: bool)
    ensures
        r == !position_le(a, b),
{
    match (a, b) {
        (None, _) => false,
        (Some(_), None) => true,
        (Some(x), Some(y)) => x.0 > y.0,
    }
}

/// The fields of partition `p` reached by its `Field` edges, in the order of its edges.
fn collect_partition_children(
    graph: &Graph<Node, Edge>,
    positions: &Vec<Option<QueryPosition>>,
    p: usize,
    resolver: ResolverDefinitionId,
) -> (r: Vec<PartitionField>)
    requires
        p < qgraph_nodes(*graph).len(),
        crate::mutation_order::fields_within(qgraph_nodes(*graph), positions@.len()),
    ensures
        r@ == partition_children(
            qgraph_nodes(*graph),
            positions@,
            p,
            resolver,
            out_edges(qgraph_out_lists(*graph), p),
        ),
        forall|i: int|
            0 <= i < r@.len() ==> #[trigger] r@[i].field_node_ix < qgraph_nodes(*graph).len()
                && r@[i].original_partition_node_ix == p,
{
    let ghost nodes = qgraph_nodes(*graph);
    let outs = qg_edges(graph, p);
    let mut fields: Vec<PartitionField> = Vec::new();
    let mut j: usize = 0;
    while j < outs.len()
        invariant
            j <= outs@.len(),
            p < nodes.len(),
            nodes == qgraph_nodes(*graph),
            crate::mutation_order::fields_within(nodes, positions@.len()),
            outs@ == out_edges(qgraph_out_lists(*graph), p),
            forall|i: int| 0 <= i < outs@.len() ==> #[trigger] outs@[i].1 < nodes.len(),
            fields@ == partition_children(nodes, positions@, p, resolver, outs@.subrange(0, j as int)),
            forall|i: int|
                0 <= i < fields@.len() ==> #[trigger] fields@[i].field_node_ix < nodes.len()
                    && fields@[i].original_partition_node_ix == p,
        decreases outs@.len() - j,
    {
        let (_, t, kind) = outs[j];
        let ghost prefix = outs@.subrange(0, j + 1);
        proof {
            assert(prefix.drop_last() =~= outs@.subrange(0, j as int));
            assert(prefix.last() == outs@[j as int]);
        }
        if let Edge::Field = kind {
            match qg_node(graph, t) {
                Node::Field(f) => {
                    proof {
                        assert(nodes[t as int] matches Node::Field(g) && g.id.0 < positions@.len());
                    }
                    let position = positions[f.id.0 as usize];
                    fields.push(PartitionField {
                        position,
                        original_partition_node_ix: p,
                        resolver_definition_id: resolver,
                        field_node_ix: t,
                    });
                },
                _ => {},
            }
        }
        j = j + 1;
    }
    assert(outs@.subrange(0, j as int) =~= outs@);
    fields
}

/// What the walk finds below node `x` (see `scan`).
#[verifier::spinoff_prover]
fn scan_below(graph: &Graph<Node, Edge>, positions: &Vec<Option<QueryPosition>>, x: usize) -> (r: (
    Vec<(usize, ResolverDefinitionId)>,
    Vec<PartitionField>,
    Vec<usize>,
))
    requires
        x < qgraph_nodes(*graph).len(),
        crate::mutation_order::fields_within(qgraph_nodes(*graph), positions@.len()),
    ensures
        ({
            let found = scan(qgraph_nodes(*graph), qgraph_out_lists(*graph), positions@, out_edges(qgraph_out_lists(*graph), x));
            &&& r.0@ == found.0
            &&& r.1@ == found.1
            &&& r.2@ == found.2
        }),
        forall|i: int| 0 <= i < r.0@.len() ==> #[trigger] r.0@[i].0 < qgraph_nodes(*graph).len(),
        forall|i: int|
            0 <= i < r.1@.len() ==> #[trigger] r.1@[i].field_node_ix < qgraph_nodes(*graph).len()
                && r.1@[i].original_partition_node_ix < qgraph_nodes(*graph).len(),
        forall|i: int| 0 <= i < r.2@.len() ==> #[trigger] r.2@[i] < qgraph_nodes(*graph).len(),
{
    let ghost nodes = qgraph_nodes(*graph);
    let ghost lists = qgraph_out_lists(*graph);
    let outs = qg_edges(graph, x);
    let mut parts: Vec<(usize, ResolverDefinitionId)> = Vec::new();
    let mut fields: Vec<PartitionField> = Vec::new();
    let mut next: Vec<usize> = Vec::new();
    let mut k: usize = 0;
    while k < outs.len()
        invariant
            k <= outs@.len(),
            nodes == qgraph_nodes(*graph),
            lists == qgraph_out_lists(*graph),
            crate::mutation_order::fields_within(nodes, positions@.len()),
            forall|i: int| 0 <= i < outs@.len() ==> #[trigger] outs@[i].1 < nodes.len(),
            ({
                let found = scan(nodes, lists, positions@, outs@.subrange(0, k as int));
                &&& parts@ == found.0
                &&& fields@ == found.1
                &&& next@ == found.2
            }),
            forall|i: int| 0 <= i < parts@.len() ==> #[trigger] parts@[i].0 < nodes.len(),
            forall|i: int|
                0 <= i < fields@.len() ==> #[trigger] fields@[i].field_node_ix < nodes.len()
                    && fields@[i].original_partition_node_ix < nodes.len(),
            forall|i: int| 0 <= i < next@.len() ==> #[trigger] next@[i] < nodes.len(),
        decreases outs@.len() - k,
    {
        let (_, t, kind) = outs[k];
        let ghost prefix = outs@.subrange(0, k + 1);
        proof {
            assert(prefix.drop_last() =~= outs@.subrange(0, k as int));
            assert(prefix.last() == outs@[k as int]);
        }
        let follow = match kind {
            Edge::QueryPartition | Edge::Field => true,
            _ => false,
        };
        if follow {
            match qg_node(graph, t) {
                Node::QueryPartition { resolver_definition_id, .. } => {
                    parts.push((t, resolver_definition_id));
                    let children = collect_partition_children(graph, positions, t, resolver_definition_id);
                    assert(forall|i: int|
                        0 <= i < children@.len() ==> #[trigger] children@[i].field_node_ix < nodes.len()
                            && children@[i].original_partition_node_ix == t);
                    let ghost before_fields = fields@;
                    let ghost before_next = next@;
                    let mut j: usize = 0;
                    while j < children.len()
                        invariant
                            j <= children@.len(),
                            nodes == qgraph_nodes(*graph),
                            forall|i: int|
                                0 <= i < children@.len() ==> #[trigger] children@[i].field_node_ix < nodes.len()
                                    && children@[i].original_partition_node_ix == t,
                            t < nodes.len(),
                            fields@ == before_fields + children@.subrange(0, j as int),
                            next@ == before_next + children@.subrange(0, j as int).map_values(
                                |f: PartitionField| f.field_node_ix,
                            ),
                            forall|i: int|
                                0 <= i < fields@.len() ==> #[trigger] fields@[i].field_node_ix < nodes.len()
                                    && fields@[i].original_partition_node_ix < nodes.len(),
                            forall|i: int| 0 <= i < next@.len() ==> #[trigger] next@[i] < nodes.len(),
                        decreases children@.len() - j,
                    {
                        let f = children[j];
                        fields.push(f);
                        next.push(f.field_node_ix);
                        proof {
                            assert(children@.subrange(0, j + 1) =~= children@.subrange(0, j as int).push(f));
                            assert(children@.subrange(0, j + 1).map_values(|f: PartitionField| f.field_node_ix)
                                =~= children@.subrange(0, j as int).map_values(|f: PartitionField| f.field_node_ix).push(
                                f.field_node_ix,
                            ));
                        }
                        j = j + 1;
                    }
                    proof {
                        assert(children@.subrange(0, j as int) =~= children@);
                    }
                },
                Node::Field(_) => {
                    next.push(t);
                },
                Node::Root => {},
            }
        }
        k = k + 1;
    }
    assert(outs@.subrange(0, k as int) =~= outs@);
    (parts, fields, next)
}

/// The fields sorted by position, fields of equal position kept in order (`stable_sort`).
fn sort_fields(fields: &Vec<PartitionField>) -> (r: Vec<PartitionField>)
    ensures
        r@ == stable_sort(fields@),
{
    let mut out: Vec<PartitionField> = Vec::new();
    let mut k: usize = 0;
    while k < fields.len()
        invariant
            k <= fields@.len(),
            out@ == stable_sort(fields@.subrange(0, k as int)),
        decreases fields@.len() - k,
    {
        let x = fields[k];
        let mut j = out.len();
        while j > 0
            invariant
                j <= out@.len(),
                forall|i: int| j <= i < out@.len() ==> !position_le(#[trigger] out@[i].position, x.position),
            ensures
                j <= out@.len(),
                forall|i: int| j <= i < out@.len() ==> !position_le(#[trigger] out@[i].position, x.position),
                j > 0 ==> position_le(out@[j - 1].position, x.position),
            decreases j,
        {
            if !position_after(out[j - 1].position, x.position) {
                break;
            }
            j = j - 1;
        }
        proof {
            lemma_insert_by_position(out@, x, j as int);
            let prefix = fields@.subrange(0, k + 1);
            assert(prefix.drop_last() =~= fields@.subrange(0, k as int));
            assert(prefix.last() == x);
        }
        out.insert(j, x);
        k = k + 1;
    }
    assert(fields@.subrange(0, k as int) =~= fields@);
    out
}

/// Inserting by position is inserting right after the last field whose position is not after
/// that of `x`.
proof fn lemma_insert_by_position(s: Seq<PartitionField>, x: PartitionField, j: int)
    requires
        0 <= j <= s.len(),
        forall|i: int| j <= i < s.len() ==> !position_le(#[trigger] s[i].position, x.position),
        j > 0 ==> position_le(s[j - 1].position, x.position),
    ensures
        insert_by_position(s, x) == s.insert(j, x),
    decreases s.len(),
{
    if s.len() == 0 {
        assert(s.insert(j, x) =~= seq![x]);
    } else if position_le(s.last().position, x.position) {
        assert(j == s.len());
        assert(s.insert(j, x) =~= s.push(x));
    } else {
        lemma_insert_by_position(s.drop_last(), x, j);
        assert(s.drop_last().insert(j, x).push(s.last()) =~= s.insert(j, x));
    }
}

/// Adds an edge if the graph has room for it (fewer than `u32::MAX` edges).
fn try_add_edge(graph: &mut Graph<Node, Edge>, a: usize, b: usize, w: Edge) -> (r: bool)
    requires
        a < qgraph_nodes(*old(graph)).len(),
        b < qgraph_nodes(*old(graph)).len(),
    ensures
        r ==> view_of(*final(graph)) == view_add_edge(view_of(*old(graph)), a, b, w),
        !r ==> view_of(*final(graph)) == view_of(*old(graph)) && qgraph_edges(*old(graph)).len() >= u32::MAX,
{
    let n = qg_edge_count(graph);
    if n >= u32::MAX as usize {
        false
    } else {
        add_edge(graph, a, b, w);
        true
    }
}

/// The view once `fields` are detached: `detach_fields` keeps the nodes, never adds an edge,
/// and keeps the view well formed.
proof fn lemma_detach_sizes(g: QView, fields: Seq<PartitionField>)
    ensures
        detach_fields(g, fields).0 == g.0,
        detach_fields(g, fields).1.len() <= g.1.len(),
        view_wf(g) ==> view_wf(detach_fields(g, fields)),
    decreases fields.len(),
{
    if fields.len() > 0 {
        lemma_detach_sizes(g, fields.drop_last());
        let prev = detach_fields(g, fields.drop_last());
        lemma_view_remove_edge_wf(prev, fields.last().original_partition_node_ix, fields.last().field_node_ix);
    }
}

/// Detaches each field of `fields` from its partition, in order.
fn detach_all(graph: &mut Graph<Node, Edge>, fields: &Vec<PartitionField>)
    requires
        forall|i: int|
            0 <= i < fields@.len() ==> #[trigger] fields@[i].field_node_ix < qgraph_nodes(*old(graph)).len()
                && fields@[i].original_partition_node_ix < qgraph_nodes(*old(graph)).len(),
    ensures
        view_of(*final(graph)) == detach_fields(view_of(*old(graph)), fields@),
{
    let ghost g0 = view_of(*graph);
    let mut k: usize = 0;
    while k < fields.len()
        invariant
            k <= fields@.len(),
            g0 == view_of(*old(graph)),
            forall|i: int|
                0 <= i < fields@.len() ==> #[trigger] fields@[i].field_node_ix < g0.0.len()
                    && fields@[i].original_partition_node_ix < g0.0.len(),
            view_of(*graph) == detach_fields(g0, fields@.subrange(0, k as int)),
        decreases fields@.len() - k,
    {
        let f = fields[k];
        proof {
            lemma_detach_sizes(g0, fields@.subrange(0, k as int));
            let prefix = fields@.subrange(0, k + 1);
            assert(prefix.drop_last() =~= fields@.subrange(0, k as int));
            assert(prefix.last() == f);
        }
        remove_edge_between(graph, f.original_partition_node_ix, f.field_node_ix);
        k = k + 1;
    }
    assert(fields@.subrange(0, k as int) =~= fields@);
}

/// Whether a field of partition `p` and `field` are linked (`is_linked`).
fn partition_is_linked(graph: &Graph<Node, Edge>, p: usize, field: usize) -> (r: bool)
    requires
        p < qgraph_nodes(*graph).len(),
        field < qgraph_nodes(*graph).len(),
    ensures
        r == is_linked(view_of(*graph), p, field),
{
    let outs = qg_edges(graph, p);
    let mut k: usize = 0;
    while k < outs.len()
        invariant
            k <= outs@.len(),
            field < qgraph_nodes(*graph).len(),
            outs@ == out_edges(qgraph_out_lists(*graph), p),
            forall|i: int| 0 <= i < outs@.len() ==> #[trigger] outs@[i].1 < qgraph_nodes(*graph).len(),
            forall|i: int|
                0 <= i < k ==> !(#[trigger] outs@[i].2 is Field && (required_path(qgraph_edges(*graph), outs@[i].1, field)
                    || required_path(qgraph_edges(*graph), field, outs@[i].1))),
        decreases outs@.len() - k,
    {
        let (_, q, kind) = outs[k];
        if let Edge::Field = kind {
            if qg_has_required_path(graph, q, field) || qg_has_required_path(graph, field, q) {
                proof {
                    assert(outs@[k as int].2 is Field);
                }
                return true;
            }
        }
        k = k + 1;
    }
    false
}

/// The first free partition of `parts` for `resolver` and `field` (`first_free_partition`).
fn find_free_partition(
    graph: &Graph<Node, Edge>,
    parts: &Vec<(usize, ResolverDefinitionId)>,
    resolver: ResolverDefinitionId,
    field: usize,
) -> (r: Option<usize>)
    requires
        forall|i: int| 0 <= i < parts@.len() ==> #[trigger] parts@[i].0 < qgraph_nodes(*graph).len(),
        field < qgraph_nodes(*graph).len(),
    ensures
        r == first_free_partition(view_of(*graph), parts@, resolver, field),
{
    let mut i: usize = 0;
    assert(parts@.subrange(0, parts@.len() as int) =~= parts@);
    while i < parts.len()
        invariant
            i <= parts@.len(),
            forall|j: int| 0 <= j < parts@.len() ==> #[trigger] parts@[j].0 < qgraph_nodes(*graph).len(),
            field < qgraph_nodes(*graph).len(),
            first_free_partition(view_of(*graph), parts@, resolver, field) == first_free_partition(
                view_of(*graph),
                parts@.subrange(i as int, parts@.len() as int),
                resolver,
                field,
            ),
        decreases parts@.len() - i,
    {
        let (p, res) = parts[i];
        let ghost rest = parts@.subrange(i as int, parts@.len() as int);
        assert(rest[0] == parts@[i as int]);
        assert(rest.drop_first() =~= parts@.subrange(i + 1, parts@.len() as int));
        if res == resolver && !partition_is_linked(graph, p, field) {
            return Some(p);
        }
        i = i + 1;
    }
    None
}

/// Copying dependencies keeps the nodes and only adds edges, more of them for a longer prefix
/// of `outs`.
proof fn lemma_copy_prefix(
    g: QView,
    new: usize,
    outs: Seq<(usize, usize, Edge)>,
    k: int,
)
    requires
        0 <= k <= outs.len(),
    ensures
        copy_dependencies(g, new, outs).0 == g.0,
        g.1.len() <= copy_dependencies(g, new, outs.subrange(0, k)).1.len() <= copy_dependencies(g, new, outs).1.len(),
    decreases outs.len(),
{
    if outs.len() == 0 {
        assert(outs.subrange(0, k) =~= outs);
    } else if k == outs.len() {
        assert(outs.subrange(0, k) =~= outs);
        lemma_copy_prefix(g, new, outs.drop_last(), k - 1);
    } else {
        lemma_copy_prefix(g, new, outs.drop_last(), k);
        assert(outs.drop_last().subrange(0, k) =~= outs.subrange(0, k));
    }
}

/// Dealing out a field adds exactly the nodes and edges it counts.
proof fn lemma_assign_field_sizes(
    g: QView,
    parts: Seq<(usize, ResolverDefinitionId)>,
    x: usize,
    f: PartitionField,
)
    ensures
        ({
            let a = assign_field(g, parts, x, f);
            &&& a.0.0.len() == g.0.len() + a.2
            &&& a.0.1.len() == g.1.len() + a.3
        }),
{
    if first_free_partition(g, parts, f.resolver_definition_id, f.field_node_ix) is None {
        let new = g.0.len() as usize;
        let g2 = view_add_node(g, g.0[f.original_partition_node_ix as int]);
        let g3 = view_add_edge(g2, x, new, Edge::QueryPartition);
        let outs = out_edges(g3.2, f.original_partition_node_ix);
        lemma_copy_prefix(g3, new, outs, 0);
    }
}

/// Dealing out fields adds exactly the nodes and edges it counts, more for a longer prefix.
proof fn lemma_assign_fields_sizes(
    g: QView,
    parts: Seq<(usize, ResolverDefinitionId)>,
    x: usize,
    fields: Seq<PartitionField>,
    k: int,
)
    requires
        0 <= k <= fields.len(),
    ensures
        ({
            let a = assign_fields(g, parts, x, fields);
            let b = assign_fields(g, parts, x, fields.subrange(0, k));
            &&& a.0.0.len() == g.0.len() + a.2
            &&& a.0.1.len() == g.1.len() + a.3
            &&& b.2 <= a.2
            &&& b.3 <= a.3
        }),
    decreases fields.len(),
{
    if fields.len() == 0 {
        assert(fields.subrange(0, k) =~= fields);
    } else {
        let prev = assign_fields(g, parts, x, fields.drop_last());
        lemma_assign_field_sizes(prev.0, prev.1, x, fields.last());
        if k == fields.len() {
            assert(fields.subrange(0, k) =~= fields);
            lemma_assign_fields_sizes(g, parts, x, fields.drop_last(), 0);
        } else {
            lemma_assign_fields_sizes(g, parts, x, fields.drop_last(), k);
            assert(fields.drop_last().subrange(0, k) =~= fields.subrange(0, k));
        }
    }
}

/// Inserting by position adds `x` and keeps every field.
proof fn lemma_insert_by_position_elements(s: Seq<PartitionField>, x: PartitionField)
    ensures
        insert_by_position(s, x).len() == s.len() + 1,
        forall|i: int|
            0 <= i < insert_by_position(s, x).len() ==> #[trigger] insert_by_position(s, x)[i] == x || s.contains(
                insert_by_position(s, x)[i],
            ),
    decreases s.len(),
{
    if s.len() > 0 && !position_le(s.last().position, x.position) {
        lemma_insert_by_position_elements(s.drop_last(), x);
        let r = insert_by_position(s, x);
        assert forall|i: int| 0 <= i < r.len() implies #[trigger] r[i] == x || s.contains(r[i]) by {
            if i < r.len() - 1 {
                let y = insert_by_position(s.drop_last(), x)[i];
                if y != x {
                    assert(s.drop_last().contains(y));
                    let j = choose|j: int| 0 <= j < s.drop_last().len() && s.drop_last()[j] == y;
                    assert(s[j] == y);
                }
            } else {
                assert(s[s.len() - 1] == s.last());
            }
        }
    } else if s.len() > 0 {
        let r = s.push(x);
        assert forall|i: int| 0 <= i < r.len() implies #[trigger] r[i] == x || s.contains(r[i]) by {
            if i < s.len() {
                assert(r[i] == s[i]);
            }
        }
    }
}

/// Sorting keeps the number of fields and brings no new one.
proof fn lemma_stable_sort_elements(s: Seq<PartitionField>)
    ensures
        stable_sort(s).len() == s.len(),
        forall|i: int| 0 <= i < stable_sort(s).len() ==> s.contains(#[trigger] stable_sort(s)[i]),
    decreases s.len(),
{
    if s.len() > 0 {
        lemma_stable_sort_elements(s.drop_last());
        let prev = stable_sort(s.drop_last());
        lemma_insert_by_position_elements(prev, s.last());
        assert forall|i: int| 0 <= i < stable_sort(s).len() implies s.contains(#[trigger] stable_sort(s)[i]) by {
            let y = stable_sort(s)[i];
            if y == s.last() {
                assert(s[s.len() - 1] == y);
            } else {
                assert(prev.contains(y));
                let j = choose|j: int| 0 <= j < prev.len() && prev[j] == y;
                assert(s.drop_last().contains(y));
                let m = choose|m: int| 0 <= m < s.drop_last().len() && s.drop_last()[m] == y;
                assert(s[m] == y);
            }
        }
    }
}

/// A step keeps the nodes it does not count, and has no more edges than those before plus
/// those it counts.
proof fn lemma_split_step_sizes(g: QView, positions: Seq<Option<QueryPosition>>, x: usize)
    ensures
        ({
            let st = split_step(g, positions, x);
            &&& st.0.0.len() == g.0.len() + st.2
            &&& st.0.1.len() <= g.1.len() + st.3
        }),
{
    let found = scan(g.0, g.2, positions, out_edges(g.2, x));
    if found.1.len() > 0 {
        let sorted = stable_sort(found.1);
        lemma_detach_sizes(g, sorted);
        lemma_assign_fields_sizes(detach_fields(g, sorted), found.0, x, sorted, 0);
    }
}

/// Adds the dependencies of `original` (`RequiredBySubgraph` and `MutationExecutedAfter`
/// edges) onto `new`, while the graph has room.
fn copy_dependency_edges(graph: &mut Graph<Node, Edge>, new: usize, original: usize) -> (r: bool)
    requires
        new < qgraph_nodes(*old(graph)).len(),
        original < qgraph_nodes(*old(graph)).len(),
    ensures
        ({
            let spec = copy_dependencies(
                view_of(*old(graph)),
                new,
                out_edges(qgraph_out_lists(*old(graph)), original),
            );
            &&& r ==> view_of(*final(graph)) == spec
            &&& !r ==> spec.1.len() >= u32::MAX
        }),
        qgraph_nodes(*final(graph)) == qgraph_nodes(*old(graph)),
{
    let ghost g0 = view_of(*graph);
    let outs = qg_edges(graph, original);
    proof {
        lemma_copy_prefix(g0, new, outs@, 0);
    }
    let mut k: usize = 0;
    while k < outs.len()
        invariant
            k <= outs@.len(),
            g0 == view_of(*old(graph)),
            outs@ == out_edges(g0.2, original),
            forall|i: int| 0 <= i < outs@.len() ==> #[trigger] outs@[i].1 < g0.0.len(),
            new < g0.0.len(),
            view_of(*graph) == copy_dependencies(g0, new, outs@.subrange(0, k as int)),
            qgraph_nodes(*graph) == g0.0,
        decreases outs@.len() - k,
    {
        let (_, t, kind) = outs[k];
        let ghost prefix = outs@.subrange(0, k + 1);
        proof {
            assert(prefix.drop_last() =~= outs@.subrange(0, k as int));
            assert(prefix.last() == outs@[k as int]);
            lemma_copy_prefix(g0, new, outs@, k + 1);
            lemma_copy_prefix(g0, new, outs@, k as int);
            lemma_copy_prefix(g0, new, outs@.subrange(0, k as int), 0);
        }
        let copy = match kind {
            Edge::RequiredBySubgraph | Edge::MutationExecutedAfter => true,
            _ => false,
        };
        if copy {
            if !try_add_edge(graph, new, t, kind) {
                return false;
            }
        }
        k = k + 1;
    }
    assert(outs@.subrange(0, k as int) =~= outs@);
    true
}

/// Deals out the field `f` below node `x` (`assign_field`), while the graph has room.
fn assign_one(graph: &mut Graph<Node, Edge>, parts: &mut Vec<(usize, ResolverDefinitionId)>, x: usize, f: PartitionField) -> (r:
    bool)
    requires
        x < qgraph_nodes(*old(graph)).len(),
        f.original_partition_node_ix < qgraph_nodes(*old(graph)).len(),
        f.field_node_ix < qgraph_nodes(*old(graph)).len(),
        forall|i: int| 0 <= i < old(parts)@.len() ==> #[trigger] old(parts)@[i].0 < qgraph_nodes(*old(graph)).len(),
    ensures
        ({
            let spec = assign_field(view_of(*old(graph)), old(parts)@, x, f);
            &&& r ==> view_of(*final(graph)) == spec.0 && final(parts)@ == spec.1
            &&& !r ==> spec.0.0.len() >= u32::MAX || spec.0.1.len() >= u32::MAX
        }),
        qgraph_nodes(*old(graph)).len() <= qgraph_nodes(*final(graph)).len(),
        forall|i: int| 0 <= i < final(parts)@.len() ==> #[trigger] final(parts)@[i].0 < qgraph_nodes(*final(graph)).len(),
        forall|i: int|
            0 <= i < qgraph_nodes(*final(graph)).len() ==> #[trigger] qgraph_nodes(*final(graph))[i] == if i < qgraph_nodes(
                *old(graph),
            ).len() {
                qgraph_nodes(*old(graph))[i]
            } else {
                qgraph_nodes(*old(graph))[f.original_partition_node_ix as int]
            },
{
    let ghost g0 = view_of(*graph);
    proof {
        lemma_assign_field_sizes(g0, parts@, x, f);
    }
    match find_free_partition(graph, parts, f.resolver_definition_id, f.field_node_ix) {
        Some(p) => {
            proof {
                lemma_free_partition_in(g0, parts@, f.resolver_definition_id, f.field_node_ix);
            }
            try_add_edge(graph, p, f.field_node_ix, Edge::Field)
        },
        None => {
            let n = qg_node_count(graph);
            if n >= u32::MAX as usize {
                return false;
            }
            let weight = qg_node(graph, f.original_partition_node_ix);
            let new = qg_add_node(graph, weight);
            let ghost g2 = view_of(*graph);
            if !try_add_edge(graph, x, new, Edge::QueryPartition) {
                proof {
                    let g3 = view_add_edge(g2, x, new, Edge::QueryPartition);
                    lemma_copy_prefix(g3, new, out_edges(g3.2, f.original_partition_node_ix), 0);
                }
                return false;
            }
            let ghost g3 = view_of(*graph);
            proof {
                lemma_copy_prefix(g3, new, out_edges(g3.2, f.original_partition_node_ix), 0);
            }
            if !copy_dependency_edges(graph, new, f.original_partition_node_ix) {
                return false;
            }
            if !try_add_edge(graph, new, f.field_node_ix, Edge::Field) {
                return false;
            }
            parts.push((new, f.resolver_definition_id));
            true
        },
    }
}

/// A free partition is one of the partitions.
proof fn lemma_free_partition_in(
    g: QView,
    parts: Seq<(usize, ResolverDefinitionId)>,
    resolver: ResolverDefinitionId,
    field: usize,
)
    ensures
        first_free_partition(g, parts, resolver, field) matches Some(p) ==> exists|i: int|
            0 <= i < parts.len() && #[trigger] parts[i].0 == p,
    decreases parts.len(),
{
    if parts.len() > 0 {
        lemma_free_partition_in(g, parts.drop_first(), resolver, field);
        if let Some(p) = first_free_partition(g, parts.drop_first(), resolver, field) {
            if !(parts[0].1 == resolver && !is_linked(g, parts[0].0, field)) {
                let i = choose|i: int| 0 <= i < parts.drop_first().len() && #[trigger] parts.drop_first()[i].0 == p;
                assert(parts[i + 1].0 == p);
            }
        }
    }
}

/// Every node of `after` is a node of `before` or a copy of one, and `before` is a prefix.
pub open spec fn nodes_copied_from(after: Seq<Node>, before: Seq<Node>) -> bool {
    &&& before.len() <= after.len()
    &&& forall|i: int| 0 <= i < before.len() ==> #[trigger] after[i] == before[i]
    &&& forall|i: int| before.len() <= i < after.len() ==> #[trigger] is_copy_of(after, before, i)
}

/// Node `i` of `after` is one of the nodes of `before`.
pub open spec fn is_copy_of(after: Seq<Node>, before: Seq<Node>, i: int) -> bool {
    exists|j: int| 0 <= j < before.len() && after[i] == #[trigger] before[j]
}

/// Copies of field nodes refer to the same fields.
proof fn lemma_fields_within_copied(after: Seq<Node>, before: Seq<Node>, n: nat)
    requires
        nodes_copied_from(after, before),
        crate::mutation_order::fields_within(before, n),
    ensures
        crate::mutation_order::fields_within(after, n),
{
    assert forall|i: int| 0 <= i < after.len() implies (#[trigger] after[i] matches Node::Field(f) ==> f.id.0 < n) by {
        if i >= before.len() {
            assert(is_copy_of(after, before, i));
            let j = choose|j: int| 0 <= j < before.len() && after[i] == #[trigger] before[j];
            assert(before[j] matches Node::Field(f) ==> f.id.0 < n);
        } else {
            assert(before[i] matches Node::Field(f) ==> f.id.0 < n);
        }
    }
}

/// `nodes_copied_from` chains.
proof fn lemma_nodes_copied_trans(c: Seq<Node>, b: Seq<Node>, a: Seq<Node>)
    requires
        nodes_copied_from(c, b),
        nodes_copied_from(b, a),
    ensures
        nodes_copied_from(c, a),
{
    assert forall|i: int| 0 <= i < a.len() implies #[trigger] c[i] == a[i] by {
        assert(c[i] == b[i]);
        assert(b[i] == a[i]);
    }
    assert forall|i: int| a.len() <= i < c.len() implies #[trigger] is_copy_of(c, a, i) by {
        if i < b.len() {
            assert(c[i] == b[i]);
            assert(is_copy_of(b, a, i));
            let j = choose|j: int| 0 <= j < a.len() && b[i] == #[trigger] a[j];
            assert(c[i] == a[j]);
        } else {
            assert(is_copy_of(c, b, i));
            let k = choose|k: int| 0 <= k < b.len() && c[i] == #[trigger] b[k];
            if k < a.len() {
                assert(b[k] == a[k]);
                assert(c[i] == a[k]);
            } else {
                assert(is_copy_of(b, a, k));
                let j = choose|j: int| 0 <= j < a.len() && b[k] == #[trigger] a[j];
                assert(c[i] == a[j]);
            }
        }
    }
}

/// Deals out the fields of `fields` below node `x` (`assign_fields`), while the graph has room.
fn assign_all(
    graph: &mut Graph<Node, Edge>,
    parts: &mut Vec<(usize, ResolverDefinitionId)>,
    x: usize,
    fields: &Vec<PartitionField>,
) -> (r: bool)
    requires
        x < qgraph_nodes(*old(graph)).len(),
        forall|i: int|
            0 <= i < fields@.len() ==> #[trigger] fields@[i].field_node_ix < qgraph_nodes(*old(graph)).len()
                && fields@[i].original_partition_node_ix < qgraph_nodes(*old(graph)).len(),
        forall|i: int| 0 <= i < old(parts)@.len() ==> #[trigger] old(parts)@[i].0 < qgraph_nodes(*old(graph)).len(),
    ensures
        ({
            let spec = assign_fields(view_of(*old(graph)), old(parts)@, x, fields@);
            &&& r ==> view_of(*final(graph)) == spec.0 && final(parts)@ == spec.1
            &&& !r ==> spec.0.0.len() >= u32::MAX || spec.0.1.len() >= u32::MAX
        }),
        nodes_copied_from(qgraph_nodes(*final(graph)), qgraph_nodes(*old(graph))),
{
    let ghost g0 = view_of(*graph);
    let ghost parts0 = parts@;
    let mut k: usize = 0;
    while k < fields.len()
        invariant
            k <= fields@.len(),
            g0 == view_of(*old(graph)),
            parts0 == old(parts)@,
            x < g0.0.len(),
            forall|i: int|
                0 <= i < fields@.len() ==> #[trigger] fields@[i].field_node_ix < g0.0.len()
                    && fields@[i].original_partition_node_ix < g0.0.len(),
            ({
                let spec = assign_fields(g0, parts0, x, fields@.subrange(0, k as int));
                &&& view_of(*graph) == spec.0
                &&& parts@ == spec.1
            }),
            nodes_copied_from(qgraph_nodes(*graph), g0.0),
            forall|i: int| 0 <= i < parts@.len() ==> #[trigger] parts@[i].0 < qgraph_nodes(*graph).len(),
        decreases fields@.len() - k,
    {
        let f = fields[k];
        let ghost before = view_of(*graph);
        let ghost prefix = fields@.subrange(0, k + 1);
        proof {
            assert(prefix.drop_last() =~= fields@.subrange(0, k as int));
            assert(prefix.last() == f);
            lemma_assign_fields_sizes(g0, parts0, x, fields@, k + 1);
        }
        let ok = assign_one(graph, parts, x, f);
        proof {
            assert(nodes_copied_from(qgraph_nodes(*graph), before.0)) by {
                assert forall|i: int| before.0.len() <= i < qgraph_nodes(*graph).len() implies #[trigger] is_copy_of(
                    qgraph_nodes(*graph),
                    before.0,
                    i,
                ) by {
                    assert(qgraph_nodes(*graph)[i] == before.0[f.original_partition_node_ix as int]);
                }
            }
            lemma_nodes_copied_trans(qgraph_nodes(*graph), before.0, g0.0);
        }
        if !ok {
            proof {
                let a = assign_fields(g0, parts0, x, fields@);
                let b = assign_fields(g0, parts0, x, prefix);
                lemma_assign_fields_sizes(g0, parts0, x, prefix, 0);
            }
            return false;
        }
        k = k + 1;
    }
    assert(fields@.subrange(0, k as int) =~= fields@);
    true
}

/// Visits node `x` (`split_step`), while the graph has room. Returns whether there was room, and
/// the nodes to visit next.
fn split_below(graph: &mut Graph<Node, Edge>, positions: &Vec<Option<QueryPosition>>, x: usize) -> (r: (bool, Vec<usize>))
    requires
        x < qgraph_nodes(*old(graph)).len(),
        crate::mutation_order::fields_within(qgraph_nodes(*old(graph)), positions@.len()),
    ensures
        ({
            let spec = split_step(view_of(*old(graph)), positions@, x);
            &&& r.1@ == spec.1
            &&& r.0 ==> view_of(*final(graph)) == spec.0
            &&& !r.0 ==> spec.0.0.len() >= u32::MAX || spec.0.1.len() >= u32::MAX
        }),
        nodes_copied_from(qgraph_nodes(*final(graph)), qgraph_nodes(*old(graph))),
{
    let ghost g0 = view_of(*graph);
    let (found_parts, fields, next) = scan_below(graph, positions, x);
    proof {
        assert(nodes_copied_from(g0.0, g0.0));
    }
    if fields.len() == 0 {
        return (true, next);
    }
    let mut parts = found_parts;
    let sorted = sort_fields(&fields);
    proof {
        lemma_stable_sort_elements(fields@);
        assert forall|i: int| 0 <= i < sorted@.len() implies #[trigger] sorted@[i].field_node_ix < g0.0.len()
            && sorted@[i].original_partition_node_ix < g0.0.len() by {
            assert(fields@.contains(sorted@[i]));
            let j = choose|j: int| 0 <= j < fields@.len() && fields@[j] == sorted@[i];
        }
        lemma_detach_sizes(g0, sorted@);
    }
    detach_all(graph, &sorted);
    let ok = assign_all(graph, &mut parts, x, &sorted);
    (ok, next)
}

/// Walks down from `starting_nodes` (the last one first), visiting each node once: the fields
/// of the partitions below each node are dealt out again, sorted by position, each to the first
/// partition of its resolver that holds no field linked to it, or to a new copy of its own
/// partition (`split_walk`). Returns false when the graph ran out of room (`u32::MAX` nodes or
/// edges), where it stops; the graph always has room when what the walk adds fits. No node is
/// removed or changed: every node added is a copy of a node of the graph.
pub fn split_query_partition_dependency_cycles(
    graph: &mut Graph<Node, Edge>,
    starting_nodes: Vec<usize>,
    positions: &Vec<Option<QueryPosition>>,
) -> (r: bool)
    requires
        crate::mutation_order::fields_within(qgraph_nodes(*old(graph)), positions@.len()),
    ensures
        ({
            let spec = split_walk(view_of(*old(graph)), positions@, starting_nodes@, cleared_bits(qgraph_nodes(*old(graph)).len()));
            &&& r ==> view_of(*final(graph)) == spec.0
            &&& (qgraph_nodes(*old(graph)).len() + spec.1 < u32::MAX && qgraph_edges(*old(graph)).len() + spec.2
                < u32::MAX) ==> r
        }),
        nodes_copied_from(qgraph_nodes(*final(graph)), qgraph_nodes(*old(graph))),
{
    let n0 = qg_node_count(graph);
    let e0 = qg_edge_count(graph);
    let ghost total = split_walk(view_of(*graph), positions@, starting_nodes@, cleared_bits(n0 as nat));
    let mut visited = bitset_with_capacity(n0);
    let mut stack = starting_nodes;
    let ghost mut added_nodes: nat = 0;
    let ghost mut added_edges: nat = 0;
    while stack.len() > 0
        invariant
            n0 == qgraph_nodes(*old(graph)).len(),
            e0 == qgraph_edges(*old(graph)).len(),
            total == split_walk(view_of(*old(graph)), positions@, starting_nodes@, cleared_bits(n0 as nat)),
            bitset_bits(visited).len() == n0,
            ({
                let rest = split_walk(view_of(*graph), positions@, stack@, bitset_bits(visited));
                &&& rest.0 == total.0
                &&& added_nodes + rest.1 == total.1
                &&& added_edges + rest.2 == total.2
            }),
            qgraph_nodes(*graph).len() == n0 + added_nodes,
            qgraph_edges(*graph).len() <= e0 + added_edges,
            nodes_copied_from(qgraph_nodes(*graph), qgraph_nodes(*old(graph))),
            crate::mutation_order::fields_within(qgraph_nodes(*old(graph)), positions@.len()),
        decreases count_false(bitset_bits(visited)), stack@.len(),
    {
        let ghost before_stack = stack@;
        let x = stack.pop().unwrap();
        proof {
            assert(before_stack.last() == x);
            assert(before_stack.drop_last() =~= stack@);
        }
        if x >= n0 {
            continue;
        }
        let ghost before_visited = bitset_bits(visited);
        let was_visited = bitset_put(&mut visited, x);
        if was_visited {
            proof {
                assert(bitset_bits(visited) =~= before_visited);
            }
            continue;
        }
        proof {
            lemma_count_false_set(before_visited, x as int);
            lemma_fields_within_copied(qgraph_nodes(*graph), qgraph_nodes(*old(graph)), positions@.len());
            lemma_split_step_sizes(view_of(*graph), positions@, x);
        }
        let ghost g_before = view_of(*graph);
        let (ok, next) = split_below(graph, positions, x);
        proof {
            lemma_nodes_copied_trans(qgraph_nodes(*graph), g_before.0, qgraph_nodes(*old(graph)));
        }
        if !ok {
            return false;
        }
        proof {
            let st = split_step(g_before, positions@, x);
            lemma_nodes_copied_trans(qgraph_nodes(*graph), g_before.0, qgraph_nodes(*old(graph)));
            added_nodes = added_nodes + st.2;
            added_edges = added_edges + st.3;
        }
        let mut j: usize = 0;
        let ghost stack_base = stack@;
        while j < next.len()
            invariant
                j <= next@.len(),
                stack@ == stack_base + next@.subrange(0, j as int),
            decreases next@.len() - j,
        {
            stack.push(next[j]);
            proof {
                assert(next@.subrange(0, j + 1) =~= next@.subrange(0, j as int).push(next@[j as int]));
            }
            j = j + 1;
        }
        assert(next@.subrange(0, j as int) =~= next@);
    }
    true
}

/// Law: a field only ever joins a partition of its own resolver that holds no field linked to
/// it, one of the partitions at hand.
pub proof fn law_free_partition_is_unlinked(
    g: QView,
    parts: Seq<(usize, ResolverDefinitionId)>,
    resolver: ResolverDefinitionId,
    field: usize,
)
    ensures
        first_free_partition(g, parts, resolver, field) matches Some(p) ==> !is_linked(g, p, field) && exists|i: int|
            0 <= i < parts.len() && #[trigger] parts[i] == (p, resolver),
        first_free_partition(g, parts, resolver, field) is None ==> forall|i: int|
            0 <= i < parts.len() && #[trigger] parts[i].1 == resolver ==> is_linked(g, parts[i].0, field),
    decreases parts.len(),
{
    if parts.len() > 0 {
        law_free_partition_is_unlinked(g, parts.drop_first(), resolver, field);
        if !(parts[0].1 == resolver && !is_linked(g, parts[0].0, field)) {
            if let Some(p) = first_free_partition(g, parts.drop_first(), resolver, field) {
                let i = choose|i: int| 0 <= i < parts.drop_first().len() && #[trigger] parts.drop_first()[i] == (p, resolver);
                assert(parts[i + 1] == (p, resolver));
            } else {
                assert forall|i: int| 0 <= i < parts.len() && #[trigger] parts[i].1 == resolver implies is_linked(
                    g,
                    parts[i].0,
                    field,
                ) by {
                    if i > 0 {
                        assert(parts.drop_first()[i - 1] == parts[i]);
                    }
                }
            }
        } else {
            assert(parts[0] == (parts[0].0, resolver));
        }
    }
}

/// Inserting into sorted fields keeps them sorted.
proof fn lemma_insert_sorted(s: Seq<PartitionField>, x: PartitionField)
    requires
        sorted_by_position(s),
    ensures
        sorted_by_position(insert_by_position(s, x)),
        insert_by_position(s, x).to_multiset() == s.to_multiset().insert(x),
    decreases s.len(),
{
    broadcast use vstd::seq_lib::group_to_multiset_ensures;

    if s.len() == 0 {
        assert(seq![x] =~= Seq::<PartitionField>::empty().push(x));
        assert(Seq::<PartitionField>::empty().to_multiset() =~= vstd::multiset::Multiset::empty());
    } else if position_le(s.last().position, x.position) {
        let r = s.push(x);
        assert forall|i: int, j: int| 0 <= i < j < r.len() implies position_le(#[trigger] r[i].position, #[trigger] r[j].position) by {
            if j == r.len() - 1 && i < s.len() - 1 {
                assert(position_le(s[i].position, s[s.len() - 1].position));
            }
        }
    } else {
        let d = s.drop_last();
        assert forall|i: int, j: int| 0 <= i < j < d.len() implies position_le(#[trigger] d[i].position, #[trigger] d[j].position) by {
            assert(d[i] == s[i] && d[j] == s[j]);
        }
        lemma_insert_sorted(d, x);
        lemma_insert_by_position_elements(d, x);
        let m = insert_by_position(d, x);
        let r = m.push(s.last());
        assert forall|i: int, j: int| 0 <= i < j < r.len() implies position_le(#[trigger] r[i].position, #[trigger] r[j].position) by {
            if j == r.len() - 1 {
                let y = m[i];
                if y != x {
                    assert(d.contains(y));
                    let k = choose|k: int| 0 <= k < d.len() && d[k] == y;
                    assert(s[k] == y);
                    assert(position_le(s[k].position, s[s.len() - 1].position));
                }
            } else {
                assert(r[i] == m[i] && r[j] == m[j]);
            }
        }
        assert(s =~= d.push(s.last()));
        assert(s.to_multiset() == d.to_multiset().insert(s.last()));
        assert(r.to_multiset() == m.to_multiset().insert(s.last()));
        assert(r.to_multiset() =~= s.to_multiset().insert(x));
    }
}

/// Law: sorting by position gives the same fields, sorted by position.
pub proof fn law_stable_sort(s: Seq<PartitionField>)
    ensures
        sorted_by_position(stable_sort(s)),
        stable_sort(s).to_multiset() == s.to_multiset(),
    decreases s.len(),
{
    broadcast use vstd::seq_lib::group_to_multiset_ensures;

    if s.len() == 0 {
        assert(Seq::<PartitionField>::empty().to_multiset() =~= vstd::multiset::Multiset::empty());
    } else {
        law_stable_sort(s.drop_last());
        lemma_insert_sorted(stable_sort(s.drop_last()), s.last());
        assert(s =~= s.drop_last().push(s.last()));
        assert(s.to_multiset() == s.drop_last().to_multiset().insert(s.last()));
    }
}

/// `h` is `g` with nodes and edges appended only, every entry of an outgoing list kept.
pub open spec fn view_extends(
    g: QView,
    h: QView,
) -> bool {
    &&& g.0.len() <= h.0.len()
    &&& g.1.len() <= h.1.len()
    &&& g.2.len() <= h.2.len()
    &&& forall|i: int| 0 <= i < g.0.len() ==> #[trigger] h.0[i] == g.0[i]
    &&& forall|k: int| 0 <= k < g.1.len() ==> #[trigger] h.1[k] == g.1[k]
    &&& forall|a: int, j: int| 0 <= a < g.2.len() && 0 <= j < g.2[a].len() ==> h.2[a].contains(#[trigger] g.2[a][j])
}

/// Every `RequiredBySubgraph` edge that `h` has beyond those of `g` leaves a node that `g`
/// does not have.
pub open spec fn adds_requirements_from_new_nodes(
    g: QView,
    h: QView,
) -> bool {
    forall|k: int|
        g.1.len() <= k < h.1.len() && #[trigger] h.1[k].2 is RequiredBySubgraph ==> h.1[k].0 >= g.0.len()
}

/// Adding an edge from a node of the view extends it.
proof fn lemma_add_edge_extends(g: QView, a: usize, b: usize, w: Edge)
    requires
        view_wf(g),
        a < g.0.len(),
    ensures
        view_extends(g, view_add_edge(g, a, b, w)),
{
    let h = view_add_edge(g, a, b, w);
    assert forall|x: int, j: int| 0 <= x < g.2.len() && 0 <= j < g.2[x].len() implies h.2[x].contains(#[trigger] g.2[x][j]) by {
        if x == a as int {
            assert(h.2[x][j + 1] == g.2[x][j]);
        } else {
            assert(h.2[x][j] == g.2[x][j]);
        }
    }
}

/// Adding a node extends the view.
proof fn lemma_add_node_extends(g: QView, n: Node)
    ensures
        view_extends(g, view_add_node(g, n)),
{
    let h = view_add_node(g, n);
    assert forall|x: int, j: int| 0 <= x < g.2.len() && 0 <= j < g.2[x].len() implies h.2[x].contains(#[trigger] g.2[x][j]) by {
        assert(h.2[x][j] == g.2[x][j]);
    }
}

/// Extending is transitive.
proof fn lemma_extends_trans(g: QView, h: QView, k: QView)
    requires
        view_extends(g, h),
        view_extends(h, k),
    ensures
        view_extends(g, k),
{
    assert forall|x: int, j: int| 0 <= x < g.2.len() && 0 <= j < g.2[x].len() implies k.2[x].contains(#[trigger] g.2[x][j]) by {
        assert(h.2[x].contains(g.2[x][j]));
        let i = choose|i: int| 0 <= i < h.2[x].len() && h.2[x][i] == g.2[x][j];
        assert(k.2[x].contains(h.2[x][i]));
    }
}

/// In a well formed view, every edge that `out_edges` lists goes into a node of the view.
proof fn lemma_out_edges_bounded(g: QView, a: usize)
    requires
        view_wf(g),
        a < g.0.len(),
    ensures
        forall|j: int| #![trigger out_edges(g.2, a)[j]] 0 <= j < out_edges(g.2, a).len() ==> out_edges(g.2, a)[j].1 < g.0.len(),
{
    assert forall|j: int| #![trigger out_edges(g.2, a)[j]] 0 <= j < out_edges(g.2, a).len() implies out_edges(g.2, a)[j].1
        < g.0.len() by {
        assert(out_edges(g.2, a)[j] == g.2[a as int][j]);
    }
}

/// Copying the dependencies of a partition onto the node `new` only appends edges out of
/// `new`, to nodes of the graph.
proof fn lemma_copy_dependencies_appends(
    g: QView,
    new: usize,
    outs: Seq<(usize, usize, Edge)>,
)
    requires
        view_wf(g),
        new < g.0.len(),
        forall|j: int| 0 <= j < outs.len() ==> #[trigger] outs[j].1 < g.0.len(),
    ensures
        view_wf(copy_dependencies(g, new, outs)),
        view_extends(g, copy_dependencies(g, new, outs)),
        copy_dependencies(g, new, outs).0 == g.0,
        forall|k: int|
            g.1.len() <= k < copy_dependencies(g, new, outs).1.len() ==> #[trigger] copy_dependencies(g, new, outs).1[k].0
                == new,
    decreases outs.len(),
{
    if outs.len() > 0 {
        let d = outs.drop_last();
        assert forall|j: int| 0 <= j < d.len() implies #[trigger] d[j].1 < g.0.len() by {
            assert(d[j] == outs[j]);
        }
        lemma_copy_dependencies_appends(g, new, d);
        assert(outs.last().1 < g.0.len());
        let prev = copy_dependencies(g, new, d);
        let (_, t, kind) = outs.last();
        if kind is RequiredBySubgraph || kind is MutationExecutedAfter {
            lemma_add_edge_extends(prev, new, t, kind);
            lemma_extends_trans(g, prev, copy_dependencies(g, new, outs));
        }
    }
}

/// The partition that `assign_field` deals `f` to: the first free one, or the node it adds.
pub open spec fn chosen_partition(
    g: QView,
    parts: Seq<(usize, ResolverDefinitionId)>,
    f: PartitionField,
) -> usize {
    match first_free_partition(g, parts, f.resolver_definition_id, f.field_node_ix) {
        Some(p) => p,
        None => g.0.len() as usize,
    }
}

/// Dealing out one field only appends nodes and edges, its last edge the `Field` edge from the
/// chosen partition to the field, and every `RequiredBySubgraph` edge it adds leaves the node
/// it adds.
proof fn lemma_assign_field_appends(
    g: QView,
    parts: Seq<(usize, ResolverDefinitionId)>,
    x: usize,
    f: PartitionField,
)
    requires
        view_wf(g),
        g.0.len() < usize::MAX,
        x < g.0.len(),
        f.field_node_ix < g.0.len(),
        f.original_partition_node_ix < g.0.len(),
        forall|i: int| 0 <= i < parts.len() ==> #[trigger] parts[i].0 < g.0.len(),
    ensures
        ({
            let r = assign_field(g, parts, x, f);
            &&& view_wf(r.0)
            &&& view_extends(g, r.0)
            &&& adds_requirements_from_new_nodes(g, r.0)
            &&& r.0.0.len() <= g.0.len() + 1
            &&& forall|i: int| 0 <= i < r.1.len() ==> #[trigger] r.1[i].0 < r.0.0.len()
            &&& r.0.1.len() > g.1.len()
            &&& r.0.1.last() == (chosen_partition(g, parts, f), f.field_node_ix, Edge::Field)
            &&& chosen_partition(g, parts, f) < r.0.0.len()
            &&& r.0.2[chosen_partition(g, parts, f) as int].len() > 0
            &&& r.0.2[chosen_partition(g, parts, f) as int][0] == ((r.0.1.len() - 1) as usize, f.field_node_ix, Edge::Field)
        }),
{
    law_free_partition_is_unlinked(g, parts, f.resolver_definition_id, f.field_node_ix);
    match first_free_partition(g, parts, f.resolver_definition_id, f.field_node_ix) {
        Some(p) => {
            let i = choose|i: int| 0 <= i < parts.len() && #[trigger] parts[i] == (p, f.resolver_definition_id);
            assert(parts[i].0 < g.0.len());
            lemma_add_edge_extends(g, p, f.field_node_ix, Edge::Field);
            lemma_view_add_edge_wf(g, p, f.field_node_ix, Edge::Field);
        },
        None => {
            let new = g.0.len() as usize;
            let g2 = view_add_node(g, g.0[f.original_partition_node_ix as int]);
            let g3 = view_add_edge(g2, x, new, Edge::QueryPartition);
            let outs = out_edges(g3.2, f.original_partition_node_ix);
            lemma_view_add_node_wf(g, g.0[f.original_partition_node_ix as int]);
            lemma_view_add_edge_wf(g2, x, new, Edge::QueryPartition);
            lemma_out_edges_bounded(g3, f.original_partition_node_ix);
            lemma_copy_dependencies_appends(g3, new, outs);
            let g4 = copy_dependencies(g3, new, outs);
            let r = assign_field(g, parts, x, f);
            assert(r.0 == view_add_edge(g4, new, f.field_node_ix, Edge::Field));
            lemma_view_add_edge_wf(g4, new, f.field_node_ix, Edge::Field);
            lemma_add_node_extends(g, g.0[f.original_partition_node_ix as int]);
            lemma_add_edge_extends(g2, x, new, Edge::QueryPartition);
            lemma_add_edge_extends(g4, new, f.field_node_ix, Edge::Field);
            lemma_extends_trans(g, g2, g3);
            lemma_extends_trans(g, g3, g4);
            lemma_extends_trans(g, g4, r.0);
            assert forall|k: int|
                g.1.len() <= k < r.0.1.len() && #[trigger] r.0.1[k].2 is RequiredBySubgraph implies r.0.1[k].0 >= g.0.len() by {
                if k < g4.1.len() && k > g.1.len() {
                    assert(r.0.1[k] == g4.1[k]);
                }
            }
            assert forall|i: int| 0 <= i < r.1.len() implies #[trigger] r.1[i].0 < r.0.0.len() by {
                if i < parts.len() {
                    assert(r.1[i] == parts[i]);
                }
            }
        },
    }
}

/// The fields dealt out so far, after `m` of them.
pub open spec fn dealt_prefix(
    g: QView,
    parts: Seq<(usize, ResolverDefinitionId)>,
    x: usize,
    fields: Seq<PartitionField>,
    m: int,
) -> (QView, Seq<(usize, ResolverDefinitionId)>, nat, nat) {
    assign_fields(g, parts, x, fields.take(m))
}

/// Dealing one more field is one `assign_field` step.
proof fn lemma_dealt_prefix_step(
    g: QView,
    parts: Seq<(usize, ResolverDefinitionId)>,
    x: usize,
    fields: Seq<PartitionField>,
    m: int,
)
    requires
        0 <= m < fields.len(),
    ensures
        dealt_prefix(g, parts, x, fields, m + 1).0 == assign_field(
            dealt_prefix(g, parts, x, fields, m).0,
            dealt_prefix(g, parts, x, fields, m).1,
            x,
            fields[m],
        ).0,
        dealt_prefix(g, parts, x, fields, m + 1).1 == assign_field(
            dealt_prefix(g, parts, x, fields, m).0,
            dealt_prefix(g, parts, x, fields, m).1,
            x,
            fields[m],
        ).1,
{
    assert(fields.take(m + 1).drop_last() =~= fields.take(m));
    assert(fields.take(m + 1).last() == fields[m]);
}

/// The preconditions of the dealing, for the whole of it: a well formed view, nodes of it, and
/// room for the nodes the dealing adds.
pub open spec fn dealing_fits(
    g: QView,
    parts: Seq<(usize, ResolverDefinitionId)>,
    x: usize,
    fields: Seq<PartitionField>,
) -> bool {
    &&& view_wf(g)
    &&& x < g.0.len()
    &&& forall|i: int|
        0 <= i < fields.len() ==> #[trigger] fields[i].field_node_ix < g.0.len() && fields[i].original_partition_node_ix
            < g.0.len()
    &&& forall|i: int| 0 <= i < parts.len() ==> #[trigger] parts[i].0 < g.0.len()
    &&& assign_fields(g, parts, x, fields).0.0.len() < usize::MAX
}

/// After `m` fields: the view is well formed and extends `g` by at most `m` nodes, and the
/// partitions at hand are nodes of it.
proof fn lemma_dealt_prefix_wf(
    g: QView,
    parts: Seq<(usize, ResolverDefinitionId)>,
    x: usize,
    fields: Seq<PartitionField>,
    m: int,
)
    requires
        dealing_fits(g, parts, x, fields),
        0 <= m <= fields.len(),
    ensures
        ({
            let s = dealt_prefix(g, parts, x, fields, m);
            &&& view_wf(s.0)
            &&& view_extends(g, s.0)
            &&& s.0.0.len() <= g.0.len() + m
            &&& s.0.0.len() <= assign_fields(g, parts, x, fields).0.0.len()
            &&& forall|i: int| 0 <= i < s.1.len() ==> #[trigger] s.1[i].0 < s.0.0.len()
        }),
    decreases m,
{
    lemma_assign_fields_sizes(g, parts, x, fields, m);
    lemma_assign_fields_sizes(g, parts, x, fields.subrange(0, m), 0);
    assert(fields.take(m) =~= fields.subrange(0, m));
    if m == 0 {
        assert(fields.take(0) =~= Seq::<PartitionField>::empty());
    } else {
        lemma_dealt_prefix_wf(g, parts, x, fields, m - 1);
        lemma_dealt_prefix_step(g, parts, x, fields, m - 1);
        let s = dealt_prefix(g, parts, x, fields, m - 1);
        assert(fields[m - 1].field_node_ix < g.0.len());
        lemma_assign_field_appends(s.0, s.1, x, fields[m - 1]);
    }
}

/// From `k` fields dealt to `m`, the view only grows, and every `RequiredBySubgraph` edge added
/// leaves a node added.
proof fn lemma_dealt_prefix_chain(
    g: QView,
    parts: Seq<(usize, ResolverDefinitionId)>,
    x: usize,
    fields: Seq<PartitionField>,
    k: int,
    m: int,
)
    requires
        dealing_fits(g, parts, x, fields),
        0 <= k <= m <= fields.len(),
    ensures
        view_extends(dealt_prefix(g, parts, x, fields, k).0, dealt_prefix(g, parts, x, fields, m).0),
        adds_requirements_from_new_nodes(dealt_prefix(g, parts, x, fields, k).0, dealt_prefix(g, parts, x, fields, m).0),
    decreases m - k,
{
    if k < m {
        lemma_dealt_prefix_chain(g, parts, x, fields, k, m - 1);
        lemma_dealt_prefix_wf(g, parts, x, fields, m - 1);
        lemma_dealt_prefix_step(g, parts, x, fields, m - 1);
        let sk = dealt_prefix(g, parts, x, fields, k).0;
        let s1 = dealt_prefix(g, parts, x, fields, m - 1);
        let sm = dealt_prefix(g, parts, x, fields, m).0;
        assert(fields[m - 1].field_node_ix < g.0.len());
        lemma_assign_field_appends(s1.0, s1.1, x, fields[m - 1]);
        assert forall|j: int|
            sk.1.len() <= j < sm.1.len() && #[trigger] sm.1[j].2 is RequiredBySubgraph implies sm.1[j].0 >= sk.0.len() by {
            if j < s1.0.1.len() {
                assert(sm.1[j] == s1.0.1[j]);
            }
        }
    }
}

/// Growing a view by nodes and by edges whose `RequiredBySubgraph` ones leave new nodes links no
/// two nodes that were not linked: a walk from an old node never takes a new edge.
proof fn lemma_required_walk_stays(
    g: QView,
    h: QView,
    p: Seq<usize>,
    i: int,
)
    requires
        view_wf(g),
        view_extends(g, h),
        adds_requirements_from_new_nodes(g, h),
        is_required_walk(h.1, p),
        p[0] < g.0.len(),
        0 <= i < p.len(),
    ensures
        p[i] < g.0.len(),
        i + 1 < p.len() ==> required_step(g.1, p[i], p[i + 1]),
    decreases i,
{
    if i > 0 {
        lemma_required_walk_stays(g, h, p, i - 1);
    }
    if i + 1 < p.len() {
        assert(required_step(h.1, p[i], p[i + 1]));
        let k = choose|k: int| 0 <= k < h.1.len() && #[trigger] h.1[k] == (p[i], p[i + 1], Edge::RequiredBySubgraph);
        if k >= g.1.len() {
            assert(h.1[k].2 is RequiredBySubgraph);
        }
        assert(g.1[k] == h.1[k]);
    }
}

/// See `lemma_required_walk_stays`.
proof fn lemma_no_new_required_path(
    g: QView,
    h: QView,
    u: usize,
    w: usize,
)
    requires
        view_wf(g),
        view_extends(g, h),
        adds_requirements_from_new_nodes(g, h),
        u < g.0.len(),
        required_path(h.1, u, w),
    ensures
        required_path(g.1, u, w),
{
    let p = choose|p: Seq<usize>| #[trigger] is_required_walk(h.1, p) && p[0] == u && p.last() == w;
    assert forall|i: int| 0 <= i < p.len() - 1 implies #[trigger] required_step(g.1, p[i], p[i + 1]) by {
        lemma_required_walk_stays(g, h, p, i);
    }
    assert(is_required_walk(g.1, p));
}

/// The partition that field `k` is dealt to.
pub open spec fn dealt_to(
    g: QView,
    parts: Seq<(usize, ResolverDefinitionId)>,
    x: usize,
    fields: Seq<PartitionField>,
    k: int,
) -> usize {
    let s = dealt_prefix(g, parts, x, fields, k);
    chosen_partition(s.0, s.1, fields[k])
}

/// Law: when the fields below a node are dealt out again (`assign_fields`, as `split_step` does
/// for each node the walk visits), no two fields dealt to the same partition are linked by
/// `RequiredBySubgraph` edges, either way, in the resulting graph: that partition does not wait
/// on itself through them.
pub proof fn law_fields_dealt_apart(
    g: QView,
    parts: Seq<(usize, ResolverDefinitionId)>,
    x: usize,
    fields: Seq<PartitionField>,
    a: int,
    b: int,
)
    requires
        dealing_fits(g, parts, x, fields),
        0 <= a < b < fields.len(),
        dealt_to(g, parts, x, fields, a) == dealt_to(g, parts, x, fields, b),
    ensures
        !required_path(assign_fields(g, parts, x, fields).0.1, fields[a].field_node_ix, fields[b].field_node_ix),
        !required_path(assign_fields(g, parts, x, fields).0.1, fields[b].field_node_ix, fields[a].field_node_ix),
{
    let n = fields.len() as int;
    let p = dealt_to(g, parts, x, fields, a);
    let fa = fields[a].field_node_ix;
    let fb = fields[b].field_node_ix;
    assert(fields.take(n) =~= fields);
    lemma_dealt_prefix_wf(g, parts, x, fields, a);
    lemma_dealt_prefix_wf(g, parts, x, fields, b);
    lemma_dealt_prefix_step(g, parts, x, fields, a);
    let sa = dealt_prefix(g, parts, x, fields, a);
    let sa1 = dealt_prefix(g, parts, x, fields, a + 1).0;
    let sb = dealt_prefix(g, parts, x, fields, b);
    let sn = dealt_prefix(g, parts, x, fields, n).0;
    assert(fields[a].field_node_ix < g.0.len());
    lemma_assign_field_appends(sa.0, sa.1, x, fields[a]);
    // The `Field` edge from `p` to field `a`, added at step `a`, is still there at step `b`.
    let ia = sa1.1.len() - 1;
    assert(sa1.1[ia] == (p, fa, Edge::Field));
    lemma_dealt_prefix_chain(g, parts, x, fields, a + 1, b);
    assert(sb.0.1[ia] == (p, fa, Edge::Field));
    assert(sa1.2[p as int][0] == (ia as usize, fa, Edge::Field));
    lemma_dealt_prefix_wf(g, parts, x, fields, a + 1);
    assert(p < sa1.2.len() && 0 < sa1.2[p as int].len());
    assert(sb.0.2[p as int].contains(sa1.2[p as int][0]));
    let outs = out_edges(sb.0.2, p);
    let j = choose|j: int| 0 <= j < outs.len() && outs[j] == sa1.2[p as int][0];
    assert(outs[j].2 is Field && outs[j].1 == fa);
    // So field `b` could only join `p` because no field of `p`, `a` among them, is linked to it.
    law_free_partition_is_unlinked(sb.0, sb.1, fields[b].resolver_definition_id, fb);
    match first_free_partition(sb.0, sb.1, fields[b].resolver_definition_id, fb) {
        Some(q) => {
            assert(q == p);
            assert(!is_linked(sb.0, p, fb));
        },
        None => {
            assert(p == sb.0.0.len() as usize);
        },
    }
    assert(!required_path(sb.0.1, fa, fb) && !required_path(sb.0.1, fb, fa));
    // Nothing dealt afterwards links them.
    lemma_dealt_prefix_chain(g, parts, x, fields, b, n);
    if required_path(sn.1, fa, fb) {
        lemma_no_new_required_path(sb.0, sn, fa, fb);
    }
    if required_path(sn.1, fb, fa) {
        lemma_no_new_required_path(sb.0, sn, fb, fa);
    }
}

/// Every `RequiredBySubgraph` edge of `h` is one of `g`, or leaves a node that `g` does not
/// have; `h` has every node of `g`.
pub open spec fn keeps_requirements(g: QView, h: QView) -> bool {
    &&& g.0.len() <= h.0.len()
    &&& forall|k: int|
        0 <= k < h.1.len() && (#[trigger] h.1[k]).2 is RequiredBySubgraph ==> h.1[k].0 >= g.0.len() || required_step(
            g.1,
            h.1[k].0,
            h.1[k].1,
        )
}

/// A view keeps its own requirements.
proof fn lemma_keeps_refl(g: QView)
    ensures
        keeps_requirements(g, g),
{
    assert forall|k: int| 0 <= k < g.1.len() && (#[trigger] g.1[k]).2 is RequiredBySubgraph implies g.1[k].0 >= g.0.len()
        || required_step(g.1, g.1[k].0, g.1[k].1) by {
        assert(g.1[k] == (g.1[k].0, g.1[k].1, Edge::RequiredBySubgraph));
    }
}

/// Keeping requirements is transitive.
proof fn lemma_keeps_trans(g: QView, m: QView, h: QView)
    requires
        keeps_requirements(g, m),
        keeps_requirements(m, h),
    ensures
        keeps_requirements(g, h),
{
    assert forall|k: int| 0 <= k < h.1.len() && (#[trigger] h.1[k]).2 is RequiredBySubgraph implies h.1[k].0 >= g.0.len()
        || required_step(g.1, h.1[k].0, h.1[k].1) by {
        if h.1[k].0 < m.0.len() {
            assert(required_step(m.1, h.1[k].0, h.1[k].1));
            let j = choose|j: int| 0 <= j < m.1.len() && #[trigger] m.1[j] == (h.1[k].0, h.1[k].1, Edge::RequiredBySubgraph);
            assert(m.1[j].2 is RequiredBySubgraph);
        }
    }
}

/// A view extended only by edges whose `RequiredBySubgraph` ones leave new nodes keeps the
/// requirements.
proof fn lemma_extends_keeps(g: QView, h: QView)
    requires
        view_extends(g, h),
        adds_requirements_from_new_nodes(g, h),
    ensures
        keeps_requirements(g, h),
{
    assert forall|k: int| 0 <= k < h.1.len() && (#[trigger] h.1[k]).2 is RequiredBySubgraph implies h.1[k].0 >= g.0.len()
        || required_step(g.1, h.1[k].0, h.1[k].1) by {
        if k < g.1.len() {
            assert(h.1[k] == g.1[k]);
            assert(g.1[k] == (h.1[k].0, h.1[k].1, Edge::RequiredBySubgraph));
        }
    }
}

/// Removing an edge keeps the requirements: every edge left is one of the graph.
proof fn lemma_remove_keeps(g: QView, a: usize, b: usize)
    ensures
        keeps_requirements(g, view_remove_edge_between(g, a, b)),
{
    lemma_view_remove_edge_wf(g, a, b);
    let h = view_remove_edge_between(g, a, b);
    assert forall|k: int| 0 <= k < h.1.len() && (#[trigger] h.1[k]).2 is RequiredBySubgraph implies h.1[k].0 >= g.0.len()
        || required_step(g.1, h.1[k].0, h.1[k].1) by {
        let j = match first_out_to(g.2[a as int], b) {
            Some(e) => if 0 <= e < g.1.len() && k == e as int {
                g.1.len() - 1
            } else {
                k
            },
            None => k,
        };
        assert(h.1[k] == g.1[j]);
        assert(g.1[j] == (h.1[k].0, h.1[k].1, Edge::RequiredBySubgraph));
    }
}

/// Detaching fields keeps the requirements.
proof fn lemma_detach_keeps(g: QView, fields: Seq<PartitionField>)
    ensures
        keeps_requirements(g, detach_fields(g, fields)),
    decreases fields.len(),
{
    if fields.len() == 0 {
        lemma_keeps_refl(g);
    } else {
        lemma_detach_keeps(g, fields.drop_last());
        let prev = detach_fields(g, fields.drop_last());
        lemma_remove_keeps(prev, fields.last().original_partition_node_ix, fields.last().field_node_ix);
        lemma_keeps_trans(g, prev, detach_fields(g, fields));
    }
}

/// A walk along `RequiredBySubgraph` edges of a view that keeps the requirements of `g`, from a
/// node of `g`, only takes edges of `g`.
proof fn lemma_kept_walk_stays(g: QView, h: QView, p: Seq<usize>, i: int)
    requires
        view_wf(g),
        keeps_requirements(g, h),
        is_required_walk(h.1, p),
        p[0] < g.0.len(),
        0 <= i < p.len(),
    ensures
        p[i] < g.0.len(),
        i + 1 < p.len() ==> required_step(g.1, p[i], p[i + 1]),
    decreases i,
{
    if i > 0 {
        lemma_kept_walk_stays(g, h, p, i - 1);
        assert(required_step(g.1, p[i - 1], p[i]));
        let j = choose|j: int| 0 <= j < g.1.len() && #[trigger] g.1[j] == (p[i - 1], p[i], Edge::RequiredBySubgraph);
        assert(g.1[j].1 < g.0.len());
    }
    if i + 1 < p.len() {
        assert(required_step(h.1, p[i], p[i + 1]));
        let k = choose|k: int| 0 <= k < h.1.len() && #[trigger] h.1[k] == (p[i], p[i + 1], Edge::RequiredBySubgraph);
        assert(h.1[k].2 is RequiredBySubgraph);
    }
}

/// See `lemma_kept_walk_stays`.
proof fn lemma_kept_required_path(g: QView, h: QView, u: usize, w: usize)
    requires
        view_wf(g),
        keeps_requirements(g, h),
        u < g.0.len(),
        required_path(h.1, u, w),
    ensures
        required_path(g.1, u, w),
{
    let p = choose|p: Seq<usize>| #[trigger] is_required_walk(h.1, p) && p[0] == u && p.last() == w;
    assert forall|i: int| 0 <= i < p.len() - 1 implies #[trigger] required_step(g.1, p[i], p[i + 1]) by {
        lemma_kept_walk_stays(g, h, p, i);
    }
    assert(is_required_walk(g.1, p));
}

/// The fields of a partition that `partition_children` collects are below `n` when the
/// partition and the targets of its edges are.
proof fn lemma_partition_children_bounded(
    nodes: Seq<Node>,
    positions: Seq<Option<QueryPosition>>,
    p: usize,
    resolver: ResolverDefinitionId,
    outs: Seq<(usize, usize, Edge)>,
    n: nat,
)
    requires
        p < n,
        forall|j: int| 0 <= j < outs.len() ==> #[trigger] outs[j].1 < n,
    ensures
        forall|i: int|
            0 <= i < partition_children(nodes, positions, p, resolver, outs).len() ==> (#[trigger] partition_children(
                nodes,
                positions,
                p,
                resolver,
                outs,
            )[i]).field_node_ix < n && partition_children(nodes, positions, p, resolver, outs)[i].original_partition_node_ix
                < n,
    decreases outs.len(),
{
    if outs.len() > 0 {
        let d = outs.drop_last();
        assert forall|j: int| 0 <= j < d.len() implies #[trigger] d[j].1 < n by {
            assert(d[j] == outs[j]);
        }
        lemma_partition_children_bounded(nodes, positions, p, resolver, d, n);
        assert(outs[outs.len() - 1].1 < n);
    }
}

/// What the walk finds through edges into nodes of a well formed view are nodes of it.
proof fn lemma_scan_bounded(g: QView, positions: Seq<Option<QueryPosition>>, outs: Seq<(usize, usize, Edge)>)
    requires
        view_wf(g),
        forall|j: int| 0 <= j < outs.len() ==> #[trigger] outs[j].1 < g.0.len(),
    ensures
        ({
            let found = scan(g.0, g.2, positions, outs);
            &&& forall|i: int| 0 <= i < found.0.len() ==> #[trigger] found.0[i].0 < g.0.len()
            &&& forall|i: int|
                0 <= i < found.1.len() ==> (#[trigger] found.1[i]).field_node_ix < g.0.len()
                    && found.1[i].original_partition_node_ix < g.0.len()
            &&& forall|i: int| 0 <= i < found.2.len() ==> #[trigger] found.2[i] < g.0.len()
        }),
    decreases outs.len(),
{
    if outs.len() > 0 {
        let d = outs.drop_last();
        assert forall|j: int| 0 <= j < d.len() implies #[trigger] d[j].1 < g.0.len() by {
            assert(d[j] == outs[j]);
        }
        lemma_scan_bounded(g, positions, d);
        let t = outs.last().1;
        assert(outs[outs.len() - 1].1 < g.0.len());
        if let Node::QueryPartition { resolver_definition_id, .. } = g.0[t as int] {
            lemma_out_edges_bounded(g, t);
            lemma_partition_children_bounded(g.0, positions, t, resolver_definition_id, out_edges(g.2, t), g.0.len());
            let children = partition_children(g.0, positions, t, resolver_definition_id, out_edges(g.2, t));
            let found = scan(g.0, g.2, positions, outs);
            let prev = scan(g.0, g.2, positions, d);
            if outs.last().2 is QueryPartition || outs.last().2 is Field {
                assert forall|i: int| 0 <= i < found.2.len() implies #[trigger] found.2[i] < g.0.len() by {
                    if i >= prev.2.len() {
                        assert(found.2[i] == children[i - prev.2.len()].field_node_ix);
                    }
                }
                assert forall|i: int| 0 <= i < found.1.len() implies (#[trigger] found.1[i]).field_node_ix < g.0.len()
                    && found.1[i].original_partition_node_ix < g.0.len() by {
                    if i >= prev.1.len() {
                        assert(found.1[i] == children[i - prev.1.len()]);
                    }
                }
            }
        }
    }
}

/// A visit of the walk keeps the requirements and the view well formed; the nodes it leaves to
/// visit are nodes of the view; and when it deals fields out, the dealing fits.
proof fn lemma_split_step_keeps(g: QView, positions: Seq<Option<QueryPosition>>, x: usize)
    requires
        view_wf(g),
        x < g.0.len(),
        split_step(g, positions, x).0.0.len() < usize::MAX,
    ensures
        ({
            let st = split_step(g, positions, x);
            let found = scan(g.0, g.2, positions, out_edges(g.2, x));
            let sorted = stable_sort(found.1);
            &&& keeps_requirements(g, st.0)
            &&& view_wf(st.0)
            &&& forall|i: int| 0 <= i < st.1.len() ==> #[trigger] st.1[i] < g.0.len()
            &&& found.1.len() > 0 ==> dealing_fits(detach_fields(g, sorted), found.0, x, sorted)
            &&& found.1.len() > 0 ==> st.0 == assign_fields(detach_fields(g, sorted), found.0, x, sorted).0
            &&& stable_sort(found.1).len() == found.1.len()
        }),
{
    let st = split_step(g, positions, x);
    let found = scan(g.0, g.2, positions, out_edges(g.2, x));
    let parts = found.0;
    lemma_out_edges_bounded(g, x);
    lemma_scan_bounded(g, positions, out_edges(g.2, x));
    lemma_stable_sort_elements(found.1);
    if found.1.len() == 0 {
        lemma_keeps_refl(g);
    } else {
        let sorted = stable_sort(found.1);
        let d = detach_fields(g, sorted);
        lemma_detach_sizes(g, sorted);
        lemma_detach_keeps(g, sorted);
        assert forall|i: int| 0 <= i < sorted.len() implies #[trigger] sorted[i].field_node_ix < d.0.len()
            && sorted[i].original_partition_node_ix < d.0.len() by {
            assert(found.1.contains(sorted[i]));
            let j = choose|j: int| 0 <= j < found.1.len() && found.1[j] == sorted[i];
            assert(found.1[j].field_node_ix < g.0.len());
        }
        assert(dealing_fits(d, parts, x, sorted));
        let n = sorted.len() as int;
        lemma_dealt_prefix_wf(d, parts, x, sorted, n);
        lemma_dealt_prefix_chain(d, parts, x, sorted, 0, n);
        assert(sorted.take(n) =~= sorted);
        assert(sorted.take(0) =~= Seq::<PartitionField>::empty());
        lemma_extends_keeps(d, st.0);
        lemma_keeps_trans(g, d, st.0);
    }
}

/// The walk never drops a node.
proof fn lemma_walk_grows(g: QView, positions: Seq<Option<QueryPosition>>, stack: Seq<usize>, visited: Seq<bool>)
    ensures
        split_walk(g, positions, stack, visited).0.0.len() >= g.0.len(),
    decreases count_false(visited), stack.len(),
{
    if stack.len() > 0 {
        let x = stack.last();
        if x >= visited.len() || visited[x as int] {
            lemma_walk_grows(g, positions, stack.drop_last(), visited);
        } else {
            let st = split_step(g, positions, x);
            lemma_split_step_sizes(g, positions, x);
            lemma_count_false_set(visited, x as int);
            lemma_walk_grows(st.0, positions, stack.drop_last() + st.1, visited.update(x as int, true));
        }
    }
}

/// The walk keeps the requirements: it never links two nodes it did not add unless they were
/// linked already.
proof fn lemma_walk_keeps(g: QView, positions: Seq<Option<QueryPosition>>, stack: Seq<usize>, visited: Seq<bool>)
    requires
        view_wf(g),
        forall|i: int| 0 <= i < stack.len() ==> #[trigger] stack[i] < g.0.len(),
        visited.len() <= g.0.len(),
        split_walk(g, positions, stack, visited).0.0.len() < usize::MAX,
    ensures
        keeps_requirements(g, split_walk(g, positions, stack, visited).0),
    decreases count_false(visited), stack.len(),
{
    if stack.len() == 0 {
        lemma_keeps_refl(g);
    } else {
        let x = stack.last();
        let rest_stack = stack.drop_last();
        assert forall|i: int| 0 <= i < rest_stack.len() implies #[trigger] rest_stack[i] < g.0.len() by {
            assert(rest_stack[i] == stack[i]);
        }
        if x >= visited.len() || visited[x as int] {
            lemma_walk_keeps(g, positions, rest_stack, visited);
        } else {
            let st = split_step(g, positions, x);
            let next_stack = rest_stack + st.1;
            let next_visited = visited.update(x as int, true);
            lemma_count_false_set(visited, x as int);
            lemma_walk_grows(st.0, positions, next_stack, next_visited);
            assert(stack[stack.len() - 1] < g.0.len());
            lemma_split_step_keeps(g, positions, x);
            assert forall|i: int| 0 <= i < next_stack.len() implies #[trigger] next_stack[i] < st.0.0.len() by {
                if i < rest_stack.len() {
                    assert(next_stack[i] == rest_stack[i]);
                } else {
                    assert(next_stack[i] == st.1[i - rest_stack.len()]);
                }
            }
            lemma_walk_keeps(st.0, positions, next_stack, next_visited);
            lemma_keeps_trans(g, st.0, split_walk(g, positions, stack, visited).0);
        }
    }
}

/// The fields the walk deals out again when it visits `x`, in the order it deals them.
pub open spec fn visit_fields(g: QView, positions: Seq<Option<QueryPosition>>, x: usize) -> Seq<PartitionField> {
    stable_sort(scan(g.0, g.2, positions, out_edges(g.2, x)).1)
}

/// The partition that the visit of `x` deals its field `k` to.
pub open spec fn visit_dealt_to(g: QView, positions: Seq<Option<QueryPosition>>, x: usize, k: int) -> usize {
    let found = scan(g.0, g.2, positions, out_edges(g.2, x));
    let sorted = stable_sort(found.1);
    dealt_to(detach_fields(g, sorted), found.0, x, sorted, k)
}

/// Law: when the walk visits a node (`x`, the last node of its stack, not visited yet) and deals
/// the fields below it out again, no two fields dealt to the same partition are linked by
/// `RequiredBySubgraph` edges, either way, in the graph that the whole walk leaves: what the
/// walk does afterwards never links them. The walk from any point on is itself a `split_walk`,
/// so this holds of every visit, up to `split_query_partition_dependency_cycles`' result.
pub proof fn law_walk_keeps_fields_apart(
    g: QView,
    positions: Seq<Option<QueryPosition>>,
    stack: Seq<usize>,
    visited: Seq<bool>,
    a: int,
    b: int,
)
    requires
        view_wf(g),
        forall|i: int| 0 <= i < stack.len() ==> #[trigger] stack[i] < g.0.len(),
        visited.len() <= g.0.len(),
        split_walk(g, positions, stack, visited).0.0.len() < usize::MAX,
        stack.len() > 0,
        stack.last() < visited.len(),
        !visited[stack.last() as int],
        0 <= a < b < visit_fields(g, positions, stack.last()).len(),
        visit_dealt_to(g, positions, stack.last(), a) == visit_dealt_to(g, positions, stack.last(), b),
    ensures
        ({
            let fields = visit_fields(g, positions, stack.last());
            let walked = split_walk(g, positions, stack, visited).0;
            &&& !required_path(walked.1, fields[a].field_node_ix, fields[b].field_node_ix)
            &&& !required_path(walked.1, fields[b].field_node_ix, fields[a].field_node_ix)
        }),
{
    let x = stack.last();
    let found = scan(g.0, g.2, positions, out_edges(g.2, x));
    let sorted = stable_sort(found.1);
    let parts = found.0;
    let d = detach_fields(g, sorted);
    let st = split_step(g, positions, x);
    let rest_stack = stack.drop_last();
    let next_stack = rest_stack + st.1;
    let next_visited = visited.update(x as int, true);
    let walked = split_walk(g, positions, stack, visited).0;
    assert(walked == split_walk(st.0, positions, next_stack, next_visited).0);
    lemma_count_false_set(visited, x as int);
    lemma_walk_grows(st.0, positions, next_stack, next_visited);
    assert(stack[stack.len() - 1] < g.0.len());
    lemma_split_step_keeps(g, positions, x);
    law_fields_dealt_apart(d, parts, x, sorted, a, b);
    let fa = sorted[a].field_node_ix;
    let fb = sorted[b].field_node_ix;
    assert(fa < d.0.len() && fb < d.0.len());
    lemma_detach_sizes(g, sorted);
    assert forall|i: int| 0 <= i < rest_stack.len() implies #[trigger] rest_stack[i] < g.0.len() by {
        assert(rest_stack[i] == stack[i]);
    }
    assert forall|i: int| 0 <= i < next_stack.len() implies #[trigger] next_stack[i] < st.0.0.len() by {
        if i < rest_stack.len() {
            assert(next_stack[i] == rest_stack[i]);
        } else {
            assert(next_stack[i] == st.1[i - rest_stack.len()]);
        }
    }
    lemma_walk_keeps(st.0, positions, next_stack, next_visited);
    if required_path(walked.1, fa, fb) {
        lemma_kept_required_path(st.0, walked, fa, fb);
    }
    if required_path(walked.1, fb, fa) {
        lemma_kept_required_path(st.0, walked, fb, fa);
    }
}

} // verus!
