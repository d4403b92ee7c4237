//! Mutation root fields run one after the other, in the order of the operation. The root
//! fields are sorted by position; consecutive fields of one resolver share a query partition,
//! and each partition is executed after the previous one.
use crate::query::{Edge, Node, QueryPosition, ResolverDefinitionId};
use crate::query_graph::{
    lemma_view_remove_edge_wf, out_edges, qg_add_edge, qg_add_node, qg_edge_count, qg_edges, qg_find_edge, qg_node, qg_node_count,
    qg_remove_edge, qgraph_edges, qgraph_nodes, qgraph_out_lists, view_add_edge, view_add_node, view_of,
    view_remove_edge_between, QView,
};
use petgraph::Graph;
use vstd::prelude::*;

verus! {

/// A field held by a query partition: its position in the operation, the partition, the
/// partition's resolver and the field node.
#[derive(Clone, Copy, Debug)]
pub struct PartitionField {
    pub position: Option<QueryPosition>,
    pub original_partition_node_ix: usize,
    pub resolver_definition_id: ResolverDefinitionId,
    pub field_node_ix: usize,
}

/// Every field node of `nodes` refers to one of the `n` fields of the query.
pub open spec fn fields_within(nodes: Seq<Node>, n: nat) -> bool {
    forall|i: int| 0 <= i < nodes.len() ==> (#[trigger] nodes[i] matches Node::Field(f) ==> f.id.0 < n)
}

/// Whether every field node of the graph refers to one of the fields of `positions`
/// (`fields_within`).
pub fn fields_fit_positions(graph: &Graph<Node, Edge>, positions: &Vec<Option<QueryPosition>>) -> (r: bool)
    ensures
        r == fields_within(qgraph_nodes(*graph), positions@.len()),
{
    let n = qg_node_count(graph);
    let mut i: usize = 0;
    while i < n
        invariant
            i <= n,
            n == qgraph_nodes(*graph).len(),
            forall|k: int| 0 <= k < i ==> (#[trigger] qgraph_nodes(*graph)[k] matches Node::Field(f) ==> f.id.0 < positions@.len()),
        decreases n - i,
    {
        if let Node::Field(f) = qg_node(graph, i) {
            if f.id.0 as usize >= positions.len() {
                return false;
            }
        }
        i = i + 1;
    }
    true
}

/// The fields reached by the edges `outs` of partition `p`, in order.
pub open spec fn partition_fields(
    nodes: Seq<Node>,
    positions: Seq<Option<QueryPosition>>,
    p: usize,
    resolver: ResolverDefinitionId,
    outs: Seq<(usize, usize, Edge)>,
) -> Seq<PartitionField>
    decreases outs.len(),
{
    if outs.len() == 0 {
        Seq::empty()
    } else {
        let rest = partition_fields(nodes, positions, p, resolver, outs.drop_last());
        let t = outs.last().1;
        match nodes[t as int] {
            Node::Field(f) => rest.push(
                PartitionField {
                    position: positions[f.id.0 as int],
                    original_partition_node_ix: p,
                    resolver_definition_id: resolver,
                    field_node_ix: t,
                },
            ),
            _ => rest,
        }
    }
}

/// The fields of the partitions reached by the edges `outs` of the root, partition after
/// partition.
pub open spec fn root_selection(
    nodes: Seq<Node>,
    lists: Seq<Seq<(usize, usize, Edge)>>,
    positions: Seq<Option<QueryPosition>>,
    outs: Seq<(usize, usize, Edge)>,
) -> Seq<PartitionField>
    decreases outs.len(),
{
    if outs.len() == 0 {
        Seq::empty()
    } else {
        let rest = root_selection(nodes, lists, positions, outs.drop_last());
        let p = outs.last().1;
        match nodes[p as int] {
            Node::QueryPartition { resolver_definition_id, .. } => rest + partition_fields(
                nodes,
                positions,
                p,
                resolver_definition_id,
                out_edges(lists, p),
            ),
            _ => rest,
        }
    }
}

/// Positions order fields, those without a position first.
pub open spec fn position_le(a: Option<QueryPosition>, b: Option<QueryPosition>) -> bool {
    match (a, b) {
        (None, _) => true,
        (Some(_), None) => false,
        (Some(x), Some(y)) => x.0 <= y.0,
    }
}

/// The fields are sorted by position.
pub open spec fn sorted_by_position(s: Seq<PartitionField>) -> bool {
    forall|i: int, j: int| 0 <= i < j < s.len() ==> position_le(#[trigger] s[i].position, #[trigger] s[j].position)
}

/// Whether `a` comes strictly after `b`.
fn position_after(a: Option<QueryPosition>, b: Option<QueryPosition>) -> (r: bool)
    ensures
        r == !position_le(a, b),
{
    match (a, b) {
        (None, _) => false,
        (Some(_), None) => true,
        (Some(x), Some(y)) => x.0 > y.0,
    }
}

/// The fields of the root selection set: for each partition below `root` (most recently added
/// edge first), its fields (likewise).
pub fn root_selection_set(graph: &Graph<Node, Edge>, root: usize, positions: &Vec<Option<QueryPosition>>) -> (r: Vec<
    PartitionField,
>)
    requires
        root < qgraph_nodes(*graph).len(),
        fields_within(qgraph_nodes(*graph), positions@.len()),
    ensures
        r@ == root_selection(qgraph_nodes(*graph), qgraph_out_lists(*graph), positions@, out_edges(qgraph_out_lists(*graph), root)),
        forall|i: int|
            0 <= i < r@.len() ==> #[trigger] r@[i].original_partition_node_ix < qgraph_nodes(*graph).len()
                && r@[i].field_node_ix < qgraph_nodes(*graph).len(),
{
    let ghost nodes = qgraph_nodes(*graph);
    let ghost lists = qgraph_out_lists(*graph);
    let outs = qg_edges(graph, root);
    let mut selection: Vec<PartitionField> = Vec::new();
    let mut k: usize = 0;
    while k < outs.len()
        invariant
            k <= outs@.len(),
            nodes == qgraph_nodes(*graph),
            lists == qgraph_out_lists(*graph),
            fields_within(nodes, positions@.len()),
            forall|i: int| 0 <= i < outs@.len() ==> #[trigger] outs@[i].1 < nodes.len(),
            selection@ == root_selection(nodes, lists, positions@, outs@.subrange(0, k as int)),
            forall|i: int|
                0 <= i < selection@.len() ==> #[trigger] selection@[i].original_partition_node_ix < nodes.len()
                    && selection@[i].field_node_ix < nodes.len(),
        decreases outs@.len() - k,
    {
        let p = outs[k].1;
        let ghost prefix = outs@.subrange(0, k + 1);
        proof {
            assert(prefix.drop_last() =~= outs@.subrange(0, k as int));
            assert(prefix.last() == outs@[k as int]);
        }
        match qg_node(graph, p) {
            Node::QueryPartition { resolver_definition_id, .. } => {
                let field_outs = qg_edges(graph, p);
                let ghost before = selection@;
                let mut j: usize = 0;
                while j < field_outs.len()
                    invariant
                        j <= field_outs@.len(),
                        p < nodes.len(),
                        nodes == qgraph_nodes(*graph),
                        fields_within(nodes, positions@.len()),
                        field_outs@ == out_edges(lists, p),
                        forall|i: int| 0 <= i < field_outs@.len() ==> #[trigger] field_outs@[i].1 < nodes.len(),
                        selection@ == before + partition_fields(
                            nodes,
                            positions@,
                            p,
                            resolver_definition_id,
                            field_outs@.subrange(0, j as int),
                        ),
                        forall|i: int|
                            0 <= i < selection@.len() ==> #[trigger] selection@[i].original_partition_node_ix < nodes.len()
                                && selection@[i].field_node_ix < nodes.len(),
                    decreases field_outs@.len() - j,
                {
                    let t = field_outs[j].1;
                    let ghost fprefix = field_outs@.subrange(0, j + 1);
                    proof {
                        assert(fprefix.drop_last() =~= field_outs@.subrange(0, j as int));
                        assert(fprefix.last() == field_outs@[j as int]);
                    }
                    match qg_node(graph, t) {
                        Node::Field(f) => {
                            proof {
                                assert(nodes[t as int] matches Node::Field(g) && g.id.0 < positions@.len());
                            }
                            let position = positions[f.id.0 as usize];
                            selection.push(
                                PartitionField {
                                    position,
                                    original_partition_node_ix: p,
                                    resolver_definition_id,
                                    field_node_ix: t,
                                },
                            );
                        },
                        _ => {},
                    }
                    proof {
                        assert(selection@ =~= before + partition_fields(
                            nodes,
                            positions@,
                            p,
                            resolver_definition_id,
                            field_outs@.subrange(0, j + 1),
                        ));
                    }
                    j = j + 1;
                }
                proof {
                    assert(field_outs@.subrange(0, j as int) =~= field_outs@);
                }
            },
            _ => {},
        }
        k = k + 1;
    }
    assert(outs@.subrange(0, k as int) =~= outs@);
    selection
}

/// Sorts the fields by position, those without a position first; an insertion sort, so fields of
/// equal position keep their order.
pub fn sort_by_position(fields: &Vec<PartitionField>) -> (r: Vec<PartitionField>)
    ensures
        r@.to_multiset() == fields@.to_multiset(),
        sorted_by_position(r@),
{
    broadcast use vstd::seq_lib::group_to_multiset_ensures;

    let mut out: Vec<PartitionField> = Vec::new();
    let mut k: usize = 0;
    while k < fields.len()
        invariant
            k <= fields@.len(),
            sorted_by_position(out@),
            out@.to_multiset() == fields@.subrange(0, k as int).to_multiset(),
        decreases fields@.len() - k,
    {
        let x = fields[k];
        let mut j: usize = 0;
        while j < out.len()
            invariant
                j <= out@.len(),
                forall|i: int| 0 <= i < j ==> position_le(#[trigger] out@[i].position, x.position),
            ensures
                j <= out@.len(),
                forall|i: int| 0 <= i < j ==> position_le(#[trigger] out@[i].position, x.position),
                j < out@.len() ==> !position_le(out@[j as int].position, x.position),
            decreases out@.len() - j,
        {
            if position_after(out[j].position, x.position) {
                break;
            }
            j = j + 1;
        }
        let ghost before = out@;
        proof {
            assert forall|i: int| j <= i < before.len() implies position_le(x.position, #[trigger] before[i].position) by {
                assert(!position_le(before[j as int].position, x.position));
                if i > j {
                    assert(position_le(before[j as int].position, before[i].position));
                }
            }
        }
        out.insert(j, x);
        proof {
            vstd::seq_lib::to_multiset_insert(before, j as int, x);
            assert(fields@.subrange(0, k + 1) =~= fields@.subrange(0, k as int).push(x));
            vstd::seq_lib::to_multiset_build(fields@.subrange(0, k as int), x);
            assert forall|a: int, b: int| 0 <= a < b < out@.len() implies position_le(
                #[trigger] out@[a].position,
                #[trigger] out@[b].position,
            ) by {
                if b < j {
                    assert(out@[a] == before[a] && out@[b] == before[b]);
                } else if b == j {
                    assert(out@[a] == before[a]);
                } else if a == j {
                    assert(out@[b] == before[b - 1]);
                } else if a < j {
                    assert(out@[a] == before[a] && out@[b] == before[b - 1]);
                } else {
                    assert(out@[a] == before[a - 1] && out@[b] == before[b - 1]);
                }
            }
        }
        k = k + 1;
    }
    assert(fields@.subrange(0, k as int) =~= fields@);
    out
}

/// Whether partition `p` was already used by an earlier run of fields.
pub open spec fn is_used_partition(partitions: Seq<(usize, ResolverDefinitionId)>, p: usize) -> bool {
    exists|i: int| 0 <= i < partitions.len() && #[trigger] partitions[i].0 == p
}

/// One field of the sorted root selection set. A field of the same resolver as the last
/// partition joins that partition: it stays if the partition is its own, otherwise it moves
/// there. Any other field opens a new run: in its own partition, or in a copy of it (attached
/// to the root, holding the field) when its partition was used already. Either way the field is
/// a root field.
pub open spec fn order_step(
    g: QView,
    partitions: Seq<(usize, ResolverDefinitionId)>,
    root_fields: Seq<usize>,
    root: usize,
    f: PartitionField,
) -> (QView, Seq<(usize, ResolverDefinitionId)>, Seq<usize>) {
    let follows = partitions.len() > 0 && partitions.last().1 == f.resolver_definition_id;
    if follows {
        let g1 = if partitions.last().0 == f.original_partition_node_ix {
            g
        } else {
            view_add_edge(
                view_remove_edge_between(g, f.original_partition_node_ix, f.field_node_ix),
                partitions.last().0,
                f.field_node_ix,
                Edge::Field,
            )
        };
        (g1, partitions, root_fields.push(f.field_node_ix))
    } else if is_used_partition(partitions, f.original_partition_node_ix) {
        let new = g.0.len() as usize;
        let g2 = view_add_node(g, g.0[f.original_partition_node_ix as int]);
        let g3 = view_add_edge(g2, root, new, Edge::QueryPartition);
        let g4 = view_add_edge(
            view_remove_edge_between(g3, f.original_partition_node_ix, f.field_node_ix),
            new,
            f.field_node_ix,
            Edge::Field,
        );
        (g4, partitions.push((new, f.resolver_definition_id)), root_fields.push(f.field_node_ix))
    } else {
        (g, partitions.push((f.original_partition_node_ix, f.resolver_definition_id)), root_fields.push(f.field_node_ix))
    }
}

/// The graph, the partitions in order and the root fields once every field of `s` is placed.
pub open spec fn order_fold(g: QView, root: usize, s: Seq<PartitionField>) -> (
    QView,
    Seq<(usize, ResolverDefinitionId)>,
    Seq<usize>,
)
    decreases s.len(),
{
    if s.len() == 0 {
        (g, Seq::empty(), Seq::empty())
    } else {
        let prev = order_fold(g, root, s.drop_last());
        order_step(prev.0, prev.1, prev.2, root, s.last())
    }
}

/// The partition (and its resolver) that the `i`-th field of `s` is placed in.
pub open spec fn placement(g: QView, root: usize, s: Seq<PartitionField>, i: int) -> (usize, ResolverDefinitionId) {
    order_fold(g, root, s.take(i + 1)).1.last()
}

/// Placing fields returns every field, in order, and the last partition is of the last
/// field's resolver.
pub proof fn lemma_order_fold_fields(g: QView, root: usize, s: Seq<PartitionField>)
    ensures
        order_fold(g, root, s).2 == s.map_values(|f: PartitionField| f.field_node_ix),
        s.len() > 0 ==> order_fold(g, root, s).1.len() > 0 && order_fold(g, root, s).1.last().1
            == s.last().resolver_definition_id,
    decreases s.len(),
{
    if s.len() > 0 {
        lemma_order_fold_fields(g, root, s.drop_last());
        assert(s.map_values(|f: PartitionField| f.field_node_ix) =~= s.drop_last().map_values(
            |f: PartitionField| f.field_node_ix,
        ).push(s.last().field_node_ix));
    } else {
        assert(s.map_values(|f: PartitionField| f.field_node_ix) =~= Seq::<usize>::empty());
    }
}

/// The partitions after the first `k` fields are the first partitions after all of them.
pub proof fn lemma_order_fold_prefix(g: QView, root: usize, s: Seq<PartitionField>, k: int)
    requires
        0 <= k <= s.len(),
    ensures
        order_fold(g, root, s.take(k)).1.len() <= order_fold(g, root, s).1.len(),
        forall|j: int|
            0 <= j < order_fold(g, root, s.take(k)).1.len() ==> #[trigger] order_fold(g, root, s).1[j] == order_fold(
                g,
                root,
                s.take(k),
            ).1[j],
    decreases s.len(),
{
    if k == s.len() {
        assert(s.take(k) =~= s);
    } else {
        lemma_order_fold_prefix(g, root, s.drop_last(), k);
        assert(s.drop_last().take(k) =~= s.take(k));
    }
}

/// Each field is placed in a partition of its resolver, one that the ordering keeps; a field of
/// the same resolver as the field before it is placed in the same partition.
pub proof fn lemma_placement(g: QView, root: usize, s: Seq<PartitionField>, i: int)
    requires
        0 <= i < s.len(),
    ensures
        placement(g, root, s, i).1 == s[i].resolver_definition_id,
        order_fold(g, root, s).1.contains(placement(g, root, s, i)),
        i > 0 && s[i].resolver_definition_id == s[i - 1].resolver_definition_id ==> placement(g, root, s, i)
            == placement(g, root, s, i - 1),
{
    let t = s.take(i + 1);
    assert(t.last() == s[i]);
    lemma_order_fold_fields(g, root, t);
    lemma_order_fold_prefix(g, root, s, i + 1);
    let ps = order_fold(g, root, t).1;
    assert(order_fold(g, root, s).1[ps.len() - 1] == ps.last());
    if i > 0 {
        let u = s.take(i);
        assert(t.drop_last() =~= u);
        assert(u.last() == s[i - 1]);
        lemma_order_fold_fields(g, root, u);
    }
}

/// The view once each partition is executed after the previous one: an edge
/// `MutationExecutedAfter` from each partition to the one before it, in order.
pub open spec fn chain_partitions(g: QView, partitions: Seq<(usize, ResolverDefinitionId)>) -> QView
    decreases partitions.len(),
{
    if partitions.len() < 2 {
        g
    } else {
        view_add_edge(
            chain_partitions(g, partitions.drop_last()),
            partitions.last().0,
            partitions[partitions.len() - 2].0,
            Edge::MutationExecutedAfter,
        )
    }
}

/// Removes the first edge of `a`'s outgoing list that goes into `b`, if any.
pub(crate) fn remove_edge_between(graph: &mut Graph<Node, Edge>, a: usize, b: usize)
    requires
        a < qgraph_nodes(*old(graph)).len(),
        b < qgraph_nodes(*old(graph)).len(),
    ensures
        view_of(*final(graph)) == view_remove_edge_between(view_of(*old(graph)), a, b),
        qgraph_edges(*final(graph)).len() <= qgraph_edges(*old(graph)).len(),
{
    proof {
        lemma_view_remove_edge_wf(view_of(*graph), a, b);
    }
    if let Some(e) = qg_find_edge(graph, a, b) {
        let _ = qg_remove_edge(graph, e);
    }
}

/// Adds an edge from `a` to `b`.
pub(crate) fn add_edge(graph: &mut Graph<Node, Edge>, a: usize, b: usize, w: Edge)
    requires
        a < qgraph_nodes(*old(graph)).len(),
        b < qgraph_nodes(*old(graph)).len(),
        qgraph_edges(*old(graph)).len() < u32::MAX,
    ensures
        view_of(*final(graph)) == view_add_edge(view_of(*old(graph)), a, b, w),
        qgraph_edges(*final(graph)).len() == qgraph_edges(*old(graph)).len() + 1,
{
    let _ = qg_add_edge(graph, a, b, w);
}

/// Places the fields of the sorted selection set `selection` as `order_fold` says, then chains
/// the partitions (`chain_partitions`). Returns the root fields.
pub fn apply_mutation_order(graph: &mut Graph<Node, Edge>, root: usize, selection: &Vec<PartitionField>) -> (r: Vec<usize>)
    requires
        root < qgraph_nodes(*old(graph)).len(),
        forall|i: int|
            0 <= i < selection@.len() ==> #[trigger] selection@[i].original_partition_node_ix < qgraph_nodes(
                *old(graph),
            ).len() && selection@[i].field_node_ix < qgraph_nodes(*old(graph)).len(),
        qgraph_nodes(*old(graph)).len() + selection@.len() < u32::MAX,
        qgraph_edges(*old(graph)).len() + 3 * selection@.len() < u32::MAX,
    ensures
        ({
            let o = order_fold(view_of(*old(graph)), root, selection@);
            &&& view_of(*final(graph)) == chain_partitions(o.0, o.1)
            &&& r@ == o.2
        }),
{
    let n0 = qg_node_count(graph);
    let e0 = qg_edge_count(graph);
    let ghost g0 = view_of(*graph);
    let mut partitions: Vec<(usize, ResolverDefinitionId)> = Vec::new();
    let mut root_fields: Vec<usize> = Vec::new();
    let mut k: usize = 0;
    while k < selection.len()
        invariant
            k <= selection@.len(),
            g0 == view_of(*old(graph)),
            n0 == qgraph_nodes(*old(graph)).len(),
            e0 == qgraph_edges(*old(graph)).len(),
            root < n0,
            forall|i: int|
                0 <= i < selection@.len() ==> #[trigger] selection@[i].original_partition_node_ix < n0
                    && selection@[i].field_node_ix < n0,
            n0 + selection@.len() < u32::MAX,
            e0 + 3 * selection@.len() < u32::MAX,
            (view_of(*graph), partitions@, root_fields@) == order_fold(g0, root, selection@.subrange(0, k as int)),
            n0 <= qgraph_nodes(*graph).len() <= n0 + k,
            qgraph_edges(*graph).len() <= e0 + 2 * k,
            partitions@.len() <= k,
            forall|i: int| 0 <= i < partitions@.len() ==> #[trigger] partitions@[i].0 < qgraph_nodes(*graph).len(),
        decreases selection@.len() - k,
    {
        let f = selection[k];
        let ghost prefix = selection@.subrange(0, k + 1);
        proof {
            assert(prefix.drop_last() =~= selection@.subrange(0, k as int));
            assert(prefix.last() == f);
        }
        let plen = partitions.len();
        let follows = plen > 0 && partitions[plen - 1].1 == f.resolver_definition_id;
        if follows {
            let last = partitions[plen - 1].0;
            if last != f.original_partition_node_ix {
                remove_edge_between(graph, f.original_partition_node_ix, f.field_node_ix);
                add_edge(graph, last, f.field_node_ix, Edge::Field);
            }
        } else {
            let mut used = false;
            let mut i: usize = 0;
            while i < partitions.len()
                invariant
                    i <= partitions@.len(),
                    used == exists|j: int| 0 <= j < i && #[trigger] partitions@[j].0 == f.original_partition_node_ix,
                decreases partitions@.len() - i,
            {
                if partitions[i].0 == f.original_partition_node_ix {
                    used = true;
                }
                i = i + 1;
            }
            assert(used == is_used_partition(partitions@, f.original_partition_node_ix));
            if used {
                let weight = qg_node(graph, f.original_partition_node_ix);
                let new = qg_add_node(graph, weight);
                add_edge(graph, root, new, Edge::QueryPartition);
                remove_edge_between(graph, f.original_partition_node_ix, f.field_node_ix);
                add_edge(graph, new, f.field_node_ix, Edge::Field);
                partitions.push((new, f.resolver_definition_id));
            } else {
                partitions.push((f.original_partition_node_ix, f.resolver_definition_id));
            }
        }
        root_fields.push(f.field_node_ix);
        k = k + 1;
    }
    assert(selection@.subrange(0, k as int) =~= selection@);
    let ghost placed = view_of(*graph);
    proof {
        if partitions@.len() > 0 {
            assert(partitions@.subrange(0, 1).len() == 1);
        }
    }
    let mut i: usize = 1;
    while i < partitions.len()
        invariant
            1 <= i,
            i <= partitions@.len() || partitions@.len() == 0,
            partitions@.len() <= selection@.len(),
            e0 + 3 * selection@.len() < u32::MAX,
            qgraph_edges(*graph).len() <= e0 + 2 * selection@.len() + (i - 1),
            forall|j: int| 0 <= j < partitions@.len() ==> #[trigger] partitions@[j].0 < qgraph_nodes(*graph).len(),
            partitions@.len() > 0 ==> view_of(*graph) == chain_partitions(placed, partitions@.subrange(0, i as int)),
            partitions@.len() == 0 ==> view_of(*graph) == placed,
            (placed, partitions@, root_fields@) == order_fold(view_of(*old(graph)), root, selection@),
        decreases partitions@.len() - i,
    {
        let ghost next = partitions@.subrange(0, i + 1);
        proof {
            assert(next.drop_last() =~= partitions@.subrange(0, i as int));
        }
        add_edge(graph, partitions[i].0, partitions[i - 1].0, Edge::MutationExecutedAfter);
        i = i + 1;
    }
    proof {
        if partitions@.len() == 0 {
            assert(chain_partitions(placed, partitions@) == placed);
        } else {
            assert(partitions@.subrange(0, i as int) =~= partitions@);
        }
    }
    root_fields
}

/// The fields of the root selection set of a view.
pub open spec fn collected_root_fields(
    g: QView,
    root: usize,
    positions: Seq<Option<QueryPosition>>,
) -> Seq<PartitionField> {
    root_selection(g.0, g.2, positions, out_edges(g.2, root))
}

/// The graph has room for what ordering `n` root fields may add at most, within `u32` indices:
/// per field a node and three edges (a copied partition's edge from the root and its field
/// edge, and the edge chaining its partition to the previous one).
pub open spec fn has_room(g: QView, n: nat) -> bool {
    g.0.len() + n < u32::MAX && g.1.len() + 3 * n < u32::MAX
}

/// `g1` and `r` are what ordering gives from `g0` with the root fields sorted as in `s`: `r` is
/// every root field in that order, each placed in a partition of its resolver that the
/// ordering chains, fields of one resolver in a row sharing their partition.
pub open spec fn is_ordered_with(
    g0: QView,
    g1: QView,
    root: usize,
    collected: Seq<PartitionField>,
    r: Seq<usize>,
    s: Seq<PartitionField>,
) -> bool {
    let o = order_fold(g0, root, s);
    &&& s.to_multiset() == collected.to_multiset()
    &&& sorted_by_position(s)
    &&& g1 == chain_partitions(o.0, o.1)
    &&& r == o.2
    &&& r == s.map_values(|f: PartitionField| f.field_node_ix)
    &&& forall|i: int|
        0 <= i < s.len() ==> (#[trigger] placement(g0, root, s, i)).1 == s[i].resolver_definition_id && o.1.contains(
            placement(g0, root, s, i),
        )
    &&& forall|i: int|
        0 < i < s.len() && s[i].resolver_definition_id == s[i - 1].resolver_definition_id ==> #[trigger] placement(
            g0,
            root,
            s,
            i,
        ) == placement(g0, root, s, i - 1)
}

/// `g1` and `r` are what ordering gives from `g0` for the root fields sorted by position (fields
/// of equal position in some order).
pub open spec fn is_mutation_order_outcome(
    g0: QView,
    g1: QView,
    root: usize,
    positions: Seq<Option<QueryPosition>>,
    r: Seq<usize>,
) -> bool {
    exists|s: Seq<PartitionField>| #[trigger] is_ordered_with(g0, g1, root, collected_root_fields(g0, root, positions), r, s)
}

/// Whether the graph has room for ordering its mutation root fields (`has_room`).
pub fn has_room_for_mutation_order(graph: &Graph<Node, Edge>, root: usize, positions: &Vec<Option<QueryPosition>>) -> (r: bool)
    requires
        root < qgraph_nodes(*graph).len(),
        fields_within(qgraph_nodes(*graph), positions@.len()),
    ensures
        r == has_room(view_of(*graph), collected_root_fields(view_of(*graph), root, positions@).len()),
{
    let selection = root_selection_set(graph, root, positions);
    let n = qg_node_count(graph);
    let e = qg_edge_count(graph);
    let count = selection.len();
    count < u32::MAX as usize && n < u32::MAX as usize - count && count <= (u32::MAX as usize) / 3 && e < u32::MAX as usize - 3
        * count
}

/// Orders the root fields of a mutation: sorted by position, consecutive fields of one
/// resolver share a partition, a partition already used by an earlier run is copied, and each
/// partition is executed after the previous one. Returns every root field, in that order.
pub fn ensure_mutation_execution_order(graph: &mut Graph<Node, Edge>, root: usize, positions: &Vec<Option<QueryPosition>>) -> (r:
    Vec<usize>)
    requires
        root < qgraph_nodes(*old(graph)).len(),
        fields_within(qgraph_nodes(*old(graph)), positions@.len()),
        has_room(view_of(*old(graph)), collected_root_fields(view_of(*old(graph)), root, positions@).len()),
    ensures
        is_mutation_order_outcome(view_of(*old(graph)), view_of(*final(graph)), root, positions@, r@),
{
    broadcast use vstd::seq_lib::group_to_multiset_ensures;

    let ghost g0 = view_of(*graph);
    let selection = root_selection_set(graph, root, positions);
    let sorted = sort_by_position(&selection);
    proof {
        assert forall|i: int| 0 <= i < sorted@.len() implies #[trigger] sorted@[i].original_partition_node_ix < qgraph_nodes(
            *graph,
        ).len() && sorted@[i].field_node_ix < qgraph_nodes(*graph).len() by {
            assert(sorted@.to_multiset().count(sorted@[i]) > 0);
            assert(selection@.contains(sorted@[i]));
            let j = choose|j: int| 0 <= j < selection@.len() && selection@[j] == sorted@[i];
        }
        assert(sorted@.to_multiset().len() == selection@.to_multiset().len());
        assert(sorted@.len() == selection@.len());
    }
    let r = apply_mutation_order(graph, root, &sorted);
    proof {
        lemma_order_fold_fields(g0, root, sorted@);
        assert forall|i: int| 0 <= i < sorted@.len() implies (#[trigger] placement(g0, root, sorted@, i)).1
            == sorted@[i].resolver_definition_id && order_fold(g0, root, sorted@).1.contains(placement(g0, root, sorted@, i)) by {
            lemma_placement(g0, root, sorted@, i);
        }
        assert forall|i: int|
            0 < i < sorted@.len() && sorted@[i].resolver_definition_id == sorted@[i - 1].resolver_definition_id implies #[trigger] placement(
            g0,
            root,
            sorted@,
            i,
        ) == placement(g0, root, sorted@, i - 1) by {
            lemma_placement(g0, root, sorted@, i);
        }
        assert(is_ordered_with(g0, view_of(*graph), root, collected_root_fields(g0, root, positions@), r@, sorted@));
    }
    r
}

} // verus!
