//! The Steiner graph, a `petgraph::Graph<(), u32>`, as the library sees it: its node count and
//! its edges `(source, target, weight)` in index order.
use petgraph::visit::EdgeRef;
use petgraph::{Directed, Graph};
use vstd::prelude::*;

verus! {

/// `petgraph::Graph`, carried opaquely.
#[verifier::external_type_specification]
#[verifier::external_body]
#[verifier::reject_recursive_types(N)]
#[verifier::reject_recursive_types(E)]
#[verifier::reject_recursive_types(Ty)]
#[verifier::reject_recursive_types(Ix)]
pub struct ExGraph<N, E, Ty, Ix>(Graph<N, E, Ty, Ix>);

/// `petgraph::Directed`, the edge type of the Steiner graph.
#[verifier::external_type_specification]
#[verifier::external_body]
pub struct ExDirected(Directed);

/// The edges of a Steiner graph in index order: `(source, target, weight)`.
pub uninterp spec fn graph_edges(g: Graph<(), u32>) -> Seq<(usize, usize, u32)>;

/// The edge indices of a Steiner graph in the order the edges were added, oldest first.
pub uninterp spec fn graph_edge_order(g: Graph<(), u32>) -> Seq<usize>;

/// The edges into `n` (when `incoming`) or out of `n` among `order`, the last of `order` first.
pub open spec fn listed_edges(g: Graph<(), u32>, order: Seq<usize>, n: usize, incoming: bool) -> Seq<usize>
    decreases order.len(),
{
    if order.len() == 0 {
        Seq::empty()
    } else {
        let e = order.last();
        let rest = listed_edges(g, order.drop_last(), n, incoming);
        if (if incoming {
            edge_target(g, e as int) == n
        } else {
            edge_source(g, e as int) == n
        }) {
            seq![e] + rest
        } else {
            rest
        }
    }
}

/// The number of nodes of a Steiner graph; node indices are `0..node_count`.
pub uninterp spec fn graph_node_count(g: Graph<(), u32>) -> nat;

/// Every edge joins two nodes of the graph (a `Graph` never holds any other edge).
pub open spec fn edges_join_nodes(g: Graph<(), u32>) -> bool {
    forall|e: int|
        0 <= e < graph_edges(g).len() ==> #[trigger] edge_source(g, e) < graph_node_count(g) && edge_target(g, e)
            < graph_node_count(g)
}

pub open spec fn edge_source(g: Graph<(), u32>, e: int) -> usize {
    graph_edges(g)[e].0
}

pub open spec fn edge_target(g: Graph<(), u32>, e: int) -> usize {
    graph_edges(g)[e].1
}

pub open spec fn edge_weight(g: Graph<(), u32>, e: int) -> u32 {
    graph_edges(g)[e].2
}

/// `NodeIndexable::node_bound` (the node count for a `Graph`).
#[verifier::external_body]
pub(crate) fn node_bound(g: &Graph<(), u32>) -> (r: usize)
    ensures
        r == graph_node_count(*g),
{
    petgraph::visit::NodeIndexable::node_bound(g)
}

/// `EdgeIndexable::edge_bound` (the edge count for a `Graph`). Every edge below it joins two
/// nodes of the graph: `Graph::add_edge` panics on a missing node and `Graph::remove_node`
/// removes the node's edges.
#[verifier::external_body]
pub(crate) fn edge_bound(g: &Graph<(), u32>) -> (r: usize)
    ensures
        r == graph_edges(*g).len(),
        forall|e: int|
            0 <= e < r ==> #[trigger] edge_source(*g, e) < graph_node_count(*g) && edge_target(*g, e) < graph_node_count(
                *g,
            ),
{
    petgraph::visit::EdgeIndexable::edge_bound(g)
}

/// `Graph::edge_endpoints`: the source and target of edge `e`, both nodes of the graph.
#[verifier::external_body]
pub(crate) fn edge_endpoints(g: &Graph<(), u32>, e: usize) -> (r: Option<(usize, usize)>)
    requires
        e < graph_edges(*g).len(),
    ensures
        r == Some((edge_source(*g, e as int), edge_target(*g, e as int))),
        r matches Some((s, t)) ==> s < graph_node_count(*g) && t < graph_node_count(*g),
{
    g.edge_endpoints(petgraph::graph::EdgeIndex::new(e)).map(|(s, t)| (s.index(), t.index()))
}

/// `Index<EdgeIndex>` on `Graph`: the weight of edge `e`; it panics past the last edge.
#[verifier::external_body]
pub(crate) fn weight_of(g: &Graph<(), u32>, e: usize) -> (r: u32)
    requires
        e < graph_edges(*g).len(),
    ensures
        r == edge_weight(*g, e as int),
{
    g[petgraph::graph::EdgeIndex::new(e)]
}

/// `IndexMut<EdgeIndex>` on `Graph`, used to replace the weight of edge `e` and return the
/// previous one; it panics past the last edge.
#[verifier::external_body]
pub(crate) fn replace_weight(g: &mut Graph<(), u32>, e: usize, w: u32) -> (r: u32)
    requires
        e < graph_edges(*old(g)).len(),
    ensures
        r == edge_weight(*old(g), e as int),
        graph_node_count(*final(g)) == graph_node_count(*old(g)),
        graph_edges(*final(g)) == graph_edges(*old(g)).update(
            e as int,
            (edge_source(*old(g), e as int), edge_target(*old(g), e as int), w),
        ),
        graph_edge_order(*final(g)) == graph_edge_order(*old(g)),
{
    std::mem::replace(&mut g[petgraph::graph::EdgeIndex::new(e)], w)
}

/// `Graph::new`: a graph with no node and no edge.
#[verifier::external_body]
pub(crate) fn new_steiner_graph() -> (r: Graph<(), u32>)
    ensures
        graph_node_count(r) == 0,
        graph_edges(r) == Seq::<(usize, usize, u32)>::empty(),
        graph_edge_order(r) == Seq::<usize>::empty(),
{
    Graph::new()
}

/// `Graph::add_node`: appends a node and returns its index, the number of nodes before; it
/// panics once `u32::MAX` nodes are held.
#[verifier::external_body]
pub(crate) fn add_steiner_node(g: &mut Graph<(), u32>) -> (r: usize)
    requires
        graph_node_count(*old(g)) < u32::MAX,
    ensures
        r == graph_node_count(*old(g)),
        graph_node_count(*final(g)) == r + 1,
        graph_edges(*final(g)) == graph_edges(*old(g)),
        graph_edge_order(*final(g)) == graph_edge_order(*old(g)),
{
    g.add_node(()).index()
}

/// `Graph::add_edge`: appends an edge from `a` to `b` with weight `w`, linked last (first in its
/// lists), and returns its index, the number of edges before; it panics on a missing node or once
/// `u32::MAX` edges are held.
#[verifier::external_body]
pub(crate) fn add_steiner_edge(g: &mut Graph<(), u32>, a: usize, b: usize, w: u32) -> (r: usize)
    requires
        a < graph_node_count(*old(g)),
        b < graph_node_count(*old(g)),
        graph_edges(*old(g)).len() < u32::MAX,
    ensures
        r == graph_edges(*old(g)).len(),
        graph_node_count(*final(g)) == graph_node_count(*old(g)),
        graph_edges(*final(g)) == graph_edges(*old(g)).push((a, b, w)),
        graph_edge_order(*final(g)) == graph_edge_order(*old(g)).push(r),
{
    g.add_edge(petgraph::graph::NodeIndex::new(a), petgraph::graph::NodeIndex::new(b), w).index()
}

/// `Graph::edges_directed`, each edge given by its index: the edges into `n` when `incoming`,
/// else the edges out of `n`, each once, most recently added first (as petgraph documents).
/// Every endpoint of a listed edge is a node of the graph.
#[verifier::external_body]
pub(crate) fn edges_directed(g: &Graph<(), u32>, n: usize, incoming: bool) -> (r: Vec<usize>)
    requires
        n < graph_node_count(*g),
    ensures
        r@ == listed_edges(*g, graph_edge_order(*g), n, incoming),
        r@.no_duplicates(),
        forall|i: int|
            0 <= i < r@.len() ==> {
                &&& r@[i] < graph_edges(*g).len()
                &&& edge_source(*g, r@[i] as int) < graph_node_count(*g)
                &&& edge_target(*g, r@[i] as int) < graph_node_count(*g)
            },
        forall|e: int|
            0 <= e < graph_edges(*g).len() ==> (r@.contains(e as usize) <==> (if incoming {
                edge_target(*g, e) == n
            } else {
                edge_source(*g, e) == n
            })),
{
    let dir = if incoming {
        petgraph::Direction::Incoming
    } else {
        petgraph::Direction::Outgoing
    };
    g.edges_directed(petgraph::graph::NodeIndex::new(n), dir).map(|e| e.id().index()).collect()
}

} // verus!
