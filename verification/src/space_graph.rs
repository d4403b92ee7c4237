//! The solution space, a `petgraph::Graph<SpaceNode, SpaceEdge>`, as the library sees it: its
//! nodes and its edges by index, and for each node the lists of the edges out of it and into it,
//! in the order petgraph walks them.
use crate::query::{EntityDefinitionId, FieldNode, QueryFieldId, ResolverDefinitionId};
use crate::solution::{DeriveId, SpaceEdge, SpaceFieldSetId};
use petgraph::visit::EdgeRef;
use petgraph::Graph;
use vstd::prelude::*;

verus! {

/// A resolver of the solution space: how to fetch an entity from a subgraph.
#[derive(Clone, Copy, Debug)]
pub struct Resolver {
    pub entity_definition_id: EntityDefinitionId,
    pub definition_id: ResolverDefinitionId,
}

/// A field that a resolver can provide, with what is needed to plan it.
#[derive(Clone, Copy, Debug)]
pub struct ProvidableField {
    pub resolver_definition_id: ResolverDefinitionId,
    pub query_field_id: QueryFieldId,
    pub provides: Option<SpaceFieldSetId>,
    pub only_providable: bool,
    pub derive_id: Option<DeriveId>,
}

/// A node of the solution space.
#[derive(Clone, Copy, Debug)]
pub enum SpaceNode {
    /// The root, unique.
    Root,
    /// A field of the operation, or one added to satisfy requirements.
    Field(FieldNode),
    /// How to access data from a subgraph.
    Resolver(Resolver),
    /// A field that a resolver can provide.
    ProvidableField(ProvidableField),
}

impl SpaceNode {
    /// The field, for a field node.
    pub fn as_query_field(&self) -> (r: Option<FieldNode>)
        ensures
            r == (match *self {
                SpaceNode::Field(f) => Some(f),
                _ => None,
            }),
    {
        match self {
            SpaceNode::Field(f) => Some(*f),
            _ => None,
        }
    }
}

/// The nodes of a solution space, by index.
pub uninterp spec fn space_nodes(g: Graph<SpaceNode, SpaceEdge>) -> Seq<SpaceNode>;

/// The edges of a solution space by index: `(source, target, kind)`.
pub uninterp spec fn space_edges(g: Graph<SpaceNode, SpaceEdge>) -> Seq<(usize, usize, SpaceEdge)>;

/// For each node of a solution space, the indices of the edges out of it and of those into it,
/// each in the order of its list.
pub uninterp spec fn space_lists(g: Graph<SpaceNode, SpaceEdge>) -> Seq<(Seq<usize>, Seq<usize>)>;

/// The edges out of `n` (into `n` when `incoming`), in list order.
pub open spec fn space_list(g: Graph<SpaceNode, SpaceEdge>, n: usize, incoming: bool) -> Seq<usize> {
    if incoming {
        space_lists(g)[n as int].1
    } else {
        space_lists(g)[n as int].0
    }
}

/// The edge of index `e`.
pub open spec fn space_edge(g: Graph<SpaceNode, SpaceEdge>, e: usize) -> (usize, usize, SpaceEdge) {
    space_edges(g)[e as int]
}

/// The space has `n` nodes, each with its two lists; every edge joins nodes of the space; the
/// list out of a node holds, once each, exactly the edges leaving it, and the list into it those
/// entering it.
pub open spec fn space_wf_with(g: Graph<SpaceNode, SpaceEdge>, n: nat) -> bool {
    let m = space_edges(g).len();
    &&& space_nodes(g).len() == n
    &&& space_lists(g).len() == n
    &&& forall|e: int| #![trigger space_edges(g)[e]] 0 <= e < m ==> space_edges(g)[e].0 < n && space_edges(g)[e].1 < n
    &&& forall|a: usize, incoming: bool|
        a < n ==> (#[trigger] space_list(g, a, incoming)).no_duplicates() && forall|k: int|
            0 <= k < space_list(g, a, incoming).len() ==> {
                let e = #[trigger] space_list(g, a, incoming)[k];
                e < m && (if incoming {
                    space_edge(g, e).1
                } else {
                    space_edge(g, e).0
                }) == a
            }
    &&& forall|e: usize|
        e < m ==> space_list(g, #[trigger] space_edge(g, e).0, false).contains(e) && space_list(
            g,
            space_edge(g, e).1,
            true,
        ).contains(e)
}

/// The entries of `n`'s list out of it (into it when `incoming`): each edge as
/// `(index, source, target, kind)`.
pub open spec fn list_entries(
    g: Graph<SpaceNode, SpaceEdge>,
    lists: Seq<(Seq<usize>, Seq<usize>)>,
    n: usize,
    incoming: bool,
) -> Seq<(usize, usize, usize, SpaceEdge)> {
    (if incoming {
        lists[n as int].1
    } else {
        lists[n as int].0
    }).map_values(
        |e: usize| (e, space_edge(g, e).0, space_edge(g, e).1, space_edge(g, e).2),
    )
}

/// `Graph::node_count`. A graph with `u32` indices never holds more than `u32::MAX` nodes or
/// edges, and petgraph keeps every graph well formed (each node's two lists hold exactly its
/// edges).
#[verifier::external_body]
pub(crate) fn space_node_count(g: &Graph<SpaceNode, SpaceEdge>) -> (r: usize)
    ensures
        r <= u32::MAX,
        space_wf_with(*g, r as nat),
{
    g.node_count()
}

/// `Graph::edge_count`.
#[verifier::external_body]
pub(crate) fn space_edge_count(g: &Graph<SpaceNode, SpaceEdge>) -> (r: usize)
    ensures
        r == space_edges(*g).len(),
        r <= u32::MAX,
{
    g.edge_count()
}

/// `Index<NodeIndex>` on `Graph`: the weight of node `n`; it panics past the last node.
#[verifier::external_body]
pub(crate) fn space_node(g: &Graph<SpaceNode, SpaceEdge>, n: usize) -> (r: SpaceNode)
    requires
        n < space_nodes(*g).len(),
    ensures
        r == space_nodes(*g)[n as int],
{
    g[petgraph::graph::NodeIndex::new(n)]
}

/// `Graph::edges_directed`: the edges out of `n` (into `n` when `incoming`) in list order, each
/// as `(index, source, target, kind)`.
#[verifier::external_body]
pub(crate) fn space_edges_directed(g: &Graph<SpaceNode, SpaceEdge>, n: usize, incoming: bool) -> (r: Vec<
    (usize, usize, usize, SpaceEdge),
>)
    requires
        n < space_nodes(*g).len(),
    ensures
        r@ == list_entries(*g, space_lists(*g), n, incoming),
{
    let dir = if incoming {
        petgraph::Direction::Incoming
    } else {
        petgraph::Direction::Outgoing
    };
    g.edges_directed(petgraph::graph::NodeIndex::new(n), dir).map(
        |e| (e.id().index(), e.source().index(), e.target().index(), *e.weight()),
    ).collect()
}

} // verus!
