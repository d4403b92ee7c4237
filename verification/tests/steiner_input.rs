use petgraph::graph::NodeIndex;
use petgraph::visit::EdgeRef;
use petgraph::Graph;
use query_solver::error::Error;
use query_solver::query::{DeduplicationId, EntityDefinitionId, FieldFlags, FieldNode, QueryFieldId, ResolverDefinitionId, SplitId};
use query_solver::requirements::IdRange;
use query_solver::requirements_input::{DispensableRequirementsBuilder, SteinerInputMap};
use query_solver::solution::SpaceEdge;
use query_solver::space_graph::{ProvidableField, Resolver, SpaceNode};
use query_solver::steiner_build::build_input_and_terminals;
use query_solver::steiner_input::{SteinerInputBuilder, NO_NODE};

fn field(id: u32, flags: u8) -> SpaceNode {
    SpaceNode::Field(FieldNode {
        id: QueryFieldId(id),
        dedup_id: DeduplicationId(0),
        split_id: SplitId(0),
        flags: FieldFlags(flags),
    })
}

fn resolver(id: u32) -> SpaceNode {
    SpaceNode::Resolver(Resolver {
        entity_definition_id: EntityDefinitionId(0),
        definition_id: ResolverDefinitionId(id),
    })
}

fn providable(id: u32) -> SpaceNode {
    SpaceNode::ProvidableField(ProvidableField {
        resolver_definition_id: ResolverDefinitionId(id),
        query_field_id: QueryFieldId(0),
        provides: None,
        only_providable: false,
        derive_id: None,
    })
}

fn space(nodes: Vec<SpaceNode>, edges: &[(usize, usize, SpaceEdge)]) -> Graph<SpaceNode, SpaceEdge> {
    let mut g = Graph::new();
    for n in nodes {
        g.add_node(n);
    }
    for &(a, b, w) in edges {
        g.add_edge(NodeIndex::new(a), NodeIndex::new(b), w);
    }
    g
}

/// A Steiner graph holding only the root, mapped from space node 0.
fn builder(space: &Graph<SpaceNode, SpaceEdge>) -> SteinerInputBuilder {
    let mut graph = Graph::new();
    graph.add_node(());
    let mut space_node_id_to_node_id = vec![NO_NODE; space.node_count()];
    space_node_id_to_node_id[0] = 0;
    SteinerInputBuilder {
        graph,
        root_node_id: 0,
        map: SteinerInputMap {
            node_id_to_space_node_id: vec![0],
            edge_id_to_space_edge_id: vec![],
            space_node_id_to_node_id,
            space_edge_id_to_edge_id: vec![None; space.edge_count()],
        },
        indispensable_terminal_space_node_ids: vec![],
        dispensable_terminal_space_node_ids: vec![],
        nodes_to_process_stack: vec![],
        space_node_path_stack: vec![],
        space_node_relative_depth_weight_to_steiner_node: vec![0; space.node_count()],
    }
}

fn steiner_edges(g: &Graph<(), u32>) -> Vec<(usize, usize, u32)> {
    g.edge_references().map(|e| (e.source().index(), e.target().index(), *e.weight())).collect()
}

const LEAF: u8 = FieldFlags::LEAF_NODE;
const INDISPENSABLE_LEAF: u8 = FieldFlags::LEAF_NODE | FieldFlags::INDISPENSABLE;

#[test]
fn single_path_from_the_root_collapses_into_the_root() {
    // root -> resolver -> providable field -> field
    let space = space(
        vec![SpaceNode::Root, resolver(1), providable(1), field(1, INDISPENSABLE_LEAF)],
        &[
            (0, 1, SpaceEdge::CreateChildResolver),
            (1, 2, SpaceEdge::CanProvide),
            (2, 3, SpaceEdge::Provides),
            (0, 3, SpaceEdge::Field),
        ],
    );
    let mut b = builder(&space);
    let mut reqs = DispensableRequirementsBuilder::new();
    let r = b.ingest_nodes_from_terminal(&space, &mut reqs, 3, true);
    assert!(matches!(r, Ok(0)));
    assert_eq!(b.map.space_node_id_to_node_id, vec![0, 0, 0, 0]);
    assert_eq!(b.graph.node_count(), 1);
    assert_eq!(b.graph.edge_count(), 0);
    // One resolver lies between the field and the root.
    assert_eq!(b.space_node_relative_depth_weight_to_steiner_node, vec![0, 1, 1, 1]);
    assert!(b.nodes_to_process_stack.is_empty());
    assert!(b.space_node_path_stack.is_empty());
}

#[test]
fn field_provided_by_two_resolvers_gets_a_node_and_two_weighted_paths() {
    let space = space(
        vec![
            SpaceNode::Root,
            resolver(1),
            resolver(2),
            providable(1),
            providable(2),
            field(1, INDISPENSABLE_LEAF),
        ],
        &[
            (0, 1, SpaceEdge::CreateChildResolver),
            (0, 2, SpaceEdge::CreateChildResolver),
            (1, 3, SpaceEdge::CanProvide),
            (2, 4, SpaceEdge::CanProvide),
            (3, 5, SpaceEdge::Provides),
            (4, 5, SpaceEdge::Provides),
        ],
    );
    let mut b = builder(&space);
    let mut reqs = DispensableRequirementsBuilder::new();
    let r = b.ingest_nodes_from_terminal(&space, &mut reqs, 5, true);
    assert!(matches!(r, Ok(1)));
    assert_eq!(b.map.space_node_id_to_node_id, vec![0, 2, 3, 2, 3, 1]);
    assert_eq!(b.map.node_id_to_space_node_id, vec![0, 5, 1, 2]);
    assert_eq!(steiner_edges(&b.graph), vec![(2, 1, 0), (0, 2, 10), (3, 1, 0), (0, 3, 10)]);
    assert_eq!(b.map.edge_id_to_space_edge_id, vec![4, 0, 5, 1]);
    assert_eq!(b.map.space_edge_id_to_edge_id, vec![Some(1), Some(3), None, None, Some(0), Some(2)]);

    // Climbing again from a field already reached adds nothing.
    let again = b.ingest_nodes_from_terminal(&space, &mut reqs, 5, true);
    assert!(matches!(again, Ok(1)));
    assert_eq!(b.graph.node_count(), 4);
    assert_eq!(b.graph.edge_count(), 4);
}

#[test]
fn dispensable_terminal_returns_no_node() {
    let space = space(
        vec![SpaceNode::Root, resolver(1), providable(1), field(1, LEAF)],
        &[(0, 1, SpaceEdge::CreateChildResolver), (1, 2, SpaceEdge::CanProvide), (2, 3, SpaceEdge::Provides)],
    );
    let mut b = builder(&space);
    let mut reqs = DispensableRequirementsBuilder::new();
    let r = b.ingest_nodes_from_terminal(&space, &mut reqs, 3, false);
    assert!(matches!(r, Ok(n) if n == NO_NODE));
    // The resolver's edge weighs something, so the resolver gets its own node.
    assert_eq!(b.map.space_node_id_to_node_id, vec![0, 1, 1, 1]);
    assert_eq!(steiner_edges(&b.graph), vec![(0, 1, 10)]);
}

#[test]
fn requirements_on_the_indispensable_path_become_terminals() {
    // The providable field requires the dispensable leaf field 4.
    let space = space(
        vec![SpaceNode::Root, resolver(1), providable(1), field(1, INDISPENSABLE_LEAF), field(2, LEAF)],
        &[
            (0, 1, SpaceEdge::CreateChildResolver),
            (1, 2, SpaceEdge::CanProvide),
            (2, 3, SpaceEdge::Provides),
            (2, 4, SpaceEdge::Requires),
        ],
    );
    let mut b = builder(&space);
    let mut reqs = DispensableRequirementsBuilder::new();
    let r = b.ingest_nodes_from_terminal(&space, &mut reqs, 3, true);
    assert!(matches!(r, Ok(0)));
    assert_eq!(b.indispensable_terminal_space_node_ids, vec![4]);
    assert!(reqs.required_space_nodes.is_empty());
    assert!(reqs.dispensable.is_empty());
}

#[test]
fn climb_through_a_cycle_stops_with_an_error() {
    // Fields 1 and 2 provide each other and nothing else reaches them.
    let space = space(
        vec![SpaceNode::Root, field(1, LEAF), field(2, LEAF)],
        &[(1, 2, SpaceEdge::Provides), (2, 1, SpaceEdge::Provides)],
    );
    let mut b = builder(&space);
    let mut reqs = DispensableRequirementsBuilder::new();
    let r = b.ingest_nodes_from_terminal(&space, &mut reqs, 1, true);
    assert!(matches!(r, Err(Error::RequirementCycleDetected)));
    assert!(b.nodes_to_process_stack.is_empty());
    assert!(b.space_node_path_stack.is_empty());
}

/// root -> resolver 1 -> providable 2 (requires field 4), providable 5 (provides field 4 freely);
/// providable 2 provides field 3.
fn requiring_space() -> Graph<SpaceNode, SpaceEdge> {
    space(
        vec![SpaceNode::Root, resolver(1), providable(1), field(1, LEAF), field(2, LEAF), providable(1)],
        &[
            (0, 1, SpaceEdge::CreateChildResolver),
            (1, 2, SpaceEdge::CanProvide),
            (2, 3, SpaceEdge::Provides),
            (2, 4, SpaceEdge::Requires),
            (1, 5, SpaceEdge::CanProvide),
            (5, 4, SpaceEdge::Provides),
        ],
    )
}

#[test]
fn collect_takes_dispensable_leaf_requirements() {
    let space = requiring_space();
    let mut reqs = DispensableRequirementsBuilder::new();
    let ids = reqs.collect(&space, 2);
    assert_eq!(ids, IdRange { start: 0, end: 1 });
    assert_eq!(reqs.required_space_nodes, vec![4]);
    assert_eq!(reqs.collect(&space, 3), IdRange { start: 1, end: 1 });
    let forgotten = reqs.forget_because_indispensable(IdRange { start: 0, end: 1 });
    assert_eq!(forgotten, vec![4]);
    assert!(reqs.required_space_nodes.is_empty());
}

#[test]
fn ingest_counts_requirements_free_when_a_sibling_provides_them() {
    let space = requiring_space();
    let mut reqs = DispensableRequirementsBuilder::new();
    let ids = reqs.collect(&space, 2);
    let r = reqs.ingest(&space, 7, 2, ids);
    assert_eq!(r, IdRange { start: 0, end: 1 });
    assert_eq!(reqs.free, vec![(7, r)]);
    assert!(reqs.dispensable.is_empty());
    assert_eq!(reqs.interner, vec![r]);
}

#[test]
fn ingest_shares_equal_requirements_and_makes_parent_edges_dependent() {
    // Without the free provider, the requirement costs something.
    let space = space(
        vec![SpaceNode::Root, resolver(1), providable(1), field(1, LEAF), field(2, LEAF), field(3, LEAF)],
        &[
            (0, 1, SpaceEdge::CreateChildResolver),
            (1, 2, SpaceEdge::CanProvide),
            (2, 3, SpaceEdge::Provides),
            (2, 5, SpaceEdge::Requires),
            (2, 4, SpaceEdge::Requires),
        ],
    );
    let mut reqs = DispensableRequirementsBuilder::new();
    let ids = reqs.collect(&space, 2);
    // The newest edge comes first in the outgoing list.
    assert_eq!(reqs.required_space_nodes, vec![4, 5]);
    let first = reqs.ingest(&space, 7, 2, ids);
    assert_eq!(first, IdRange { start: 0, end: 2 });
    assert_eq!(reqs.dispensable.len(), 1);
    assert_eq!(reqs.dispensable[0].dependent_space_edge_source, 1);
    assert_eq!(reqs.dispensable[0].dependent_space_edge_id, 1);
    assert_eq!(reqs.dispensable[0].required_space_node_ids, first);

    let ids = reqs.collect(&space, 2);
    assert_eq!(ids, IdRange { start: 2, end: 4 });
    let second = reqs.ingest(&space, 8, 2, ids);
    assert_eq!(second, first);
    assert_eq!(reqs.required_space_nodes, vec![4, 5]);
    assert_eq!(reqs.interner, vec![first]);
    assert_eq!(reqs.dispensable.len(), 2);
    assert!(reqs.free.is_empty());
}

#[test]
fn build_input_places_the_terminals_and_groups_the_requirements() {
    // Field 5 is provided by two resolvers; the second providable field requires field 6, a
    // dispensable leaf that only the first resolver's providable field 7 provides.
    let space = space(
        vec![
            SpaceNode::Root,
            resolver(1),
            resolver(2),
            providable(1),
            providable(2),
            field(1, INDISPENSABLE_LEAF),
            field(2, LEAF),
            providable(1),
        ],
        &[
            (0, 1, SpaceEdge::CreateChildResolver),
            (0, 2, SpaceEdge::CreateChildResolver),
            (1, 3, SpaceEdge::CanProvide),
            (2, 4, SpaceEdge::CanProvide),
            (3, 5, SpaceEdge::Provides),
            (4, 5, SpaceEdge::Provides),
            (4, 6, SpaceEdge::Requires),
            (1, 7, SpaceEdge::CanProvide),
            (7, 6, SpaceEdge::Provides),
        ],
    );
    let (input, tree) = match build_input_and_terminals(&space, 0) {
        Ok(r) => r,
        Err(_) => panic!("the space has no cycle"),
    };
    assert_eq!(input.root_node_id, 0);
    assert!(input.space_node_is_terminal.contains(5));
    assert!(!input.space_node_is_terminal.contains(6));
    let terminal = input.map.space_node_id_to_node_id[5];
    assert_eq!(tree.terminals, vec![terminal]);
    assert!(tree.is_terminal.contains(0));
    assert!(tree.is_terminal.contains(terminal));
    assert_eq!(tree.nodes.count_ones(..), 1);
    assert_eq!(tree.total_weight, 0);
    // The requirement of the second providable field was climbed from: field 6 is reached.
    assert_ne!(input.map.space_node_id_to_node_id[6], NO_NODE);
    // It costs something on the second resolver's edge: one group, for that edge.
    assert_eq!(input.requirements.requirements_by_edge.len(), 1);
    assert_eq!(input.requirements.free_requirements_by_node.len(), 0);
    assert_eq!(input.requirements.required_space_nodes, vec![6]);
    assert!(input.requirements.fits_graph(&input.graph));
}

#[test]
fn build_input_with_a_requirement_cycle_fails() {
    let space = space(
        vec![SpaceNode::Root, field(1, INDISPENSABLE_LEAF), field(2, LEAF)],
        &[(1, 2, SpaceEdge::Provides), (2, 1, SpaceEdge::Provides)],
    );
    assert!(matches!(build_input_and_terminals(&space, 0), Err(Error::RequirementCycleDetected)));
}
