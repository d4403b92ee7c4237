use petgraph::graph::NodeIndex;
use petgraph::Graph;
use query_solver::requirements::IdRange;
use query_solver::requirements_input::{
    DependentEdgeWithDispensableRequirements, DispensableRequirementsBuilder, SteinerInputMap,
};
use query_solver::steiner_tree::SteinerTree;

/// root -> n1 (1), n1 -> n2 (2), root -> n3 (3), n3 -> n2 (4); space nodes and edges map one
/// to one.
fn graph() -> Graph<(), u32> {
    let mut graph = Graph::new();
    let nodes: Vec<NodeIndex> = (0..4).map(|_| graph.add_node(())).collect();
    graph.add_edge(nodes[0], nodes[1], 1);
    graph.add_edge(nodes[1], nodes[2], 2);
    graph.add_edge(nodes[0], nodes[3], 3);
    graph.add_edge(nodes[3], nodes[2], 4);
    graph
}

fn map() -> SteinerInputMap {
    SteinerInputMap {
        node_id_to_space_node_id: vec![0, 1, 2, 3],
        edge_id_to_space_edge_id: vec![0, 1, 2, 3],
        space_node_id_to_node_id: vec![0, 1, 2, 3],
        space_edge_id_to_edge_id: vec![Some(0), Some(1), Some(2), Some(3)],
    }
}

fn dependent(source: usize, edge: usize, start: usize, end: usize) -> DependentEdgeWithDispensableRequirements {
    DependentEdgeWithDispensableRequirements {
        dependent_space_edge_source: source,
        dependent_space_edge_id: edge,
        required_space_node_ids: IdRange { start, end },
    }
}

#[test]
fn build_groups_dependent_edges_by_source_and_requirements() {
    let graph = graph();
    let tree = SteinerTree::new(&graph, 0, vec![]);
    let mut builder = DispensableRequirementsBuilder::new();
    builder.required_space_nodes = vec![2, 3, 2, 1];
    builder.free = vec![(1, IdRange { start: 0, end: 2 })];
    builder.dispensable = vec![dependent(1, 1, 2, 4), dependent(3, 3, 0, 1), dependent(1, 0, 2, 4)];
    let requirements = builder.build(&graph, &map(), &tree);

    assert_eq!(requirements.required_space_nodes, vec![2, 3, 2, 1]);
    assert_eq!(requirements.free_requirements_by_node.len(), 1);
    let free = requirements.free_requirements_by_node[0];
    assert_eq!(free.node_id, 1);
    assert_eq!(free.required_space_node_ids, IdRange { start: 0, end: 2 });
    assert_eq!(&requirements.required_nodes[free.required_node_ids.start..free.required_node_ids.end], &[2, 3]);
    assert!(requirements.free_requirements_by_edge.is_empty());

    assert_eq!(requirements.requirements_by_edge.len(), 2);
    let first = requirements.requirements_by_edge[0];
    assert_eq!(first.required_space_node_ids, IdRange { start: 2, end: 4 });
    assert_eq!(&requirements.required_nodes[first.required_node_ids.start..first.required_node_ids.end], &[1, 2]);
    assert_eq!(
        &requirements.dependent_edges_with_inherent_weight
            [first.dependent_edge_with_inherent_weight_ids.start..first.dependent_edge_with_inherent_weight_ids.end],
        &[(1, 2), (0, 1)]
    );
    assert_eq!(
        &requirements.unavoidable_parent_edges[first.unavoidable_parent_edge_ids.start..first.unavoidable_parent_edge_ids.end],
        &[0]
    );
    let second = requirements.requirements_by_edge[1];
    assert_eq!(second.required_space_node_ids, IdRange { start: 0, end: 1 });
    assert_eq!(&requirements.required_nodes[second.required_node_ids.start..second.required_node_ids.end], &[2]);
    assert_eq!(
        &requirements.dependent_edges_with_inherent_weight
            [second.dependent_edge_with_inherent_weight_ids.start..second.dependent_edge_with_inherent_weight_ids.end],
        &[(3, 4)]
    );
    assert_eq!(
        &requirements.unavoidable_parent_edges
            [second.unavoidable_parent_edge_ids.start..second.unavoidable_parent_edge_ids.end],
        &[2]
    );
    assert!(requirements.fits_graph(&graph));
}

#[test]
fn build_drops_required_nodes_that_are_terminals() {
    let graph = graph();
    let tree = SteinerTree::new(&graph, 0, vec![2]);
    let mut builder = DispensableRequirementsBuilder::new();
    builder.required_space_nodes = vec![2, 3, 3];
    builder.free = vec![(1, IdRange { start: 0, end: 3 })];
    let requirements = builder.build(&graph, &map(), &tree);
    let free = requirements.free_requirements_by_node[0];
    assert_eq!(&requirements.required_nodes[free.required_node_ids.start..free.required_node_ids.end], &[3]);
    assert!(requirements.requirements_by_edge.is_empty());
}
