use petgraph::graph::NodeIndex;
use petgraph::visit::EdgeRef;
use petgraph::Graph;
use query_solver::mutation_order::{ensure_mutation_execution_order, has_room_for_mutation_order};
use query_solver::partition_cycles::split_query_partition_dependency_cycles;
use query_solver::query::{
    DeduplicationId, Edge, EntityDefinitionId, FieldFlags, FieldNode, Node, QueryFieldId, QueryPosition,
    ResolverDefinitionId, SplitId,
};

fn partition(resolver: u32) -> Node {
    Node::QueryPartition {
        dedup_id: DeduplicationId(1),
        entity_definition_id: EntityDefinitionId(0),
        resolver_definition_id: ResolverDefinitionId(resolver),
    }
}

fn field(id: u32) -> Node {
    Node::Field(FieldNode {
        id: QueryFieldId(id),
        dedup_id: DeduplicationId(2),
        split_id: SplitId::default(),
        flags: FieldFlags(FieldFlags::INDISPENSABLE),
    })
}

/// The edges as `source -> target (kind)` with the given node names, sorted.
fn edges(graph: &Graph<Node, Edge>, names: &[&str]) -> Vec<String> {
    let name = |ix: NodeIndex| names.get(ix.index()).map(|n| n.to_string()).unwrap_or_else(|| format!("new{}", ix.index()));
    let mut out: Vec<String> = graph
        .edge_references()
        .map(|e| format!("{} -> {} ({})", name(e.source()), name(e.target()), e.weight().as_str()))
        .collect();
    out.sort();
    out
}

fn positions(n: u16) -> Vec<Option<QueryPosition>> {
    (0..n).map(|i| Some(QueryPosition(i))).collect()
}

#[test]
fn mutation_partitions_run_in_order() {
    let mut graph = Graph::new();
    let root = graph.add_node(Node::Root);
    let p1 = graph.add_node(partition(1));
    let p2 = graph.add_node(partition(2));
    let p3 = graph.add_node(partition(1));
    let f1 = graph.add_node(field(0));
    let f2 = graph.add_node(field(1));
    let f3 = graph.add_node(field(2));
    for p in [p1, p2, p3] {
        graph.add_edge(root, p, Edge::QueryPartition);
    }
    graph.add_edge(p1, f1, Edge::Field);
    graph.add_edge(p2, f2, Edge::Field);
    graph.add_edge(p3, f3, Edge::Field);
    let positions = positions(3);
    assert!(has_room_for_mutation_order(&graph, root.index(), &positions));
    let roots = ensure_mutation_execution_order(&mut graph, root.index(), &positions);
    assert_eq!(roots, vec![f1.index(), f2.index(), f3.index()]);
    let names = ["root", "p1", "p2", "p3", "f1", "f2", "f3"];
    assert_eq!(
        edges(&graph, &names),
        vec![
            "p1 -> f1 (Field)",
            "p2 -> f2 (Field)",
            "p2 -> p1 (MutationExecutedAfter)",
            "p3 -> f3 (Field)",
            "p3 -> p2 (MutationExecutedAfter)",
            "root -> p1 (QueryPartition)",
            "root -> p2 (QueryPartition)",
            "root -> p3 (QueryPartition)",
        ]
    );
}

#[test]
fn mutation_partition_used_twice_is_copied() {
    let mut graph = Graph::new();
    let root = graph.add_node(Node::Root);
    let p1 = graph.add_node(partition(1));
    let p2 = graph.add_node(partition(2));
    let f1 = graph.add_node(field(0));
    let f2 = graph.add_node(field(1));
    let f3 = graph.add_node(field(2));
    graph.add_edge(root, p1, Edge::QueryPartition);
    graph.add_edge(root, p2, Edge::QueryPartition);
    graph.add_edge(p1, f1, Edge::Field);
    graph.add_edge(p2, f2, Edge::Field);
    graph.add_edge(p1, f3, Edge::Field);
    let positions = positions(3);
    let roots = ensure_mutation_execution_order(&mut graph, root.index(), &positions);
    assert_eq!(roots, vec![f1.index(), f2.index(), f3.index()]);
    assert_eq!(graph.node_count(), 7);
    let names = ["root", "p1", "p2", "f1", "f2", "f3"];
    assert_eq!(
        edges(&graph, &names),
        vec![
            "new6 -> f3 (Field)",
            "new6 -> p2 (MutationExecutedAfter)",
            "p1 -> f1 (Field)",
            "p2 -> f2 (Field)",
            "p2 -> p1 (MutationExecutedAfter)",
            "root -> new6 (QueryPartition)",
            "root -> p1 (QueryPartition)",
            "root -> p2 (QueryPartition)",
        ]
    );
}

#[test]
fn mutation_fields_of_one_partition_stay_together() {
    let mut graph = Graph::new();
    let root = graph.add_node(Node::Root);
    let p1 = graph.add_node(partition(1));
    let f1 = graph.add_node(field(1));
    let f2 = graph.add_node(field(0));
    graph.add_edge(root, p1, Edge::QueryPartition);
    graph.add_edge(p1, f1, Edge::Field);
    graph.add_edge(p1, f2, Edge::Field);
    let roots = ensure_mutation_execution_order(&mut graph, root.index(), &positions(2));
    // Sorted by position, f2 comes first; f1 stays in the same partition, and both are root
    // fields.
    assert_eq!(roots, vec![f2.index(), f1.index()]);
    assert_eq!(graph.edge_count(), 3);
}

#[test]
fn mutation_field_moved_into_previous_partition_has_one_partition_edge() {
    let mut graph = Graph::new();
    let root = graph.add_node(Node::Root);
    let p3 = graph.add_node(partition(2));
    let p4 = graph.add_node(partition(1));
    let p5 = graph.add_node(partition(2));
    let g = graph.add_node(field(0));
    let h = graph.add_node(field(1));
    let i = graph.add_node(field(2));
    let f = graph.add_node(field(3));
    for p in [p3, p4, p5] {
        graph.add_edge(root, p, Edge::QueryPartition);
    }
    graph.add_edge(p3, g, Edge::Field);
    graph.add_edge(p4, h, Edge::Field);
    graph.add_edge(p5, i, Edge::Field);
    graph.add_edge(p3, f, Edge::Field);
    let roots = ensure_mutation_execution_order(&mut graph, root.index(), &positions(4));
    assert_eq!(roots, vec![g.index(), h.index(), i.index(), f.index()]);
    assert_eq!(graph.node_count(), 8);
    let names = ["root", "p3", "p4", "p5", "g", "h", "i", "f"];
    assert_eq!(
        edges(&graph, &names),
        vec![
            "p3 -> g (Field)",
            "p4 -> h (Field)",
            "p4 -> p3 (MutationExecutedAfter)",
            "p5 -> f (Field)",
            "p5 -> i (Field)",
            "p5 -> p4 (MutationExecutedAfter)",
            "root -> p3 (QueryPartition)",
            "root -> p4 (QueryPartition)",
            "root -> p5 (QueryPartition)",
        ]
    );
}

#[test]
fn dependent_fields_of_a_partition_are_split() {
    let mut graph = Graph::new();
    let root = graph.add_node(Node::Root);
    let p = graph.add_node(partition(1));
    let a = graph.add_node(field(0));
    let b = graph.add_node(field(1));
    graph.add_edge(root, p, Edge::QueryPartition);
    graph.add_edge(p, a, Edge::Field);
    graph.add_edge(p, b, Edge::Field);
    // b needs a from the same subgraph: they cannot be requested together.
    graph.add_edge(b, a, Edge::RequiredBySubgraph);
    assert!(split_query_partition_dependency_cycles(&mut graph, vec![root.index()], &positions(2)));
    let names = ["root", "p", "a", "b"];
    assert_eq!(
        edges(&graph, &names),
        vec![
            "b -> a (RequiredBySubgraph)",
            "new4 -> b (Field)",
            "p -> a (Field)",
            "root -> new4 (QueryPartition)",
            "root -> p (QueryPartition)",
        ]
    );
}

#[test]
fn independent_fields_stay_in_their_partition() {
    let mut graph = Graph::new();
    let root = graph.add_node(Node::Root);
    let p = graph.add_node(partition(1));
    let q = graph.add_node(partition(2));
    let a = graph.add_node(field(0));
    let b = graph.add_node(field(1));
    let c = graph.add_node(field(2));
    graph.add_edge(root, p, Edge::QueryPartition);
    graph.add_edge(root, q, Edge::QueryPartition);
    graph.add_edge(p, a, Edge::Field);
    graph.add_edge(p, b, Edge::Field);
    graph.add_edge(q, c, Edge::Field);
    graph.add_edge(q, a, Edge::RequiredBySubgraph);
    assert!(split_query_partition_dependency_cycles(&mut graph, vec![root.index()], &positions(3)));
    assert_eq!(graph.node_count(), 6);
    let names = ["root", "p", "q", "a", "b", "c"];
    assert_eq!(
        edges(&graph, &names),
        vec![
            "p -> a (Field)",
            "p -> b (Field)",
            "q -> a (RequiredBySubgraph)",
            "q -> c (Field)",
            "root -> p (QueryPartition)",
            "root -> q (QueryPartition)",
        ]
    );
}

#[test]
fn copied_partition_keeps_its_dependencies() {
    let mut graph = Graph::new();
    let root = graph.add_node(Node::Root);
    let p = graph.add_node(partition(1));
    let a = graph.add_node(field(0));
    let b = graph.add_node(field(1));
    let dep = graph.add_node(field(2));
    graph.add_edge(root, p, Edge::QueryPartition);
    graph.add_edge(p, dep, Edge::RequiredBySubgraph);
    graph.add_edge(p, a, Edge::Field);
    graph.add_edge(p, b, Edge::Field);
    graph.add_edge(a, b, Edge::RequiredBySubgraph);
    assert!(split_query_partition_dependency_cycles(&mut graph, vec![root.index()], &positions(3)));
    let names = ["root", "p", "a", "b", "dep"];
    assert_eq!(
        edges(&graph, &names),
        vec![
            "a -> b (RequiredBySubgraph)",
            "new5 -> b (Field)",
            "new5 -> dep (RequiredBySubgraph)",
            "p -> a (Field)",
            "p -> dep (RequiredBySubgraph)",
            "root -> new5 (QueryPartition)",
            "root -> p (QueryPartition)",
        ]
    );
}

#[test]
fn node_as_query_field() {
    assert_eq!(field(4).as_query_field(), Some(QueryFieldId(4)));
    assert_eq!(Node::Root.as_query_field(), None);
    assert_eq!(partition(1).as_query_field(), None);
}

/// Whether `b` can be reached from `a` along `RequiredBySubgraph` edges.
fn required_path(graph: &Graph<Node, Edge>, a: NodeIndex, b: NodeIndex) -> bool {
    let required = petgraph::visit::EdgeFiltered::from_fn(graph, |e| matches!(e.weight(), Edge::RequiredBySubgraph));
    petgraph::algo::has_path_connecting(&required, a, b, None)
}

#[test]
fn no_partition_keeps_linked_fields() {
    let mut graph = Graph::new();
    let root = graph.add_node(Node::Root);
    let p = graph.add_node(partition(1));
    let fields: Vec<NodeIndex> = (0..4).map(|i| graph.add_node(field(i))).collect();
    graph.add_edge(root, p, Edge::QueryPartition);
    for f in &fields {
        graph.add_edge(p, *f, Edge::Field);
    }
    graph.add_edge(fields[0], fields[1], Edge::RequiredBySubgraph);
    graph.add_edge(fields[1], fields[2], Edge::RequiredBySubgraph);
    assert!(split_query_partition_dependency_cycles(&mut graph, vec![root.index()], &positions(4)));
    let partitions: Vec<NodeIndex> = graph
        .node_indices()
        .filter(|n| matches!(graph[*n], Node::QueryPartition { .. }))
        .collect();
    assert_eq!(partitions.len(), 3);
    for partition in partitions {
        let held: Vec<NodeIndex> = graph
            .edges(partition)
            .filter(|e| matches!(e.weight(), Edge::Field))
            .map(|e| e.target())
            .collect();
        for a in &held {
            for b in &held {
                if a != b {
                    assert!(!required_path(&graph, *a, *b), "{:?} holds linked fields", partition);
                }
            }
        }
    }
    let holder = |f: NodeIndex| {
        graph
            .edges_directed(f, petgraph::Direction::Incoming)
            .filter(|e| matches!(e.weight(), Edge::Field))
            .map(|e| e.source())
            .collect::<Vec<_>>()
    };
    assert_eq!(holder(fields[0]), vec![p]);
    assert_eq!(holder(fields[3]), vec![p]);
}
