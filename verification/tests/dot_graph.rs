use query_solver::dedup::{DeduplicationId as SerializedId, SerializedSolutionGraph};
use query_solver::dot_graph::Attrs;
use query_solver::query::{
    DeduplicatedFlatExecutableDirectivesId, DeduplicationId, Edge, FieldFlags, FieldNode, QueryFieldId, SplitId,
};
use query_solver::solution::{DeriveId, IsFieldConnectedToParentResolver, SolutionEdge, SpaceEdge, SpaceFieldSetId};

fn s(text: &str) -> String {
    text.to_string()
}

#[test]
fn attrs_label_is_quoted_and_followed_by_a_space() {
    assert_eq!(Attrs::label(s("root")).to_string(), "label = \"root\" ");
}

#[test]
fn attrs_html_label_is_not_quoted() {
    assert_eq!(Attrs::label(s("<i>x</i>")).to_string(), "label = <i>x</i> ");
}

#[test]
fn attrs_bold_wraps_the_label_in_html() {
    assert_eq!(Attrs::label(s("a")).bold().to_string(), "label = <<b>a</b>> ");
    // An empty label stays empty.
    assert_eq!(Attrs::label(s("")).bold().to_string(), " ");
}

#[test]
fn attrs_with_appends_non_blank_attributes() {
    let attrs = Attrs::label(s("a")).with(s("color=red")).with(s("   ")).with(s("style=dashed"));
    assert_eq!(attrs.to_string(), "label = \"a\", color=red, style=dashed ");
    assert_eq!(Attrs::new().with(s("color=red")).to_string(), "color=red ");
}

#[test]
fn attrs_conditional_builders() {
    assert_eq!(Attrs::label_if(false, s("a")).to_string(), " ");
    assert_eq!(Attrs::label_if(true, s("a")).to_string(), "label = \"a\" ");
    assert_eq!(Attrs::label(s("a")).with_if(false, s("color=red")).to_string(), "label = \"a\" ");
    assert_eq!(Attrs::label(s("a")).with_if(true, s("color=red")).to_string(), "label = \"a\", color=red ");
}

#[test]
fn attrs_blank_label_is_not_drawn() {
    assert_eq!(Attrs::label(s(" \t")).with(s("shape=box")).to_string(), "shape=box ");
    assert_eq!(Attrs::default().to_string(), " ");
}

#[test]
fn query_edge_pretty_labels() {
    assert_eq!(Edge::QueryPartition.pretty_label(), "color=royalblue,fontcolor=royalblue ");
    assert_eq!(Edge::Field.pretty_label(), " ");
    assert_eq!(Edge::RequiredBySubgraph.pretty_label(), "color=orangered,arrowhead=inv ");
    assert_eq!(Edge::RequiredBySupergraph.pretty_label(), "color=orangered,arrowhead=inv,style=dashed ");
    assert_eq!(Edge::MutationExecutedAfter.pretty_label(), "color=red,arrowhead=inv,style=dashed ");
    assert_eq!(Edge::MutationExecutedAfter.as_str(), "MutationExecutedAfter");
}

#[test]
fn solution_edge_pretty_labels() {
    assert_eq!(SolutionEdge::QueryPartition.pretty_label(), "color=royalblue,fontcolor=royalblue ");
    assert_eq!(SolutionEdge::Field.pretty_label(), " ");
    assert_eq!(SolutionEdge::RequiredBySubgraph.pretty_label(), "color=orangered,arrowhead=inv ");
    assert_eq!(SolutionEdge::RequiredBySupergraph.pretty_label(), "color=orangered,arrowhead=inv,style=dashed ");
    assert_eq!(SolutionEdge::MutationExecutedAfter.pretty_label(), "color=red,arrowhead=inv,style=dashed ");
    assert_eq!(SolutionEdge::Field.as_str(), "Field");
}

#[test]
fn space_edge_pretty_labels() {
    assert_eq!(SpaceEdge::CreateChildResolver.pretty_label().to_string(), "color=royalblue,fontcolor=royalblue ");
    assert_eq!(SpaceEdge::CanProvide.pretty_label().to_string(), "color=royalblue,fontcolor=royalblue ");
    assert_eq!(SpaceEdge::Provides.pretty_label().to_string(), "color=violet,arrowhead=none ");
    assert_eq!(SpaceEdge::Field.pretty_label().to_string(), " ");
    assert_eq!(SpaceEdge::TypenameField.pretty_label().to_string(), " ");
    assert_eq!(SpaceEdge::Requires.pretty_label().to_string(), "color=orangered,arrowhead=inv ");
    assert_eq!(SpaceEdge::HasChildResolver.pretty_label().to_string(), "style=dashed,arrowhead=none ");
    assert_eq!(SpaceEdge::HasChildResolver.as_str(), "HasChildResolver");
}

#[test]
fn field_node_flags() {
    let node = FieldNode {
        id: QueryFieldId(3),
        dedup_id: DeduplicationId(1),
        split_id: SplitId::default(),
        flags: FieldFlags(FieldFlags::EXTRA | FieldFlags::LEAF_NODE),
    };
    assert!(node.is_extra());
    assert!(node.is_leaf());
    assert!(!node.is_indispensable());
    let node = FieldNode {
        flags: FieldFlags(FieldFlags::INDISPENSABLE | FieldFlags::TYPENAME),
        ..node
    };
    assert!(node.is_indispensable());
    assert!(!node.is_extra());
    assert!(!node.is_leaf());
    assert!(node.flags.contains(FieldFlags::TYPENAME));
    assert!(!node.flags.contains(FieldFlags::TYPENAME | FieldFlags::UNREACHABLE));
}

#[test]
fn field_connected_to_parent_resolver() {
    assert!(IsFieldConnectedToParentResolver::Yes.is_yes());
    assert!(!IsFieldConnectedToParentResolver::No { is_reachable: true }.is_yes());
}

#[test]
fn serialized_solution_graph_reserves_zero_for_none() {
    let mut graph = SerializedSolutionGraph::with_capacity(4);
    assert!(graph.as_slice().is_empty());
    graph.push(SerializedId::new(7));
    graph.push(None);
    graph.push(SerializedId::new(1));
    assert_eq!(graph.as_slice(), &[7, 0, 1]);
    assert!(SerializedId::new(0).is_none());
    assert_eq!(SerializedId::new(12).unwrap().get(), 12);
}

#[test]
fn space_ids_count_from_one() {
    assert_eq!(SpaceFieldSetId::from_index(0).index(), 0);
    assert_eq!(SpaceFieldSetId::from_index(41).index(), 41);
    assert_ne!(DeriveId::from_index(0), DeriveId::from_index(1));
    assert_eq!(DeriveId::from_index(5).index(), 5);
}

#[test]
fn directive_list_ids_count_from_one() {
    let id = DeduplicatedFlatExecutableDirectivesId::from_index(7);
    assert_eq!(id.index(), 7);
    assert_ne!(id, DeduplicatedFlatExecutableDirectivesId::from_index(8));
}
