//! The nodes, edges and identifiers of the solved query graph.
use crate::dot_graph::{lemma_not_blank, render_attrs, Attrs};
use vstd::prelude::*;

verus! {

/// The flags of a field node.
#[derive(Clone, Copy, Debug, PartialEq, Eq, Structural)]
pub struct FieldFlags(pub u8);

impl FieldFlags {
    /// Extra field that is not part of the operation and should not be returned to the user.
    pub const EXTRA: u8 = 1;
    /// Whether the field must be requested from the subgraphs: operation fields, but also
    /// fields needed by `@authorized` for example.
    pub const INDISPENSABLE: u8 = 1 << 1;
    /// Whether the field is a leaf node in the Steiner graph.
    pub const LEAF_NODE: u8 = 1 << 2;
    /// Whether the field is a `__typename` field.
    pub const TYPENAME: u8 = 1 << 3;
    /// A field that could not be reached from its parent type or subgraph.
    pub const UNREACHABLE: u8 = 1 << 4;
    pub const PROVIDABLE: u8 = 1 << 5;

    /// Whether every flag of `flag` is set.
    pub fn contains(&self, flag: u8) -> (r: bool)
        ensures
            r == (self.0 & flag == flag),
    {
        self.0 & flag == flag
    }
}

#[derive(Clone, Copy, Debug, PartialEq, Eq, PartialOrd, Ord, Hash, Structural)]
pub struct QueryFieldId(pub u32);

/// Copies of a query field made when planning an interface through its implementors.
#[derive(Clone, Copy, Debug, PartialEq, Eq, PartialOrd, Ord, Hash, Default, Structural)]
pub struct SplitId(pub u32);

#[derive(Clone, Copy, Debug, PartialEq, Eq, PartialOrd, Ord, Hash, Structural)]
pub struct DeduplicationId(pub u16);

#[derive(Clone, Copy, Debug, PartialEq, Eq, PartialOrd, Ord, Hash, Structural)]
pub struct TypeConditionSharedVecId(pub u32);

/// Identifies a deduplicated, flattened and sorted list of executable directives: the index of
/// the list plus one, never zero.
#[derive(Clone, Copy, Debug, PartialEq, Eq, PartialOrd, Ord, Hash)]
pub struct DeduplicatedFlatExecutableDirectivesId(u32);

impl DeduplicatedFlatExecutableDirectivesId {
    #[verifier::type_invariant]
    spec fn is_non_zero(self) -> bool {
        self.0 != 0
    }

    /// The index that the id stands for.
    pub closed spec fn index_of(self) -> nat {
        (self.0 - 1) as nat
    }

    /// The id of the list at `index`.
    pub fn from_index(index: usize) -> (r: Self)
        requires
            index < u32::MAX,
        ensures
            r.index_of() == index,
    {
        DeduplicatedFlatExecutableDirectivesId((index + 1) as u32)
    }

    /// The index of the list.
    pub fn index(&self) -> (r: usize)
        ensures
            r == self.index_of(),
    {
        proof {
            use_type_invariant(*self);
        }
        (self.0 - 1) as usize
    }
}

/// A field of the solved query.
#[derive(Clone, Copy, Debug)]
pub struct FieldNode {
    pub id: QueryFieldId,
    pub dedup_id: DeduplicationId,
    pub split_id: SplitId,
    pub flags: FieldFlags,
}

impl FieldNode {
    pub fn is_indispensable(&self) -> (r: bool)
        ensures
            r == (self.flags.0 & FieldFlags::INDISPENSABLE == FieldFlags::INDISPENSABLE),
    {
        self.flags.contains(FieldFlags::INDISPENSABLE)
    }

    pub fn is_extra(&self) -> (r: bool)
        ensures
            r == (self.flags.0 & FieldFlags::EXTRA == FieldFlags::EXTRA),
    {
        self.flags.contains(FieldFlags::EXTRA)
    }

    pub fn is_leaf(&self) -> (r: bool)
        ensures
            r == (self.flags.0 & FieldFlags::LEAF_NODE == FieldFlags::LEAF_NODE),
    {
        self.flags.contains(FieldFlags::LEAF_NODE)
    }
}

/// Identifies an entity type of the schema.
#[derive(Clone, Copy, Debug, PartialEq, Eq, PartialOrd, Ord, Hash, Structural)]
pub struct EntityDefinitionId(pub u32);

/// Identifies a resolver (a subgraph's way to fetch data) of the schema.
#[derive(Clone, Copy, Debug, PartialEq, Eq, PartialOrd, Ord, Hash, Structural)]
pub struct ResolverDefinitionId(pub u32);

/// Where a field stands in the operation, counted from its start.
#[derive(Clone, Copy, Debug, PartialEq, Eq, PartialOrd, Ord, Hash, Structural)]
pub struct QueryPosition(pub u16);

/// A node of the solved query graph.
#[derive(Clone, Copy, Debug)]
pub enum Node {
    Root,
    /// A part of the query sent to one resolver.
    QueryPartition {
        dedup_id: DeduplicationId,
        entity_definition_id: EntityDefinitionId,
        resolver_definition_id: ResolverDefinitionId,
    },
    Field(FieldNode),
}

impl Node {
    /// The query field of a field node.
    pub fn as_query_field(&self) -> (r: Option<QueryFieldId>)
        ensures
            r == match *self {
                Node::Field(node) => Some(node.id),
                _ => None,
            },
    {
        match self {
            Node::Field(node) => Some(node.id),
            _ => None,
        }
    }
}

/// The edges of the solved query graph.
#[derive(Clone, Copy, Debug, PartialEq, Eq, PartialOrd, Ord, Structural)]
pub enum Edge {
    QueryPartition,
    Field,
    Derive,
    RequiredBySubgraph,
    RequiredBySupergraph,
    MutationExecutedAfter,
}

/// The attributes that draw an edge of the solved query graph.
pub open spec fn edge_style(edge: Edge) -> Seq<Seq<char>> {
    match edge {
        Edge::QueryPartition => seq!["color=royalblue,fontcolor=royalblue"@],
        Edge::Field | Edge::Derive => Seq::empty(),
        Edge::RequiredBySubgraph => seq!["color=orangered,arrowhead=inv"@],
        Edge::RequiredBySupergraph => seq!["color=orangered,arrowhead=inv,style=dashed"@],
        Edge::MutationExecutedAfter => seq!["color=red,arrowhead=inv,style=dashed"@],
    }
}

/// The name of each variant, as `as_str` gives it.
pub open spec fn edge_name(e: Edge) -> Seq<char> {
    match e {
        Edge::QueryPartition => "QueryPartition"@,
        Edge::Field => "Field"@,
        Edge::Derive => "Derive"@,
        Edge::RequiredBySubgraph => "RequiredBySubgraph"@,
        Edge::RequiredBySupergraph => "RequiredBySupergraph"@,
        Edge::MutationExecutedAfter => "MutationExecutedAfter"@,
    }
}

impl Edge {
    /// Whether the edge is a requirement of a subgraph.
    pub fn is_required_by_subgraph(&self) -> (r: bool)
        ensures
            r == (*self is RequiredBySubgraph),
    {
        matches!(self, Edge::RequiredBySubgraph)
    }

    /// The name of the variant.
    pub fn as_str(&self) -> (r: &'static str)
        ensures
            r@ == edge_name(*self),
    {
        match self {
            Edge::QueryPartition => "QueryPartition",
            Edge::Field => "Field",
            Edge::Derive => "Derive",
            Edge::RequiredBySubgraph => "RequiredBySubgraph",
            Edge::RequiredBySupergraph => "RequiredBySupergraph",
            Edge::MutationExecutedAfter => "MutationExecutedAfter",
        }
    }

    /// Meant to be as readable as possible for large graphs with colors.
    pub fn pretty_label(&self) -> (r: String)
        ensures
            r@ == render_attrs(Seq::empty(), edge_style(*self)),
    {
        proof {
            reveal_strlit("color=royalblue,fontcolor=royalblue");
            reveal_strlit("color=orangered,arrowhead=inv");
            reveal_strlit("color=orangered,arrowhead=inv,style=dashed");
            reveal_strlit("color=red,arrowhead=inv,style=dashed");
            lemma_not_blank("color=royalblue,fontcolor=royalblue"@);
            lemma_not_blank("color=orangered,arrowhead=inv"@);
            lemma_not_blank("color=orangered,arrowhead=inv,style=dashed"@);
            lemma_not_blank("color=red,arrowhead=inv,style=dashed"@);
        }
        let attrs = match self {
            Edge::QueryPartition => Attrs::new().with(String::from_str("color=royalblue,fontcolor=royalblue")),
            Edge::Field | Edge::Derive => Attrs::new(),
            Edge::RequiredBySubgraph => Attrs::new().with(String::from_str("color=orangered,arrowhead=inv")),
            Edge::RequiredBySupergraph => Attrs::new().with(String::from_str("color=orangered,arrowhead=inv,style=dashed")),
            Edge::MutationExecutedAfter => Attrs::new().with(String::from_str("color=red,arrowhead=inv,style=dashed")),
        };
        assert(attrs.others_view() =~= edge_style(*self));
        attrs.to_string()
    }
}

} // verus!
