//! The edges of the solution graph and of the solution space.
use crate::dot_graph::{lemma_not_blank, render_attrs, Attrs};
use vstd::prelude::*;

verus! {

/// The edges of the solution graph.
#[derive(Clone, Copy, Debug, PartialEq, Eq, PartialOrd, Ord, Structural)]
pub enum SolutionEdge {
    QueryPartition,
    Field,
    RequiredBySubgraph,
    RequiredBySupergraph,
    MutationExecutedAfter,
}

/// The attributes that draw an edge of the solution graph.
pub open spec fn solution_edge_style(edge: SolutionEdge) -> Seq<Seq<char>> {
    match edge {
        SolutionEdge::QueryPartition => seq!["color=royalblue,fontcolor=royalblue"@],
        SolutionEdge::Field => Seq::empty(),
        SolutionEdge::RequiredBySubgraph => seq!["color=orangered,arrowhead=inv"@],
        SolutionEdge::RequiredBySupergraph => seq!["color=orangered,arrowhead=inv,style=dashed"@],
        SolutionEdge::MutationExecutedAfter => seq!["color=red,arrowhead=inv,style=dashed"@],
    }
}

/// The name of each variant, as `as_str` gives it.
pub open spec fn solution_edge_name(e: SolutionEdge) -> Seq<char> {
    match e {
        SolutionEdge::QueryPartition => "QueryPartition"@,
        SolutionEdge::Field => "Field"@,
        SolutionEdge::RequiredBySubgraph => "RequiredBySubgraph"@,
        SolutionEdge::RequiredBySupergraph => "RequiredBySupergraph"@,
        SolutionEdge::MutationExecutedAfter => "MutationExecutedAfter"@,
    }
}

impl SolutionEdge {
    /// The name of the variant.
    pub fn as_str(&self) -> (r: &'static str)
        ensures
            r@ == solution_edge_name(*self),
    {
        match self {
            SolutionEdge::QueryPartition => "QueryPartition",
            SolutionEdge::Field => "Field",
            SolutionEdge::RequiredBySubgraph => "RequiredBySubgraph",
            SolutionEdge::RequiredBySupergraph => "RequiredBySupergraph",
            SolutionEdge::MutationExecutedAfter => "MutationExecutedAfter",
        }
    }

    /// Meant to be as readable as possible for large graphs with colors.
    pub fn pretty_label(&self) -> (r: String)
        ensures
            r@ == render_attrs(Seq::empty(), solution_edge_style(*self)),
    {
        proof {
            reveal_strlit("color=royalblue,fontcolor=royalblue");
            reveal_strlit("color=orangered,arrowhead=inv");
            reveal_strlit("color=orangered,arrowhead=inv,style=dashed");
            reveal_strlit("color=red,arrowhead=inv,style=dashed");
            lemma_not_blank("color=royalblue,fontcolor=royalblue"@);
            lemma_not_blank("color=orangered,arrowhead=inv"@);
            lemma_not_blank("color=orangered,arrowhead=inv,style=dashed"@);
            lemma_not_blank("color=red,arrowhead=inv,style=dashed"@);
        }
        let attrs = match self {
            SolutionEdge::QueryPartition => Attrs::new().with(String::from_str("color=royalblue,fontcolor=royalblue")),
            SolutionEdge::Field => Attrs::new(),
            SolutionEdge::RequiredBySubgraph => Attrs::new().with(String::from_str("color=orangered,arrowhead=inv")),
            SolutionEdge::RequiredBySupergraph => Attrs::new().with(
                String::from_str("color=orangered,arrowhead=inv,style=dashed"),
            ),
            SolutionEdge::MutationExecutedAfter => Attrs::new().with(String::from_str("color=red,arrowhead=inv,style=dashed")),
        };
        assert(attrs.others_view() =~= solution_edge_style(*self));
        attrs.to_string()
    }
}

/// The edges of the solution space.
#[derive(Clone, Copy, Debug, PartialEq, Eq, Hash, Structural)]
pub enum SpaceEdge {
    /// From a providable field or the root to a resolver: the only incoming edge of a resolver.
    CreateChildResolver,
    /// From a resolver to a providable field.
    CanProvide,
    /// From a parent query field to a nested query field.
    Field,
    TypenameField,
    /// From a field, the parent of a selection set, to a resolver.
    HasChildResolver,
    /// From a providable field to a field.
    Provides,
    /// From a field (`@authorized`), resolver or providable field (`@requires`) to a field.
    Requires,
}

/// The attributes that draw an edge of the solution space.
pub open spec fn space_edge_style(edge: SpaceEdge) -> Seq<Seq<char>> {
    match edge {
        SpaceEdge::CreateChildResolver | SpaceEdge::CanProvide => seq!["color=royalblue,fontcolor=royalblue"@],
        SpaceEdge::Provides => seq!["color=violet,arrowhead=none"@],
        SpaceEdge::Field | SpaceEdge::TypenameField => Seq::empty(),
        SpaceEdge::Requires => seq!["color=orangered,arrowhead=inv"@],
        SpaceEdge::HasChildResolver => seq!["style=dashed,arrowhead=none"@],
    }
}

/// The name of each variant, as `as_str` gives it.
pub open spec fn space_edge_name(e: SpaceEdge) -> Seq<char> {
    match e {
        SpaceEdge::CreateChildResolver => "CreateChildResolver"@,
        SpaceEdge::CanProvide => "CanProvide"@,
        SpaceEdge::Field => "Field"@,
        SpaceEdge::TypenameField => "TypenameField"@,
        SpaceEdge::HasChildResolver => "HasChildResolver"@,
        SpaceEdge::Provides => "Provides"@,
        SpaceEdge::Requires => "Requires"@,
    }
}

impl SpaceEdge {
    /// The name of the variant.
    pub fn as_str(&self) -> (r: &'static str)
        ensures
            r@ == space_edge_name(*self),
    {
        match self {
            SpaceEdge::CreateChildResolver => "CreateChildResolver",
            SpaceEdge::CanProvide => "CanProvide",
            SpaceEdge::Field => "Field",
            SpaceEdge::TypenameField => "TypenameField",
            SpaceEdge::HasChildResolver => "HasChildResolver",
            SpaceEdge::Provides => "Provides",
            SpaceEdge::Requires => "Requires",
        }
    }

    /// Meant to be as readable as possible for large graphs with colors: an empty label and
    /// the edge's colors.
    pub fn pretty_label(&self) -> (r: Attrs)
        ensures
            r.label_view() == Seq::<char>::empty(),
            r.others_view() == space_edge_style(*self),
    {
        proof {
            reveal_strlit("");
            reveal_strlit("color=royalblue,fontcolor=royalblue");
            reveal_strlit("color=violet,arrowhead=none");
            reveal_strlit("color=orangered,arrowhead=inv");
            reveal_strlit("style=dashed,arrowhead=none");
            lemma_not_blank("color=royalblue,fontcolor=royalblue"@);
            lemma_not_blank("color=violet,arrowhead=none"@);
            lemma_not_blank("color=orangered,arrowhead=inv"@);
            lemma_not_blank("style=dashed,arrowhead=none"@);
        }
        let label = String::from_str("");
        let attrs = match self {
            SpaceEdge::CreateChildResolver => Attrs::label(label).with(String::from_str("color=royalblue,fontcolor=royalblue")),
            SpaceEdge::CanProvide => Attrs::label(label).with(String::from_str("color=royalblue,fontcolor=royalblue")),
            SpaceEdge::Provides => Attrs::label(label).with(String::from_str("color=violet,arrowhead=none")),
            SpaceEdge::Field | SpaceEdge::TypenameField => Attrs::label(label),
            SpaceEdge::Requires => Attrs::label(label).with(String::from_str("color=orangered,arrowhead=inv")),
            SpaceEdge::HasChildResolver => Attrs::label(label).with(String::from_str("style=dashed,arrowhead=none")),
        };
        assert(attrs.others_view() =~= space_edge_style(*self));
        assert(attrs.label_view() =~= Seq::<char>::empty());
        attrs
    }
}

/// Whether a field can be provided by its parent resolver.
#[derive(Clone, Copy, Debug, PartialEq, Eq)]
pub enum IsFieldConnectedToParentResolver {
    Yes,
    No { is_reachable: bool },
}

impl IsFieldConnectedToParentResolver {
    pub fn is_yes(&self) -> (r: bool)
        ensures
            r == (*self is Yes),
    {
        matches!(self, IsFieldConnectedToParentResolver::Yes)
    }
}

/// Identifies a field set of the solution space: the index of the field set plus one, never zero.
#[derive(Clone, Copy, Debug, PartialEq, Eq, PartialOrd, Ord, Hash)]
pub struct SpaceFieldSetId(u32);

impl SpaceFieldSetId {
    #[verifier::type_invariant]
    spec fn is_non_zero(self) -> bool {
        self.0 != 0
    }

    /// The index that the id stands for.
    pub closed spec fn index_of(self) -> nat {
        (self.0 - 1) as nat
    }

    /// The id of the field set at `index`.
    pub fn from_index(index: usize) -> (r: Self)
        requires
            index < u32::MAX,
        ensures
            r.index_of() == index,
    {
        SpaceFieldSetId((index + 1) as u32)
    }

    /// The index of the field set.
    pub fn index(&self) -> (r: usize)
        ensures
            r == self.index_of(),
    {
        proof {
            use_type_invariant(*self);
        }
        (self.0 - 1) as usize
    }
}

/// Identifies a derived field of the solution space: the index of the derive plus one, never zero.
#[derive(Clone, Copy, Debug, PartialEq, Eq, PartialOrd, Ord, Hash)]
pub struct DeriveId(u32);

impl DeriveId {
    #[verifier::type_invariant]
    spec fn is_non_zero(self) -> bool {
        self.0 != 0
    }

    /// The index that the id stands for.
    pub closed spec fn index_of(self) -> nat {
        (self.0 - 1) as nat
    }

    /// The id of the derive at `index`.
    pub fn from_index(index: usize) -> (r: Self)
        requires
            index < u32::MAX,
        ensures
            r.index_of() == index,
    {
        DeriveId((index + 1) as u32)
    }

    /// The index of the derive.
    pub fn index(&self) -> (r: usize)
        ensures
            r == self.index_of(),
    {
        proof {
            use_type_invariant(*self);
        }
        (self.0 - 1) as usize
    }
}

} // verus!
