//! Solutions serialized as the sequence of deduplication ids of their fields.
use vstd::prelude::*;

verus! {

/// A deduplication id, never zero (zero stands for "none" once serialized).
#[derive(Clone, Copy, Debug, PartialEq, Eq, PartialOrd, Ord, Hash)]
pub struct DeduplicationId(u16);

impl DeduplicationId {
    #[verifier::type_invariant]
    spec fn is_non_zero(self) -> bool {
        self.0 != 0
    }

    pub closed spec fn value(self) -> u16 {
        self.0
    }

    /// The id `id`, or `None` for zero.
    pub fn new(id: u16) -> (r: Option<Self>)
        ensures
            r is Some <==> id != 0,
            r matches Some(d) ==> d.value() == id,
    {
        if id == 0 {
            None
        } else {
            Some(DeduplicationId(id))
        }
    }

    pub fn get(&self) -> (r: u16)
        ensures
            r == self.value(),
            r != 0,
    {
        proof {
            use_type_invariant(*self);
        }
        self.0
    }
}

/// How an optional id is serialized: the id itself, or zero for none.
pub open spec fn serialized_id(id: Option<DeduplicationId>) -> u16 {
    match id {
        Some(d) => d.value(),
        None => 0,
    }
}

/// A solution as the serialized deduplication ids of its fields.
pub struct SerializedSolutionGraph(Vec<u16>);

impl SerializedSolutionGraph {
    pub closed spec fn view(&self) -> Seq<u16> {
        self.0@
    }

    /// An empty serialization.
    pub fn with_capacity(capacity: usize) -> (r: Self)
        ensures
            r.view() == Seq::<u16>::empty(),
    {
        SerializedSolutionGraph(Vec::with_capacity(capacity))
    }

    /// Appends `id`, zero standing for none.
    pub fn push(&mut self, id: Option<DeduplicationId>)
        ensures
            final(self).view() == old(self).view().push(serialized_id(id)),
    {
        let v: u16 = match id {
            Some(d) => d.get(),
            None => 0,
        };
        self.0.push(v);
    }

    /// The serialized ids.
    pub fn as_slice(&self) -> (r: &[u16])
        ensures
            r@ == self.view(),
    {
        self.0.as_slice()
    }
}

} // verus!
