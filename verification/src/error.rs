//! The errors of query solving.
use vstd::prelude::*;

verus! {

/// A position in the operation's text.
#[derive(Clone, Copy, Debug, PartialEq, Eq)]
pub struct Location {
    pub line: u16,
    pub column: u16,
}

/// Why a query could not be solved.
#[derive(Clone, Debug)]
pub enum Error {
    /// The requirement weights never settled: requirements depend on each other in a cycle.
    RequirementCycleDetected,
    CouldNotPlanField { name: String },
    InconsistentFieldArguments { name: String, location1: Location, location2: Location },
    InternalError,
}

} // verus!
