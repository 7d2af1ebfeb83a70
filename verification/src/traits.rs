//! Core domain types and provider contracts for the routing planner.
//!
//! The solver is polymorphic over an availability provider and a distance
//! matrix provider; both are modelled as traits whose executable methods are
//! pinned to a spec-level function, so every caller may rely on the provider
//! answering the same question the same way within one solve.

use vstd::prelude::*;

verus! {

/// Pin type for routing constraints.
#[derive(Debug, Clone, Copy, PartialEq, Eq, Structural)]
pub enum VisitPinType {
    Unpinned,
    Visitor,
    Date,
    VisitorAndDate,
}

/// Reason why a visit could not be assigned.
#[derive(Debug, Clone, Copy, PartialEq, Eq, Structural)]
pub enum UnassignedReason {
    /// Visit is pinned to a date that doesn't match the service date.
    WrongDate,
    /// Visit is pinned to a visitor but no pinned_visitor was provided.
    MissingPinnedVisitor,
    /// No visitor has the required capabilities.
    NoCapableVisitor,
    /// No feasible time window could be found (availability or committed
    /// window conflict), or the pinned visitor cannot take the visit.
    NoFeasibleWindow,
}

/// A visit is a single service occurrence to be routed.
///
/// Locations are canonical integer coordinate keys: latitude and longitude
/// rounded to six fractional digits and scaled by one million. All times are
/// non-negative seconds from local midnight; dates are opaque integer day
/// identifiers compared only for equality.
#[derive(Debug)]
pub struct Visit {
    pub id: String,
    /// Canonical (lat, lng) key in microdegrees.
    pub location: (i64, i64),
    /// Service duration in seconds, > 0.
    pub duration_seconds: u32,
    pub pin_type: VisitPinType,
    pub pinned_visitor: Option<String>,
    pub pinned_date: Option<i64>,
    /// Committed window (start, end) in seconds of day, start <= end.
    pub committed_window: Option<(u32, u32)>,
    /// Soft preferred start time in seconds of day.
    pub target_time: Option<u32>,
    /// Capability tags the assigned visitor must all have.
    pub required_capabilities: Vec<String>,
    /// Prior assignment, charged a stability penalty when changed.
    pub current_visitor: Option<String>,
}

/// The worker/vehicle that performs visits.
#[derive(Debug)]
pub struct Visitor {
    pub id: String,
    /// Canonical (lat, lng) key in microdegrees, if the visitor has a depot.
    pub start_location: Option<(i64, i64)>,
    /// Reserved; not charged in cost by this solver.
    pub end_location: Option<(i64, i64)>,
    pub capabilities: Vec<String>,
}

/// Identifier-like types: cloneable, comparable, hashable. The solver
/// itself keys everything by plain strings; this marker describes what
/// an application's own identifier types should offer.
pub trait Id: Clone + Eq + core::hash::Hash {

}

impl<T: Clone + Eq + core::hash::Hash> Id for T {

}

/// A route plan is a container for a visitor on a specific date, as an
/// application would store one.
pub trait RoutePlan {
    type Id;

    type VisitorId;

    fn id(&self) -> &Self::Id;

    fn visitor_id(&self) -> &Self::VisitorId;

    fn service_date(&self) -> i64;
}

/// Provides availability segments for a visitor on a given date.
///
/// `None` means the visitor does not work that day; `Some(segments)` is an
/// ordered sequence of disjoint `(open, close)` second-of-day intervals.
/// The executable method is pinned to the provider's own spec function, so
/// repeated queries within a solve agree.
pub trait AvailabilityProvider {
    spec fn spec_availability(&self, visitor_id: Seq<char>, date: int) -> Option<Seq<(u32, u32)>>;

    fn availability_for(&self, visitor_id: &String, date: i64) -> (r: Option<Vec<(u32, u32)>>)
        ensures
            (match r {
                Some(v) => self.spec_availability(visitor_id@, date as int) == Some(v@),
                None => self.spec_availability(visitor_id@, date as int) is None,
            }),
    ;
}

/// Provides a travel-duration matrix, in whole seconds, for a list of
/// canonical coordinate keys. Rows and columns align with the input order.
///
/// `matrix_pre` lets a provider state which coordinate lists it accepts
/// (a bound on coordinate magnitude, say); `spec_matrix_for` pins the
/// answer, making the provider deterministic within a solve.
/// The rows of a vector-of-vectors matrix as a sequence of sequences.
pub open spec fn mat_view(m: Seq<Vec<u32>>) -> Seq<Seq<u32>> {
    m.map_values(|row: Vec<u32>| row@)
}

pub trait DistanceMatrixProvider {
    spec fn matrix_pre(&self, locations: Seq<(i64, i64)>) -> bool;

    spec fn spec_matrix_for(&self, locations: Seq<(i64, i64)>) -> Seq<Seq<u32>>;

    fn matrix_for(&self, locations: &Vec<(i64, i64)>) -> (m: Vec<Vec<u32>>)
        requires
            self.matrix_pre(locations@),
        ensures
            mat_view(m@) == self.spec_matrix_for(locations@),
            m@.len() == locations@.len(),
            forall|i: int| 0 <= i < m@.len() ==> (#[trigger] m@[i])@.len() == locations@.len(),
    ;
}

} // verus!
