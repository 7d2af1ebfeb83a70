//! A time-windowed vehicle-routing solver: visits are assigned to visitors
//! for one service date, ordered within each visitor's route, and scheduled
//! through the visitor's availability segments, honouring capability sets,
//! pins and customer-committed windows while minimising a composite cost.

pub mod traits;
pub mod solver;
pub mod schedule;
pub mod geo;
pub mod availability;
pub mod manhattan;
pub mod table;
pub mod polyline;
pub mod osrm;
pub mod osrm_data;

use vstd::prelude::*;

verus! {

/// Upper bound, in seconds, on every time quantity the solver works with
/// (durations, window bounds, availability segments, matrix entries,
/// cost weights). Keeping all inputs under this bound lets the solver do
/// its time and cost arithmetic in `u64` without overflow.
pub const MAX_TIME: u32 = 1048576;

} // verus!
