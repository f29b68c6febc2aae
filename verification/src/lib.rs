//! A round-based public transit router (RAPTOR) over a compiled transit network.
//!
//! The network is held as plain vectors (`network::Timetable`); the search keeps
//! Pareto fronts of (time, cost) labels per stop and reconstructs an itinerary
//! from the recorded parents.

pub mod network;
pub mod raptor;
pub mod shared;
pub mod spatial;

use vstd::prelude::*;

verus! {

/// Errors reported by the router.
#[derive(Debug, Clone, Copy, PartialEq, Eq, Structural)]
pub enum Error {
    /// No itinerary reaches the requested destination.
    NoRoute,
}

impl Error {
    /// The human readable message of the error.
    pub fn message(&self) -> (s: String)
        ensures
            s@ == "No route was found"@,
    {
        match self {
            Error::NoRoute => String::from_str("No route was found"),
        }
    }
}

} // verus!
