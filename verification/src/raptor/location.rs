//! A point of the network: a stop or a coordinate.

use vstd::prelude::*;

use crate::network::Coordinate;

verus! {

/// A stop, by index, or a coordinate.
#[derive(Debug, Clone, Copy, PartialEq, Eq, Structural)]
pub enum Point {
    Coordinate(Coordinate),
    Stop(u32),
}

impl From<u32> for Point {
    fn from(value: u32) -> (r: Point) {
        Point::Stop(value)
    }
}

impl vstd::std_specs::convert::FromSpecImpl<u32> for Point {
    open spec fn obeys_from_spec() -> bool {
        true
    }

    open spec fn from_spec(v: u32) -> Point {
        Point::Stop(v)
    }
}

impl From<Coordinate> for Point {
    fn from(value: Coordinate) -> (r: Point) {
        Point::Coordinate(value)
    }
}

impl vstd::std_specs::convert::FromSpecImpl<Coordinate> for Point {
    open spec fn obeys_from_spec() -> bool {
        true
    }

    open spec fn from_spec(v: Coordinate) -> Point {
        Point::Coordinate(v)
    }
}

} // verus!
