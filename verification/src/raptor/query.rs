//! Queries: where from, where to, and when.

use vstd::prelude::*;

use crate::network::{Coordinate, Date, StopIdx, Time, Timetable, stop_ok};

verus! {

/// An end of a query: one stop, any of several stops, or a coordinate.
pub enum QueryLocation {
    Stop(StopIdx),
    Stops(Vec<StopIdx>),
    Coordinate(Coordinate),
}

/// A place in an itinerary: a stop or a coordinate.
#[derive(Debug, Clone, Copy, PartialEq, Eq, Structural)]
pub enum Location {
    Stop(StopIdx),
    Coordinate(Coordinate),
}

impl QueryLocation {
    /// The stops of the location lie in the network.
    pub open spec fn wf(&self, t: &Timetable) -> bool {
        match self {
            QueryLocation::Stop(s) => stop_ok(t, *s),
            QueryLocation::Stops(v) => forall|k: int| 0 <= k < v@.len() ==> stop_ok(t, #[trigger] v@[k]),
            QueryLocation::Coordinate(_) => true,
        }
    }

    pub open spec fn spec_resolve(&self, stop: StopIdx) -> Location {
        match self {
            QueryLocation::Coordinate(c) => Location::Coordinate(*c),
            _ => Location::Stop(stop),
        }
    }

    /// A search from or to this end may use `stop` as its first or last
    /// stop: the stop itself, one of the stops, or any stop for a
    /// coordinate.
    pub open spec fn reaches(&self, stop: StopIdx) -> bool {
        match self {
            QueryLocation::Stop(s) => stop == *s,
            QueryLocation::Stops(v) => v@.contains(stop),
            QueryLocation::Coordinate(_) => true,
        }
    }

    /// `l` is this end: the stop, one of the stops, or the coordinate.
    pub open spec fn holds(&self, l: Location) -> bool {
        match self {
            QueryLocation::Stop(s) => l == Location::Stop(*s),
            QueryLocation::Stops(v) => exists|k: int| 0 <= k < v@.len() && l == Location::Stop(#[trigger] v@[k]),
            QueryLocation::Coordinate(c) => l == Location::Coordinate(*c),
        }
    }

    /// `l` is where an itinerary with this end starts or ends, through
    /// some stop of the network.
    pub open spec fn ends_at(&self, t: &Timetable, l: Location) -> bool {
        exists|s: StopIdx| stop_ok(t, s) && l == #[trigger] self.spec_resolve(s)
    }

    /// Where an itinerary that uses `stop` at this end starts or ends: the
    /// coordinate itself for a coordinate, else the stop.
    pub fn resolve(&self, stop: StopIdx) -> (l: Location)
        ensures
            l == self.spec_resolve(stop),
    {
        match self {
            QueryLocation::Coordinate(c) => Location::Coordinate(*c),
            _ => Location::Stop(stop),
        }
    }
}

/// An itinerary that uses a stop this end reaches starts or ends at this
/// end.
pub proof fn lemma_reaches_holds(end: &QueryLocation, stop: StopIdx)
    requires
        end.reaches(stop),
    ensures
        end.holds(end.spec_resolve(stop)),
{
    if let QueryLocation::Stops(v) = end {
        let k = choose|k: int| 0 <= k < v@.len() && v@[k] == stop;
        assert(end.spec_resolve(stop) == Location::Stop(v@[k]));
    }
}

impl From<Coordinate> for QueryLocation {
    fn from(value: Coordinate) -> (r: QueryLocation) {
        QueryLocation::Coordinate(value)
    }
}

impl vstd::std_specs::convert::FromSpecImpl<Coordinate> for QueryLocation {
    open spec fn obeys_from_spec() -> bool {
        true
    }

    open spec fn from_spec(v: Coordinate) -> QueryLocation {
        QueryLocation::Coordinate(v)
    }
}

impl From<StopIdx> for QueryLocation {
    fn from(value: StopIdx) -> (r: QueryLocation) {
        QueryLocation::Stop(value)
    }
}

impl vstd::std_specs::convert::FromSpecImpl<StopIdx> for QueryLocation {
    open spec fn obeys_from_spec() -> bool {
        true
    }

    open spec fn from_spec(v: StopIdx) -> QueryLocation {
        QueryLocation::Stop(v)
    }
}

impl From<Vec<StopIdx>> for QueryLocation {
    fn from(value: Vec<StopIdx>) -> (r: QueryLocation) {
        QueryLocation::Stops(value)
    }
}

impl vstd::std_specs::convert::FromSpecImpl<Vec<StopIdx>> for QueryLocation {
    open spec fn obeys_from_spec() -> bool {
        true
    }

    open spec fn from_spec(v: Vec<StopIdx>) -> QueryLocation {
        QueryLocation::Stops(v)
    }
}

impl From<Coordinate> for Location {
    fn from(value: Coordinate) -> (r: Location) {
        Location::Coordinate(value)
    }
}

impl vstd::std_specs::convert::FromSpecImpl<Coordinate> for Location {
    open spec fn obeys_from_spec() -> bool {
        true
    }

    open spec fn from_spec(v: Coordinate) -> Location {
        Location::Coordinate(v)
    }
}

impl From<StopIdx> for Location {
    fn from(value: StopIdx) -> (r: Location) {
        Location::Stop(value)
    }
}

impl vstd::std_specs::convert::FromSpecImpl<StopIdx> for Location {
    open spec fn obeys_from_spec() -> bool {
        true
    }

    open spec fn from_spec(v: StopIdx) -> Location {
        Location::Stop(v)
    }
}

/// Whether the query fixes the time of departure or the time of arrival.
#[derive(Debug, Clone, Copy, PartialEq, Eq, Structural)]
pub enum TimeDirection {
    Arrival(Time),
    Departure(Time),
}

/// A routing request. Penalties weigh each second of riding, transferring
/// and walking, in thousandths (1000 counts a second once).
pub struct RaptorQuery {
    pub origin: QueryLocation,
    pub destination: QueryLocation,
    pub time_direction: TimeDirection,
    pub date: Date,
    /// The radius, in metres, around a coordinate or stop within which
    /// walking is considered.
    pub search_radius: u32,
    pub transit_penalty: u32,
    pub transfer_penalty: u32,
    pub walk_penalty: u32,
}

/// Integer division rounding toward zero, as Rust's `/` on signed integers.
pub open spec fn div_toward_zero(a: int, b: int) -> int {
    if a >= 0 {
        a / b
    } else {
        -((-a) / b)
    }
}

/// The number of seconds in a day.
pub const SECONDS_PER_DAY: i64 = 86_400;

/// `std::time::UNIX_EPOCH.elapsed()`: the time the system clock reads, as
/// whole seconds since the unix epoch; `None` where the clock reads a time
/// before the epoch (`elapsed` then returns an error). What the clock reads
/// is not stated.
#[verifier::external_body]
fn unix_now() -> (now: Option<u64>) {
    match std::time::UNIX_EPOCH.elapsed() {
        Ok(elapsed) => Some(elapsed.as_secs()),
        Err(_) => None,
    }
}

/// The clock reading `unix_now` gave, as the time of day in seconds since
/// midnight (UTC) and the seconds since the epoch; a clock that reads before
/// the epoch, or beyond what an `i64` holds, counts as the epoch itself.
pub open spec fn clock_reading(now: Option<u64>) -> (u32, i64) {
    match now {
        Some(secs) if secs <= i64::MAX => ((secs % 86_400) as u32, secs as i64),
        _ => (0, 0),
    }
}

impl RaptorQuery {
    pub open spec fn wf(&self, t: &Timetable) -> bool {
        self.origin.wf(t) && self.destination.wf(t)
    }

    pub open spec fn is_arrival(&self) -> bool {
        self.time_direction is Arrival
    }

    /// Where the search starts: the origin forward, the destination backward.
    pub open spec fn start(&self) -> QueryLocation {
        if self.is_arrival() {
            self.destination
        } else {
            self.origin
        }
    }

    /// Where the search is headed: the destination forward, the origin
    /// backward.
    pub open spec fn target(&self) -> QueryLocation {
        if self.is_arrival() {
            self.origin
        } else {
            self.destination
        }
    }

    /// A query that departs now, as the system clock reads it (see
    /// [`RaptorQuery::departing_at`] and [`clock_reading`]): at the UTC time
    /// of day of the reading, on the day it falls in. What the clock reads
    /// is not stated.
    pub fn new(origin: QueryLocation, destination: QueryLocation) -> (q: RaptorQuery)
        ensures
            q.origin == origin,
            q.destination == destination,
            q.time_direction matches TimeDirection::Departure(t) && t.0 < SECONDS_PER_DAY,
            exists|now: Option<u64>|
                q.time_direction == TimeDirection::Departure(Time((#[trigger] clock_reading(now)).0)) && q.date == Date(
                    div_toward_zero(clock_reading(now).1 as int, SECONDS_PER_DAY as int) as u32,
                ),
            q.search_radius == 1000,
            q.transit_penalty == 1000,
            q.transfer_penalty == 1500,
            q.walk_penalty == 2000,
    {
        let now = unix_now();
        let (seconds_from_midnight, timestamp): (u32, i64) = match now {
            Some(secs) => {
                if secs <= 9_223_372_036_854_775_807u64 {
                    ((secs % 86_400) as u32, secs as i64)
                } else {
                    (0, 0)
                }
            },
            None => (0, 0),
        };
        proof {
            assert((seconds_from_midnight, timestamp) == clock_reading(now));
        }
        Self::departing_at(origin, destination, seconds_from_midnight, timestamp)
    }

    /// A query that departs at `now_seconds_from_midnight`, the time
    /// of day, on the date whose whole days since the unix epoch
    /// `now_timestamp` (in seconds) counts. Walking is considered within
    /// 1000 metres; riding counts 1, transferring 1.5 and walking 2 per
    /// second.
    pub fn departing_at(
        origin: QueryLocation,
        destination: QueryLocation,
        now_seconds_from_midnight: u32,
        now_timestamp: i64,
    ) -> (q: RaptorQuery)
        ensures
            q.origin == origin,
            q.destination == destination,
            q.time_direction == TimeDirection::Departure(Time(now_seconds_from_midnight)),
            q.date == Date(div_toward_zero(now_timestamp as int, SECONDS_PER_DAY as int) as u32),
            q.search_radius == 1000,
            q.transit_penalty == 1000,
            q.transfer_penalty == 1500,
            q.walk_penalty == 2000,
    {
        let days_since_epoch = now_timestamp / SECONDS_PER_DAY;
        RaptorQuery {
            origin,
            destination,
            time_direction: TimeDirection::Departure(Time(now_seconds_from_midnight)),
            search_radius: 1000,
            date: Date(days_since_epoch as u32),
            transit_penalty: 1000,
            transfer_penalty: 1500,
            walk_penalty: 2000,
        }
    }

    pub fn with_arrival(self, arrival: Time) -> (q: RaptorQuery)
        ensures
            q == (RaptorQuery { time_direction: TimeDirection::Arrival(arrival), ..self }),
    {
        let mut q = self;
        q.time_direction = TimeDirection::Arrival(arrival);
        q
    }

    pub fn with_departure(self, departure: Time) -> (q: RaptorQuery)
        ensures
            q == (RaptorQuery { time_direction: TimeDirection::Departure(departure), ..self }),
    {
        let mut q = self;
        q.time_direction = TimeDirection::Departure(departure);
        q
    }

    pub fn with_date(self, date: Date) -> (q: RaptorQuery)
        ensures
            q == (RaptorQuery { date, ..self }),
    {
        let mut q = self;
        q.date = date;
        q
    }
}

} // verus!
