//! The compiled transit network, held as plain values.
//!
//! Every relation of the network is an index into one of the vectors of
//! [`Timetable`]; `Timetable::wf` states that all of them are in range and that
//! each trip has one stop time per stop of its trip pattern.

use vstd::prelude::*;

verus! {

/// Seconds since the start of the service day (may exceed 24 hours).
#[derive(Debug, Clone, Copy, PartialEq, Eq, Structural)]
pub struct Time(pub u32);

/// A span of seconds.
#[derive(Debug, Clone, Copy, PartialEq, Eq, Structural)]
pub struct Duration(pub u32);

/// A signed difference between an actual and a scheduled time, in seconds.
#[derive(Debug, Clone, Copy, PartialEq, Eq, Structural)]
pub struct Delay(pub i16);

/// Days since the unix epoch.
#[derive(Debug, Clone, Copy, PartialEq, Eq, Structural)]
pub struct Date(pub u32);

/// Index of a stop in [`Timetable::stops`].
#[derive(Debug, Clone, Copy, PartialEq, Eq, Structural)]
pub struct StopIdx(pub u32);

/// Index of a trip in [`Timetable::trips`].
#[derive(Debug, Clone, Copy, PartialEq, Eq, Structural)]
pub struct TripIdx(pub u32);

/// Index of a trip pattern in [`Timetable::trip_patterns`].
#[derive(Debug, Clone, Copy, PartialEq, Eq, Structural)]
pub struct TripPatternIdx(pub u32);

/// Index of a service in [`Timetable::services`].
#[derive(Debug, Clone, Copy, PartialEq, Eq, Structural)]
pub struct ServiceIdx(pub u32);

/// A geographic point, in units of 10^-7 degrees.
#[derive(Debug, Clone, Copy, PartialEq, Eq, Structural)]
pub struct Coordinate {
    pub latitude: i32,
    pub longitude: i32,
}

impl StopIdx {
    pub fn as_usize(&self) -> (r: usize)
        ensures
            r == self.0,
    {
        self.0 as usize
    }
}

impl TripIdx {
    pub fn as_usize(&self) -> (r: usize)
        ensures
            r == self.0,
    {
        self.0 as usize
    }
}

impl TripPatternIdx {
    pub fn as_usize(&self) -> (r: usize)
        ensures
            r == self.0,
    {
        self.0 as usize
    }
}

impl ServiceIdx {
    pub fn as_usize(&self) -> (r: usize)
        ensures
            r == self.0,
    {
        self.0 as usize
    }
}

/// The scheduled times of one trip at one stop of its pattern.
#[derive(Debug, Clone, Copy)]
pub struct StopTime {
    pub arrival_time: Option<Time>,
    pub departure_time: Option<Time>,
    /// The distance travelled along the trip's shape, carried through as the
    /// IEEE-754 bit pattern that the compiled network stores.
    pub distance_traveled: Option<u32>,
}

/// A stop, with the relations that the search reads from it.
pub struct Stop {
    pub coordinate: Option<Coordinate>,
    /// The number of trips that call at this stop.
    pub trip_count: usize,
    /// The trip patterns that visit this stop.
    pub trip_patterns: Vec<TripPatternIdx>,
    /// Indices into [`Timetable::transfers`] of the transfers leaving this stop.
    pub transfers_out: Vec<usize>,
    /// Indices into [`Timetable::transfers`] of the transfers arriving at this stop.
    pub transfers_in: Vec<usize>,
}

/// A trip: one run of a vehicle along its trip pattern.
pub struct Trip {
    pub service: ServiceIdx,
    pub pattern: TripPatternIdx,
    /// One entry per stop of the pattern, in sequence order.
    pub stop_times: Vec<StopTime>,
}

/// A sequence of stops shared by a set of trips.
pub struct TripPattern {
    pub stops: Vec<StopIdx>,
    pub trips: Vec<TripIdx>,
}

/// The days on which a service runs: a window of dates and one bit per day of
/// it in [`Timetable::active_mask`], starting at bit `mask_start`
/// (most significant bit of each byte first).
#[derive(Debug, Clone, Copy)]
pub struct Service {
    pub start_date: Date,
    pub end_date: Date,
    pub mask_start: u32,
}

/// A transfer between two stops.
#[derive(Debug, Clone, Copy)]
pub struct Transfer {
    pub from_stop: StopIdx,
    pub to_stop: StopIdx,
    pub min_transfer_time: Option<Duration>,
    /// The walking time between the two stops, where both have a coordinate.
    pub walk_time: Option<Duration>,
}

/// The whole network.
pub struct Timetable {
    pub stops: Vec<Stop>,
    pub trips: Vec<Trip>,
    pub trip_patterns: Vec<TripPattern>,
    pub services: Vec<Service>,
    pub active_mask: Vec<u8>,
    pub transfers: Vec<Transfer>,
}

pub open spec fn stop_ok(t: &Timetable, s: StopIdx) -> bool {
    s.0 < t.stops@.len()
}

pub open spec fn trip_ok(t: &Timetable, trip: TripIdx) -> bool {
    trip.0 < t.trips@.len()
}

pub open spec fn pattern_ok(t: &Timetable, p: TripPatternIdx) -> bool {
    p.0 < t.trip_patterns@.len()
}

impl Timetable {
    /// The number of stops in the pattern of a trip.
    pub open spec fn trip_len(&self, trip: TripIdx) -> int {
        self.trips@[trip.0 as int].stop_times@.len() as int
    }

    pub open spec fn stop_wf(&self, i: int) -> bool {
        let s = self.stops@[i];
        &&& forall|k: int|
            0 <= k < s.trip_patterns@.len() ==> pattern_ok(self, #[trigger] s.trip_patterns@[k])
        &&& forall|k: int|
            0 <= k < s.transfers_out@.len() ==> {
                let x = #[trigger] s.transfers_out@[k];
                &&& x < self.transfers@.len()
                &&& self.transfers@[x as int].from_stop.0 == i
            }
        &&& forall|k: int|
            0 <= k < s.transfers_in@.len() ==> {
                let x = #[trigger] s.transfers_in@[k];
                &&& x < self.transfers@.len()
                &&& self.transfers@[x as int].to_stop.0 == i
            }
    }

    pub open spec fn trip_wf(&self, i: int) -> bool {
        let t = self.trips@[i];
        &&& t.service.0 < self.services@.len()
        &&& pattern_ok(self, t.pattern)
        &&& t.stop_times@.len() == self.trip_patterns@[t.pattern.0 as int].stops@.len()
    }

    pub open spec fn pattern_wf(&self, i: int) -> bool {
        let p = self.trip_patterns@[i];
        &&& p.stops@.len() < u32::MAX
        &&& forall|k: int| 0 <= k < p.stops@.len() ==> stop_ok(self, #[trigger] p.stops@[k])
        &&& forall|k: int|
            0 <= k < p.trips@.len() ==> {
                let trip = #[trigger] p.trips@[k];
                &&& trip_ok(self, trip)
                &&& self.trips@[trip.0 as int].pattern.0 == i
            }
    }

    pub open spec fn service_wf(&self, i: int) -> bool {
        let s = self.services@[i];
        s.start_date.0 <= s.end_date.0 ==> {
            &&& s.mask_start + (s.end_date.0 - s.start_date.0) <= u32::MAX
            &&& (s.mask_start + (s.end_date.0 - s.start_date.0)) / 8 < self.active_mask@.len()
        }
    }

    pub open spec fn transfer_wf(&self, i: int) -> bool {
        let x = self.transfers@[i];
        stop_ok(self, x.from_stop) && stop_ok(self, x.to_stop)
    }

    /// Every index of the network is in range, every trip has one stop time
    /// per stop of its pattern, and each service's days lie in the mask.
    pub open spec fn wf(&self) -> bool {
        &&& self.stops@.len() < u32::MAX
        &&& self.trips@.len() < u32::MAX
        &&& self.trip_patterns@.len() < u32::MAX
        &&& forall|i: int| 0 <= i < self.stops@.len() ==> #[trigger] self.stop_wf(i)
        &&& forall|i: int| 0 <= i < self.trips@.len() ==> #[trigger] self.trip_wf(i)
        &&& forall|i: int| 0 <= i < self.trip_patterns@.len() ==> #[trigger] self.pattern_wf(i)
        &&& forall|i: int| 0 <= i < self.services@.len() ==> #[trigger] self.service_wf(i)
        &&& forall|i: int| 0 <= i < self.transfers@.len() ==> #[trigger] self.transfer_wf(i)
    }

    /// Whether the service runs on `date`: the date lies in the service's
    /// window and the service's bit for that day is set.
    pub open spec fn spec_service_active(&self, service: ServiceIdx, date: Date) -> bool {
        let s = self.services@[service.0 as int];
        if date.0 < s.start_date.0 || date.0 > s.end_date.0 {
            false
        } else {
            let bit = s.mask_start + (date.0 - s.start_date.0);
            self.active_mask@[bit / 8] & (1u8 << ((7 - bit % 8) as u8)) != 0
        }
    }

    pub fn is_service_active(&self, service: ServiceIdx, date: Date) -> (r: bool)
        requires
            self.wf(),
            service.0 < self.services@.len(),
        ensures
            r == self.spec_service_active(service, date),
    {
        let s = self.services[service.as_usize()];
        if date.0 < s.start_date.0 || date.0 > s.end_date.0 {
            return false;
        }
        assert(self.service_wf(service.0 as int));
        let day_offset = date.0 - s.start_date.0;
        let bit_idx = s.mask_start + day_offset;
        let byte_idx = (bit_idx / 8) as usize;
        let bit_offset = (7 - (bit_idx % 8)) as u8;
        (self.active_mask[byte_idx] & (1u8 << bit_offset)) != 0
    }

    /// The stop at position `p` of a trip pattern.
    pub fn pattern_stop(&self, pattern: TripPatternIdx, p: usize) -> (r: StopIdx)
        requires
            self.wf(),
            pattern_ok(self, pattern),
            p < self.trip_patterns@[pattern.0 as int].stops@.len(),
        ensures
            r == self.trip_patterns@[pattern.0 as int].stops@[p as int],
            stop_ok(self, r),
    {
        assert(self.pattern_wf(pattern.0 as int));
        self.trip_patterns[pattern.as_usize()].stops[p]
    }
}

impl Timetable {
    fn check_stop(&self, i: usize) -> (r: bool)
        requires
            i < self.stops@.len(),
        ensures
            r == self.stop_wf(i as int),
    {
        let s = &self.stops[i];
        let mut k: usize = 0;
        while k < s.trip_patterns.len()
            invariant
                s == &self.stops@[i as int],
                k <= s.trip_patterns@.len(),
                forall|j: int| 0 <= j < k ==> pattern_ok(self, #[trigger] s.trip_patterns@[j]),
            decreases s.trip_patterns@.len() - k,
        {
            if s.trip_patterns[k].as_usize() >= self.trip_patterns.len() {
                return false;
            }
            k += 1;
        }
        let mut k: usize = 0;
        while k < s.transfers_out.len()
            invariant
                s == &self.stops@[i as int],
                k <= s.transfers_out@.len(),
                forall|j: int|
                    0 <= j < k ==> {
                        let x = #[trigger] s.transfers_out@[j];
                        &&& x < self.transfers@.len()
                        &&& self.transfers@[x as int].from_stop.0 == i
                    },
            decreases s.transfers_out@.len() - k,
        {
            let x = s.transfers_out[k];
            if x >= self.transfers.len() || self.transfers[x].from_stop.as_usize() != i {
                return false;
            }
            k += 1;
        }
        let mut k: usize = 0;
        while k < s.transfers_in.len()
            invariant
                s == &self.stops@[i as int],
                k <= s.transfers_in@.len(),
                forall|j: int|
                    0 <= j < k ==> {
                        let x = #[trigger] s.transfers_in@[j];
                        &&& x < self.transfers@.len()
                        &&& self.transfers@[x as int].to_stop.0 == i
                    },
            decreases s.transfers_in@.len() - k,
        {
            let x = s.transfers_in[k];
            if x >= self.transfers.len() || self.transfers[x].to_stop.as_usize() != i {
                return false;
            }
            k += 1;
        }
        true
    }

    fn check_trip(&self, i: usize) -> (r: bool)
        requires
            i < self.trips@.len(),
        ensures
            r == self.trip_wf(i as int),
    {
        let t = &self.trips[i];
        t.service.as_usize() < self.services.len() && t.pattern.as_usize() < self.trip_patterns.len()
            && t.stop_times.len() == self.trip_patterns[t.pattern.as_usize()].stops.len()
    }

    fn check_pattern(&self, i: usize) -> (r: bool)
        requires
            i < self.trip_patterns@.len(),
        ensures
            r == self.pattern_wf(i as int),
    {
        let p = &self.trip_patterns[i];
        if p.stops.len() >= 4294967295usize {
            return false;
        }
        let mut k: usize = 0;
        while k < p.stops.len()
            invariant
                p == &self.trip_patterns@[i as int],
                k <= p.stops@.len(),
                forall|j: int| 0 <= j < k ==> stop_ok(self, #[trigger] p.stops@[j]),
            decreases p.stops@.len() - k,
        {
            if p.stops[k].as_usize() >= self.stops.len() {
                return false;
            }
            k += 1;
        }
        let mut k: usize = 0;
        while k < p.trips.len()
            invariant
                p == &self.trip_patterns@[i as int],
                k <= p.trips@.len(),
                forall|j: int|
                    0 <= j < k ==> {
                        let trip = #[trigger] p.trips@[j];
                        &&& trip_ok(self, trip)
                        &&& self.trips@[trip.0 as int].pattern.0 == i
                    },
            decreases p.trips@.len() - k,
        {
            let trip = p.trips[k];
            if trip.as_usize() >= self.trips.len() || self.trips[trip.as_usize()].pattern.as_usize() != i {
                return false;
            }
            k += 1;
        }
        true
    }

    fn check_service(&self, i: usize) -> (r: bool)
        requires
            i < self.services@.len(),
        ensures
            r == self.service_wf(i as int),
    {
        let s = self.services[i];
        if s.start_date.0 <= s.end_date.0 {
            let last = s.mask_start as u64 + (s.end_date.0 - s.start_date.0) as u64;
            last <= 4294967295u64 && ((last / 8) as usize) < self.active_mask.len()
        } else {
            true
        }
    }

    /// Decides [`Timetable::wf`].
    pub fn is_well_formed(&self) -> (r: bool)
        ensures
            r == self.wf(),
    {
        if self.stops.len() >= 4294967295usize || self.trips.len() >= 4294967295usize
            || self.trip_patterns.len() >= 4294967295usize {
            return false;
        }
        let mut i: usize = 0;
        while i < self.stops.len()
            invariant
                i <= self.stops@.len(),
                forall|j: int| 0 <= j < i ==> #[trigger] self.stop_wf(j),
            decreases self.stops@.len() - i,
        {
            if !self.check_stop(i) {
                return false;
            }
            i += 1;
        }
        let mut i: usize = 0;
        while i < self.trips.len()
            invariant
                i <= self.trips@.len(),
                forall|j: int| 0 <= j < i ==> #[trigger] self.trip_wf(j),
            decreases self.trips@.len() - i,
        {
            if !self.check_trip(i) {
                return false;
            }
            i += 1;
        }
        let mut i: usize = 0;
        while i < self.trip_patterns.len()
            invariant
                i <= self.trip_patterns@.len(),
                forall|j: int| 0 <= j < i ==> #[trigger] self.pattern_wf(j),
            decreases self.trip_patterns@.len() - i,
        {
            if !self.check_pattern(i) {
                return false;
            }
            i += 1;
        }
        let mut i: usize = 0;
        while i < self.services.len()
            invariant
                i <= self.services@.len(),
                forall|j: int| 0 <= j < i ==> #[trigger] self.service_wf(j),
            decreases self.services@.len() - i,
        {
            if !self.check_service(i) {
                return false;
            }
            i += 1;
        }
        let mut i: usize = 0;
        while i < self.transfers.len()
            invariant
                i <= self.transfers@.len(),
                forall|j: int| 0 <= j < i ==> #[trigger] self.transfer_wf(j),
            decreases self.transfers@.len() - i,
        {
            let x = self.transfers[i];
            if x.from_stop.as_usize() >= self.stops.len() || x.to_stop.as_usize() >= self.stops.len() {
                assert(!self.transfer_wf(i as int));
                return false;
            }
            i += 1;
        }
        true
    }
}

} // verus!
