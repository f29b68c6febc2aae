//! The phases of a round: riding trip patterns, and transferring or walking
//! between stops.

use vstd::prelude::*;

use crate::network::{
    Duration, StopIdx, Time, Timetable, Transfer, TripIdx, TripPatternIdx, pattern_ok, stop_ok,
    trip_ok,
};
use crate::raptor::front::{ParetoLabel, dominated_in};
use crate::raptor::query::RaptorQuery;
use crate::raptor::state::{State, label_of};
use crate::raptor::{
    LiveTime, Parent, SequnceIdx, Update, Walks, add_cost, add_time, cost_add, parent_wf,
    sub_time, time_add, time_sub, walk_list_ok,
};

verus! {

/// The stop time of `trip` at position `p` of its pattern.
pub open spec fn stop_time_of(t: &Timetable, trip: TripIdx, p: int) -> crate::network::StopTime {
    t.trips@[trip.0 as int].stop_times@[p]
}

pub fn get_arrival_time(t: &Timetable, trip_idx: TripIdx, p_idx: SequnceIdx) -> (r: Option<Time>)
    requires
        t.wf(),
        trip_ok(t, trip_idx),
        p_idx.0 < t.trip_len(trip_idx),
    ensures
        r == stop_time_of(t, trip_idx, p_idx.0 as int).arrival_time,
{
    t.trips[trip_idx.as_usize()].stop_times[p_idx.as_usize()].arrival_time
}

pub fn get_departure_time(t: &Timetable, trip_idx: TripIdx, p_idx: SequnceIdx) -> (r: Option<Time>)
    requires
        t.wf(),
        trip_ok(t, trip_idx),
        p_idx.0 < t.trip_len(trip_idx),
    ensures
        r == stop_time_of(t, trip_idx, p_idx.0 as int).departure_time,
{
    t.trips[trip_idx.as_usize()].stop_times[p_idx.as_usize()].departure_time
}

/// Joins two buffers of updates, appending the shorter to the longer.
pub fn merge_buffers<T>(a: Vec<T>, b: Vec<T>) -> (r: Vec<T>)
    ensures
        r@ == (if a@.len() >= b@.len() {
            a@ + b@
        } else {
            b@ + a@
        }),
{
    let mut a = a;
    let mut b = b;
    if a.len() >= b.len() {
        a.append(&mut b);
        a
    } else {
        b.append(&mut a);
        b
    }
}

pub open spec fn spec_transfer_time(x: Transfer) -> u32 {
    let min = match x.min_transfer_time {
        Some(d) => d.0,
        None => 0,
    };
    if min == 0 {
        match x.walk_time {
            Some(w) => w.0,
            None => 0,
        }
    } else {
        min
    }
}

/// The time a transfer takes: its minimum transfer time, or the walking
/// time between its stops where that is absent or zero.
pub fn calculate_transfer_time(x: &Transfer) -> (r: u32)
    ensures
        r == spec_transfer_time(*x),
{
    let mut time = match x.min_transfer_time {
        Some(d) => d.0,
        None => 0,
    };
    if time == 0 {
        if let Some(w) = x.walk_time {
            time = w.0;
        }
    }
    time
}

/// The trip at position `k` of a pattern.
pub open spec fn pattern_trip(t: &Timetable, pattern: TripPatternIdx, k: int) -> TripIdx {
    t.trip_patterns@[pattern.0 as int].trips@[k]
}

/// The trip at position `k` of the pattern runs on `date` and departs from
/// position `p` at or after `ready`.
pub open spec fn boardable(t: &Timetable, date: crate::network::Date, pattern: TripPatternIdx, k: int, p: int, ready: Time) -> bool {
    let trip = pattern_trip(t, pattern, k);
    &&& t.spec_service_active(t.trips@[trip.0 as int].service, date)
    &&& stop_time_of(t, trip, p).departure_time matches Some(d) && d.0 >= ready.0
}

/// The trip at position `k` of the pattern runs on `date` and arrives at
/// position `p` at or before `ready`.
pub open spec fn alightable(t: &Timetable, date: crate::network::Date, pattern: TripPatternIdx, k: int, p: int, ready: Time) -> bool {
    let trip = pattern_trip(t, pattern, k);
    &&& t.spec_service_active(t.trips@[trip.0 as int].service, date)
    &&& stop_time_of(t, trip, p).arrival_time matches Some(a) && a.0 <= ready.0
}

pub open spec fn dep_at(t: &Timetable, pattern: TripPatternIdx, k: int, p: int) -> u32 {
    stop_time_of(t, pattern_trip(t, pattern, k), p).departure_time.unwrap().0
}

pub open spec fn arr_at(t: &Timetable, pattern: TripPatternIdx, k: int, p: int) -> u32 {
    stop_time_of(t, pattern_trip(t, pattern, k), p).arrival_time.unwrap().0
}

/// `trip` is the trip of the pattern, running on `date`, that departs
/// position `p` at or after `ready` the earliest, the first of the pattern's
/// trips where several depart at that time.
pub open spec fn earliest_catch(t: &Timetable, date: crate::network::Date, pattern: TripPatternIdx, p: int, ready: Time, trip: TripIdx) -> bool {
    let n = t.trip_patterns@[pattern.0 as int].trips@.len();
    exists|k: int|
        #![trigger pattern_trip(t, pattern, k)]
        0 <= k < n && pattern_trip(t, pattern, k) == trip && boardable(t, date, pattern, k, p, ready)
            && (forall|j: int|
            0 <= j < k && boardable(t, date, pattern, j, p, ready) ==> dep_at(t, pattern, j, p) > dep_at(t, pattern, k, p))
            && (forall|j: int|
            k < j < n && boardable(t, date, pattern, j, p, ready) ==> dep_at(t, pattern, j, p) >= dep_at(t, pattern, k, p))
}

/// `trip` is the trip of the pattern, running on `date`, that arrives at
/// position `p` at or before `ready` the latest, the last of the pattern's
/// trips where several arrive at that time.
pub open spec fn latest_reach(t: &Timetable, date: crate::network::Date, pattern: TripPatternIdx, p: int, ready: Time, trip: TripIdx) -> bool {
    let n = t.trip_patterns@[pattern.0 as int].trips@.len();
    exists|k: int|
        #![trigger pattern_trip(t, pattern, k)]
        0 <= k < n && pattern_trip(t, pattern, k) == trip && alightable(t, date, pattern, k, p, ready)
            && (forall|j: int|
            0 <= j < k && alightable(t, date, pattern, j, p, ready) ==> arr_at(t, pattern, j, p) <= arr_at(t, pattern, k, p))
            && (forall|j: int|
            k < j < n && alightable(t, date, pattern, j, p, ready) ==> arr_at(t, pattern, j, p) < arr_at(t, pattern, k, p))
}

/// Trip `k` of the pattern is the one [`earliest_catch`] describes.
pub open spec fn earliest_at(t: &Timetable, date: crate::network::Date, pattern: TripPatternIdx, p: int, ready: Time, k: int) -> bool {
    let n = t.trip_patterns@[pattern.0 as int].trips@.len();
    &&& 0 <= k < n
    &&& boardable(t, date, pattern, k, p, ready)
    &&& forall|j: int|
        0 <= j < k && boardable(t, date, pattern, j, p, ready) ==> dep_at(t, pattern, j, p) > dep_at(t, pattern, k, p)
    &&& forall|j: int|
        k < j < n && boardable(t, date, pattern, j, p, ready) ==> dep_at(t, pattern, j, p) >= dep_at(t, pattern, k, p)
}

/// Trip `k` of the pattern is the one [`latest_reach`] describes.
pub open spec fn latest_at(t: &Timetable, date: crate::network::Date, pattern: TripPatternIdx, p: int, ready: Time, k: int) -> bool {
    let n = t.trip_patterns@[pattern.0 as int].trips@.len();
    &&& 0 <= k < n
    &&& alightable(t, date, pattern, k, p, ready)
    &&& forall|j: int|
        0 <= j < k && alightable(t, date, pattern, j, p, ready) ==> arr_at(t, pattern, j, p) <= arr_at(t, pattern, k, p)
    &&& forall|j: int|
        k < j < n && alightable(t, date, pattern, j, p, ready) ==> arr_at(t, pattern, j, p) < arr_at(t, pattern, k, p)
}

/// At most one trip is the earliest one to catch.
pub proof fn lemma_earliest_unique(t: &Timetable, date: crate::network::Date, pattern: TripPatternIdx, p: int, ready: Time, a: TripIdx, b: TripIdx)
    requires
        earliest_catch(t, date, pattern, p, ready, a),
        earliest_catch(t, date, pattern, p, ready, b),
    ensures
        a == b,
{
    let ka = choose|k: int| #[trigger] pattern_trip(t, pattern, k) == a && earliest_at(t, date, pattern, p, ready, k);
    let kb = choose|k: int| #[trigger] pattern_trip(t, pattern, k) == b && earliest_at(t, date, pattern, p, ready, k);
    assert(earliest_at(t, date, pattern, p, ready, ka));
    assert(earliest_at(t, date, pattern, p, ready, kb));
}

/// At most one trip is the latest one to reach.
pub proof fn lemma_latest_unique(t: &Timetable, date: crate::network::Date, pattern: TripPatternIdx, p: int, ready: Time, a: TripIdx, b: TripIdx)
    requires
        latest_reach(t, date, pattern, p, ready, a),
        latest_reach(t, date, pattern, p, ready, b),
    ensures
        a == b,
{
    let ka = choose|k: int| #[trigger] pattern_trip(t, pattern, k) == a && latest_at(t, date, pattern, p, ready, k);
    let kb = choose|k: int| #[trigger] pattern_trip(t, pattern, k) == b && latest_at(t, date, pattern, p, ready, k);
    assert(latest_at(t, date, pattern, p, ready, ka));
    assert(latest_at(t, date, pattern, p, ready, kb));
}

/// The trip [`earliest_catch`] describes, if there is one.
pub open spec fn earliest_trip(t: &Timetable, date: crate::network::Date, pattern: TripPatternIdx, p: int, ready: Time) -> Option<TripIdx> {
    if exists|trip: TripIdx| earliest_catch(t, date, pattern, p, ready, trip) {
        Some(choose|trip: TripIdx| earliest_catch(t, date, pattern, p, ready, trip))
    } else {
        None
    }
}

/// The trip [`latest_reach`] describes, if there is one.
pub open spec fn latest_trip(t: &Timetable, date: crate::network::Date, pattern: TripPatternIdx, p: int, ready: Time) -> Option<TripIdx> {
    if exists|trip: TripIdx| latest_reach(t, date, pattern, p, ready, trip) {
        Some(choose|trip: TripIdx| latest_reach(t, date, pattern, p, ready, trip))
    } else {
        None
    }
}

/// The first trip of the pattern that runs on the query's date and departs
/// position `p_idx` at or after `ready_time` with the earliest departure.
pub fn find_earliest_trip(
    t: &Timetable,
    query: &RaptorQuery,
    trip_pattern: TripPatternIdx,
    p_idx: SequnceIdx,
    ready_time: Time,
) -> (r: Option<TripIdx>)
    requires
        t.wf(),
        pattern_ok(t, trip_pattern),
        p_idx.0 < t.trip_patterns@[trip_pattern.0 as int].stops@.len(),
    ensures
        r is None <==> forall|k: int|
            0 <= k < t.trip_patterns@[trip_pattern.0 as int].trips@.len() ==> !boardable(
                t,
                query.date,
                trip_pattern,
                k,
                p_idx.0 as int,
                ready_time,
            ),
        r matches Some(trip) ==> earliest_catch(t, query.date, trip_pattern, p_idx.0 as int, ready_time, trip),
        r == earliest_trip(t, query.date, trip_pattern, p_idx.0 as int, ready_time),
        r matches Some(trip) ==> trip_ok(t, trip) && t.trips@[trip.0 as int].pattern == trip_pattern,
{
    let pat = &t.trip_patterns[trip_pattern.as_usize()];
    let n = pat.trips.len();
    let p = p_idx.0;
    let mut best: Option<(usize, u32)> = None;
    let mut k: usize = 0;
    proof {
        assert(t.pattern_wf(trip_pattern.0 as int));
    }
    while k < n
        invariant
            t.wf(),
            pattern_ok(t, trip_pattern),
            pat == &t.trip_patterns@[trip_pattern.0 as int],
            n == pat.trips@.len(),
            p == p_idx.0,
            p < pat.stops@.len(),
            t.pattern_wf(trip_pattern.0 as int),
            k <= n,
            best is None ==> forall|j: int|
                0 <= j < k ==> !boardable(t, query.date, trip_pattern, j, p as int, ready_time),
            best matches Some(b) ==> {
                &&& b.0 < k
                &&& boardable(t, query.date, trip_pattern, b.0 as int, p as int, ready_time)
                &&& b.1 == dep_at(t, trip_pattern, b.0 as int, p as int)
                &&& forall|j: int|
                    0 <= j < b.0 && boardable(t, query.date, trip_pattern, j, p as int, ready_time)
                        ==> dep_at(t, trip_pattern, j, p as int) > b.1
                &&& forall|j: int|
                    b.0 < j < k && boardable(t, query.date, trip_pattern, j, p as int, ready_time)
                        ==> dep_at(t, trip_pattern, j, p as int) >= b.1
            },
        decreases n - k,
    {
        let trip = pat.trips[k];
        proof {
            assert(trip_ok(t, trip) && t.trips@[trip.0 as int].pattern == trip_pattern);
            assert(t.trip_wf(trip.0 as int));
        }
        let tr = &t.trips[trip.as_usize()];
        if t.is_service_active(tr.service, query.date) {
            if let Some(d) = tr.stop_times[p as usize].departure_time {
                if d.0 >= ready_time.0 {
                    match best {
                        None => {
                            best = Some((k, d.0));
                        },
                        Some(b) => {
                            if d.0 < b.1 {
                                best = Some((k, d.0));
                            }
                        },
                    }
                }
            }
        }
        k += 1;
    }
    proof {
        let d = query.date;
        let pp = p_idx.0 as int;
        if best is None {
            assert forall|trip: TripIdx| !earliest_catch(t, d, trip_pattern, pp, ready_time, trip) by {
                if earliest_catch(t, d, trip_pattern, pp, ready_time, trip) {
                    let k = choose|k: int| #[trigger] pattern_trip(t, trip_pattern, k) == trip && earliest_at(t, d, trip_pattern, pp, ready_time, k);
                    assert(earliest_at(t, d, trip_pattern, pp, ready_time, k));
                }
            }
        } else {
            let b = best.unwrap().0 as int;
            let trip = pattern_trip(t, trip_pattern, b);
            assert(earliest_at(t, d, trip_pattern, pp, ready_time, b));
            assert(earliest_catch(t, d, trip_pattern, pp, ready_time, trip));
            let c = choose|c: TripIdx| earliest_catch(t, d, trip_pattern, pp, ready_time, c);
            lemma_earliest_unique(t, d, trip_pattern, pp, ready_time, trip, c);
        }
    }
    match best {
        None => None,
        Some(b) => {
            proof {
                let trip = pattern_trip(t, trip_pattern, b.0 as int);
                assert(trip_ok(t, trip));
            }
            Some(pat.trips[b.0])
        },
    }
}

/// The last trip of the pattern that runs on the query's date and arrives
/// at position `p_idx` at or before `ready_time` with the latest arrival.
pub fn find_latest_trip(
    t: &Timetable,
    query: &RaptorQuery,
    trip_pattern: TripPatternIdx,
    p_idx: SequnceIdx,
    ready_time: Time,
) -> (r: Option<TripIdx>)
    requires
        t.wf(),
        pattern_ok(t, trip_pattern),
        p_idx.0 < t.trip_patterns@[trip_pattern.0 as int].stops@.len(),
    ensures
        r is None <==> forall|k: int|
            0 <= k < t.trip_patterns@[trip_pattern.0 as int].trips@.len() ==> !alightable(
                t,
                query.date,
                trip_pattern,
                k,
                p_idx.0 as int,
                ready_time,
            ),
        r matches Some(trip) ==> latest_reach(t, query.date, trip_pattern, p_idx.0 as int, ready_time, trip),
        r == latest_trip(t, query.date, trip_pattern, p_idx.0 as int, ready_time),
        r matches Some(trip) ==> trip_ok(t, trip) && t.trips@[trip.0 as int].pattern == trip_pattern,
{
    let pat = &t.trip_patterns[trip_pattern.as_usize()];
    let n = pat.trips.len();
    let p = p_idx.0;
    let mut best: Option<(usize, u32)> = None;
    let mut k: usize = 0;
    proof {
        assert(t.pattern_wf(trip_pattern.0 as int));
    }
    while k < n
        invariant
            t.wf(),
            pattern_ok(t, trip_pattern),
            pat == &t.trip_patterns@[trip_pattern.0 as int],
            n == pat.trips@.len(),
            p == p_idx.0,
            p < pat.stops@.len(),
            t.pattern_wf(trip_pattern.0 as int),
            k <= n,
            best is None ==> forall|j: int|
                0 <= j < k ==> !alightable(t, query.date, trip_pattern, j, p as int, ready_time),
            best matches Some(b) ==> {
                &&& b.0 < k
                &&& alightable(t, query.date, trip_pattern, b.0 as int, p as int, ready_time)
                &&& b.1 == arr_at(t, trip_pattern, b.0 as int, p as int)
                &&& forall|j: int|
                    0 <= j < b.0 && alightable(t, query.date, trip_pattern, j, p as int, ready_time)
                        ==> arr_at(t, trip_pattern, j, p as int) <= b.1
                &&& forall|j: int|
                    b.0 < j < k && alightable(t, query.date, trip_pattern, j, p as int, ready_time)
                        ==> arr_at(t, trip_pattern, j, p as int) < b.1
            },
        decreases n - k,
    {
        let trip = pat.trips[k];
        proof {
            assert(trip_ok(t, trip) && t.trips@[trip.0 as int].pattern == trip_pattern);
            assert(t.trip_wf(trip.0 as int));
        }
        let tr = &t.trips[trip.as_usize()];
        if t.is_service_active(tr.service, query.date) {
            if let Some(a) = tr.stop_times[p as usize].arrival_time {
                if a.0 <= ready_time.0 {
                    match best {
                        None => {
                            best = Some((k, a.0));
                        },
                        Some(b) => {
                            if a.0 >= b.1 {
                                best = Some((k, a.0));
                            }
                        },
                    }
                }
            }
        }
        k += 1;
    }
    proof {
        let d = query.date;
        let pp = p_idx.0 as int;
        if best is None {
            assert forall|trip: TripIdx| !latest_reach(t, d, trip_pattern, pp, ready_time, trip) by {
                if latest_reach(t, d, trip_pattern, pp, ready_time, trip) {
                    let k = choose|k: int| #[trigger] pattern_trip(t, trip_pattern, k) == trip && latest_at(t, d, trip_pattern, pp, ready_time, k);
                    assert(latest_at(t, d, trip_pattern, pp, ready_time, k));
                }
            }
        } else {
            let b = best.unwrap().0 as int;
            let trip = pattern_trip(t, trip_pattern, b);
            assert(latest_at(t, d, trip_pattern, pp, ready_time, b));
            assert(latest_reach(t, d, trip_pattern, pp, ready_time, trip));
            let c = choose|c: TripIdx| latest_reach(t, d, trip_pattern, pp, ready_time, c);
            lemma_latest_unique(t, d, trip_pattern, pp, ready_time, trip, c);
        }
    }
    match best {
        None => None,
        Some(b) => {
            proof {
                let trip = pattern_trip(t, trip_pattern, b.0 as int);
                assert(trip_ok(t, trip));
            }
            Some(pat.trips[b.0])
        },
    }
}

/// An update that the search may offer: its stop and parent lie in the
/// network, and neither the stop's best labels nor the target's dominate it.
pub open spec fn sound_update(state: &State, t: &Timetable, u: Update, is_arrival: bool) -> bool {
    &&& stop_ok(t, u.stop)
    &&& parent_wf(t, u.parent)
    &&& !dominated_in(state.tau_star@[u.stop.0 as int]@, label_of(u), is_arrival)
    &&& !dominated_in(state.target_tau_star@, label_of(u), is_arrival)
}

/// A ride: a trip of the scanned pattern that runs on the query's date,
/// boarded at one position and left at a later one; the update's stop is
/// the stop at the position where the ride reaches it (the alighting
/// position forward, the boarding position backward), and the parent
/// records the ride's scheduled times, `u32::MAX` (forward) or `0`
/// (backward) standing for a missing time.
pub open spec fn ride_update(t: &Timetable, query: &RaptorQuery, pattern: TripPatternIdx, u: Update, is_arrival: bool) -> bool {
    match u.parent {
        Parent::Transit { boarding_p, alighting_p, trip, departure_time, arrival_time } => {
            let missing = if is_arrival { 0u32 } else { u32::MAX };
            let dep = match stop_time_of(t, trip, boarding_p.0 as int).departure_time {
                Some(d) => d,
                None => Time(missing),
            };
            let arr = match stop_time_of(t, trip, alighting_p.0 as int).arrival_time {
                Some(a) => a,
                None => Time(missing),
            };
            &&& t.trips@[trip.0 as int].pattern == pattern
            &&& t.spec_service_active(t.trips@[trip.0 as int].service, query.date)
            &&& boarding_p.0 < alighting_p.0
            &&& departure_time == LiveTime::scheduled_only_spec(dep)
            &&& arrival_time == LiveTime::scheduled_only_spec(arr)
            &&& if is_arrival {
                &&& u.stop == t.trip_patterns@[pattern.0 as int].stops@[boarding_p.0 as int]
                &&& u.time == dep
            } else {
                &&& u.stop == t.trip_patterns@[pattern.0 as int].stops@[alighting_p.0 as int]
                &&& u.time == arr
            }
        },
        _ => false,
    }
}

/// Label `li` of the previous round at the stop at position `p` of the
/// pattern catches `trip` there (forward: the earliest trip departing at or
/// after the label's time; backward: the latest trip arriving at or before
/// it), and `cost` is the label's cost plus the wait, weighted by the
/// transit penalty.
pub open spec fn boarded_with(
    state: &State,
    t: &Timetable,
    query: &RaptorQuery,
    pattern: TripPatternIdx,
    trip: TripIdx,
    p: int,
    cost: u64,
    li: int,
    is_arrival: bool,
) -> bool {
    let stop = t.trip_patterns@[pattern.0 as int].stops@[p];
    let labels = state.previous_labels@[stop.0 as int]@;
    let l = labels[li];
    &&& 0 <= li < labels.len()
    &&& if is_arrival {
        &&& latest_reach(t, query.date, pattern, p, l.time, trip)
        &&& cost == cost_add(
            l.cost,
            (l.time.0 - stop_time_of(t, trip, p).arrival_time.unwrap().0) as u32,
            query.transit_penalty,
        )
    } else {
        &&& earliest_catch(t, query.date, pattern, p, l.time, trip)
        &&& cost == cost_add(
            l.cost,
            (stop_time_of(t, trip, p).departure_time.unwrap().0 - l.time.0) as u32,
            query.transit_penalty,
        )
    }
}

/// Where a ride's trip was caught: at its boarding position forward, at
/// its alighting position backward.
pub open spec fn caught_at(boarding_p: SequnceIdx, alighting_p: SequnceIdx, is_arrival: bool) -> int {
    if is_arrival {
        alighting_p.0 as int
    } else {
        boarding_p.0 as int
    }
}

/// The scheduled duration of a ride, zero where it would be negative.
pub open spec fn ride_secs(departure_time: LiveTime, arrival_time: LiveTime) -> u32 {
    if arrival_time.scheduled.0 >= departure_time.scheduled.0 {
        (arrival_time.scheduled.0 - departure_time.scheduled.0) as u32
    } else {
        0u32
    }
}

/// The cost of a ride: the cost of catching its trip (see [`boarded_with`])
/// at its boarding position (its alighting position, backward) plus the
/// ride's scheduled duration, weighted by the transit penalty.
pub open spec fn ride_cost(state: &State, t: &Timetable, query: &RaptorQuery, pattern: TripPatternIdx, u: Update, is_arrival: bool) -> bool {
    match u.parent {
        Parent::Transit { boarding_p, alighting_p, trip, departure_time, arrival_time } => exists|li: int, c: u64|
            #[trigger] boarded_with(state, t, query, pattern, trip, caught_at(boarding_p, alighting_p, is_arrival), c, li, is_arrival)
                && u.cost == cost_add(c, ride_secs(departure_time, arrival_time), query.transit_penalty),
        _ => false,
    }
}

/// A ride whose trip was caught with label `li` at cost `c`, and whose
/// cost adds the ride to `c`, has its cost from [`ride_cost`].
proof fn lemma_ride_cost_intro(
    state: &State,
    t: &Timetable,
    query: &RaptorQuery,
    pattern: TripPatternIdx,
    u: Update,
    li: int,
    c: u64,
    is_arrival: bool,
)
    requires
        u.parent is Transit,
        boarded_with(
            state,
            t,
            query,
            pattern,
            u.parent->Transit_trip,
            caught_at(u.parent->Transit_boarding_p, u.parent->Transit_alighting_p, is_arrival),
            c,
            li,
            is_arrival,
        ),
        u.cost == cost_add(
            c,
            ride_secs(u.parent->Transit_departure_time, u.parent->Transit_arrival_time),
            query.transit_penalty,
        ),
    ensures
        ride_cost(state, t, query, pattern, u, is_arrival),
{
}

/// A trip caught forward runs on the date and departs at or after the
/// time it was caught from.
proof fn lemma_catch_departs(t: &Timetable, date: crate::network::Date, pattern: TripPatternIdx, p: int, ready: Time, trip: TripIdx)
    requires
        earliest_catch(t, date, pattern, p, ready, trip),
    ensures
        stop_time_of(t, trip, p).departure_time matches Some(d) && d.0 >= ready.0,
        t.spec_service_active(t.trips@[trip.0 as int].service, date),
{
}

/// A trip caught backward runs on the date and arrives at or before the
/// time it was caught from.
proof fn lemma_reach_arrives(t: &Timetable, date: crate::network::Date, pattern: TripPatternIdx, p: int, ready: Time, trip: TripIdx)
    requires
        latest_reach(t, date, pattern, p, ready, trip),
    ensures
        stop_time_of(t, trip, p).arrival_time matches Some(a) && a.0 <= ready.0,
        t.spec_service_active(t.trips@[trip.0 as int].service, date),
{
}

/// Where a scan of a trip pattern stands: the trip it rides, where and at
/// what cost that trip was caught, and the updates offered so far.
pub struct Scan {
    pub trip: Option<TripIdx>,
    pub board: Option<SequnceIdx>,
    pub cost: u64,
    pub out: Seq<Update>,
}

/// A scan before its first position.
pub open spec fn scan_init() -> Scan {
    Scan { trip: None, board: None, cost: u64::MAX, out: Seq::empty() }
}

/// A time, or `missing` seconds where there is none.
pub open spec fn time_or(x: Option<Time>, missing: u32) -> Time {
    match x {
        Some(v) => v,
        None => Time(missing),
    }
}

/// `a - b`, zero where that would be negative.
pub open spec fn sat_sub(a: u32, b: u32) -> u32 {
    if a >= b {
        (a - b) as u32
    } else {
        0
    }
}

/// The stop at position `i` of a pattern.
pub open spec fn stop_at(t: &Timetable, pattern: TripPatternIdx, i: int) -> StopIdx {
    t.trip_patterns@[pattern.0 as int].stops@[i]
}

/// Forward, at position `i`: the trip being ridden is offered for the stop
/// there, arriving at its scheduled time (`u32::MAX` where it has none) at
/// the cost of catching it plus the ride, unless the stop's best labels
/// dominate the catching cost at that time or the stop's or the target's
/// best labels dominate the update.
pub open spec fn scan_ride_fwd(state: &State, t: &Timetable, query: &RaptorQuery, pattern: TripPatternIdx, sc: Scan, i: int) -> Scan {
    match sc.trip {
        None => sc,
        Some(trip) => {
            let s = stop_at(t, pattern, i);
            let arr = time_or(stop_time_of(t, trip, i).arrival_time, u32::MAX);
            if dominated_in(state.tau_star@[s.0 as int]@, ParetoLabel { time: arr, cost: sc.cost }, false) {
                sc
            } else {
                let b = match sc.board {
                    Some(b) => b,
                    None => SequnceIdx::spec_none(),
                };
                let dep = time_or(stop_time_of(t, trip, b.0 as int).departure_time, u32::MAX);
                let pc = cost_add(sc.cost, sat_sub(arr.0, dep.0), query.transit_penalty);
                let l = ParetoLabel { time: arr, cost: pc };
                if !dominated_in(state.tau_star@[s.0 as int]@, l, false) && !dominated_in(state.target_tau_star@, l, false) {
                    Scan {
                        out: sc.out.push(
                            Update {
                                stop: s,
                                time: arr,
                                cost: pc,
                                parent: Parent::Transit {
                                    boarding_p: b,
                                    alighting_p: SequnceIdx(i as u32),
                                    trip,
                                    departure_time: LiveTime::scheduled_only_spec(dep),
                                    arrival_time: LiveTime::scheduled_only_spec(arr),
                                },
                            },
                        ),
                        ..sc
                    }
                } else {
                    sc
                }
            }
        },
    }
}

/// Forward, at position `i`: each of `labels` in turn may catch the
/// earliest trip departing at or after it; that trip replaces the one being
/// ridden where it departs earlier, or at the same time for less.
pub open spec fn scan_board_fwd(t: &Timetable, query: &RaptorQuery, pattern: TripPatternIdx, sc: Scan, i: int, labels: Seq<ParetoLabel>) -> Scan
    decreases labels.len(),
{
    if labels.len() == 0 {
        sc
    } else {
        let w = scan_board_fwd(t, query, pattern, sc, i, labels.drop_last());
        let l = labels.last();
        let cur = match w.trip {
            Some(tr) => time_or(stop_time_of(t, tr, i).departure_time, u32::MAX),
            None => Time(u32::MAX),
        };
        if l.time.0 < cur.0 {
            match earliest_trip(t, query.date, pattern, i, l.time) {
                None => w,
                Some(ct) => {
                    let cd = time_or(stop_time_of(t, ct, i).departure_time, u32::MAX);
                    let cc = cost_add(l.cost, sat_sub(cd.0, l.time.0), query.transit_penalty);
                    if cd.0 < cur.0 || (cd.0 == cur.0 && cc < w.cost) {
                        Scan { trip: Some(ct), board: Some(SequnceIdx(i as u32)), cost: cc, out: w.out }
                    } else {
                        w
                    }
                },
            }
        } else {
            w
        }
    }
}

/// A forward scan from position `start` after the positions before `i`.
pub open spec fn scan_fwd(state: &State, t: &Timetable, query: &RaptorQuery, pattern: TripPatternIdx, start: int, i: int) -> Scan
    decreases i - start,
{
    if i <= start {
        scan_init()
    } else {
        let p = i - 1;
        let a = scan_ride_fwd(state, t, query, pattern, scan_fwd(state, t, query, pattern, start, p), p);
        scan_board_fwd(t, query, pattern, a, p, state.previous_labels@[stop_at(t, pattern, p).0 as int]@)
    }
}

/// Backward, at position `i`: the trip being ridden is offered for the stop
/// there, departing at its scheduled time (zero where it has none) at the
/// cost of catching it plus the ride, unless the stop's best labels
/// dominate the catching cost at that time or the stop's or the target's
/// best labels dominate the update.
pub open spec fn scan_ride_rev(state: &State, t: &Timetable, query: &RaptorQuery, pattern: TripPatternIdx, sc: Scan, i: int) -> Scan {
    match sc.trip {
        None => sc,
        Some(trip) => {
            let s = stop_at(t, pattern, i);
            let dep = time_or(stop_time_of(t, trip, i).departure_time, 0);
            if dominated_in(state.tau_star@[s.0 as int]@, ParetoLabel { time: dep, cost: sc.cost }, true) {
                sc
            } else {
                let a = match sc.board {
                    Some(a) => a,
                    None => SequnceIdx::spec_none(),
                };
                let arr = time_or(stop_time_of(t, trip, a.0 as int).arrival_time, 0);
                let pc = cost_add(sc.cost, sat_sub(arr.0, dep.0), query.transit_penalty);
                let l = ParetoLabel { time: dep, cost: pc };
                if !dominated_in(state.tau_star@[s.0 as int]@, l, true) && !dominated_in(state.target_tau_star@, l, true) {
                    Scan {
                        out: sc.out.push(
                            Update {
                                stop: s,
                                time: dep,
                                cost: pc,
                                parent: Parent::Transit {
                                    boarding_p: SequnceIdx(i as u32),
                                    alighting_p: a,
                                    trip,
                                    departure_time: LiveTime::scheduled_only_spec(dep),
                                    arrival_time: LiveTime::scheduled_only_spec(arr),
                                },
                            },
                        ),
                        ..sc
                    }
                } else {
                    sc
                }
            }
        },
    }
}

/// Backward, at position `i`: each of `labels` in turn may catch the
/// latest trip arriving at or before it; that trip replaces the one being
/// ridden where there is none, where it arrives later, or at the same time
/// for less.
pub open spec fn scan_board_rev(t: &Timetable, query: &RaptorQuery, pattern: TripPatternIdx, sc: Scan, i: int, labels: Seq<ParetoLabel>) -> Scan
    decreases labels.len(),
{
    if labels.len() == 0 {
        sc
    } else {
        let w = scan_board_rev(t, query, pattern, sc, i, labels.drop_last());
        let l = labels.last();
        let cur = match w.trip {
            Some(tr) => time_or(stop_time_of(t, tr, i).arrival_time, 0),
            None => Time(0),
        };
        if l.time.0 >= cur.0 {
            match latest_trip(t, query.date, pattern, i, l.time) {
                None => w,
                Some(lt) => {
                    let la = time_or(stop_time_of(t, lt, i).arrival_time, 0);
                    let cc = cost_add(l.cost, sat_sub(l.time.0, la.0), query.transit_penalty);
                    if w.trip is None || la.0 > cur.0 || (la.0 == cur.0 && cc < w.cost) {
                        Scan { trip: Some(lt), board: Some(SequnceIdx(i as u32)), cost: cc, out: w.out }
                    } else {
                        w
                    }
                },
            }
        } else {
            w
        }
    }
}

/// A backward scan from position `start` after the positions from `i` to
/// `start`.
pub open spec fn scan_rev(state: &State, t: &Timetable, query: &RaptorQuery, pattern: TripPatternIdx, start: int, i: int) -> Scan
    decreases start + 1 - i,
{
    if i > start {
        scan_init()
    } else {
        let a = scan_ride_rev(state, t, query, pattern, scan_rev(state, t, query, pattern, start, i + 1), i);
        scan_board_rev(t, query, pattern, a, i, state.previous_labels@[stop_at(t, pattern, i).0 as int]@)
    }
}

/// Scans one trip pattern forward from position `start`: rides the earliest
/// trip that can be caught from the previous round's labels, and offers the
/// stops after the boarding point.
fn scan_trip_pattern(
    query: &RaptorQuery,
    t: &Timetable,
    state: &State,
    pattern: TripPatternIdx,
    start: usize,
) -> (buffer: Vec<Update>)
    requires
        t.wf(),
        state.wf(t),
        pattern_ok(t, pattern),
        start < t.trip_patterns@[pattern.0 as int].stops@.len(),
    ensures
        forall|k: int|
            0 <= k < buffer@.len() ==> sound_update(state, t, #[trigger] buffer@[k], false)
                && ride_update(t, query, pattern, buffer@[k], false)
                && ride_cost(state, t, query, pattern, buffer@[k], false)
                && caught_from(buffer@[k], start as int, false),
        buffer@ == scan_fwd(state, t, query, pattern, start as int, t.trip_patterns@[pattern.0 as int].stops@.len() as int).out,
{
    proof {
        assert(t.pattern_wf(pattern.0 as int));
    }
    let n = t.trip_patterns[pattern.as_usize()].stops.len();
    let mut buffer: Vec<Update> = Vec::with_capacity(512);
    let mut active_trip: Option<TripIdx> = None;
    let mut boarding_p: Option<SequnceIdx> = None;
    // Cost accumulated up to the boarding stop.
    let mut boarding_cost: u64 = u64::MAX;
    let mut i: usize = start;
    while i < n
        invariant
            t.wf(),
            state.wf(t),
            pattern_ok(t, pattern),
            t.pattern_wf(pattern.0 as int),
            n == t.trip_patterns@[pattern.0 as int].stops@.len(),
            n < u32::MAX,
            i <= n,
            start <= i,
            active_trip matches Some(trip) ==> {
                &&& trip_ok(t, trip)
                &&& t.trips@[trip.0 as int].pattern == pattern
                &&& t.trip_len(trip) == n
                &&& t.spec_service_active(t.trips@[trip.0 as int].service, query.date)
                &&& boarding_p matches Some(b) && start <= b.0 < i
                &&& boarding_p matches Some(b) ==> exists|li: int|
                    boarded_with(state, t, query, pattern, trip, b.0 as int, boarding_cost, li, false)
            },
            forall|k: int|
                0 <= k < buffer@.len() ==> sound_update(state, t, #[trigger] buffer@[k], false)
                    && ride_update(t, query, pattern, buffer@[k], false)
                    && ride_cost(state, t, query, pattern, buffer@[k], false)
                    && caught_from(buffer@[k], start as int, false),
            (Scan { trip: active_trip, board: boarding_p, cost: boarding_cost, out: buffer@ }) == scan_fwd(
                state,
                t,
                query,
                pattern,
                start as int,
                i as int,
            ),
        decreases n - i,
    {
        let ghost sc0 = scan_fwd(state, t, query, pattern, start as int, i as int);
        let ghost after_ride = scan_ride_fwd(state, t, query, pattern, sc0, i as int);
        let stop = t.pattern_stop(pattern, i);
        let s = stop.as_usize();
        let seq_i = SequnceIdx(i as u32);
        // PART A: emit an update for the current alighting stop.
        if let Some(trip) = active_trip {
            proof {
                assert(t.trip_wf(trip.0 as int));
            }
            let arrival_time = match get_arrival_time(t, trip, seq_i) {
                Some(a) => a,
                None => Time(u32::MAX),
            };
            if !state.tau_star[s].is_dominated(arrival_time, boarding_cost, false) {
                let boarding_p_val = match boarding_p {
                    Some(b) => b,
                    None => SequnceIdx::none(),
                };
                let departure_time = match get_departure_time(t, trip, boarding_p_val) {
                    Some(d) => d,
                    None => Time(u32::MAX),
                };
                let ride_time = arrival_time.0.saturating_sub(departure_time.0);
                let prospective_cost = add_cost(boarding_cost, ride_time, query.transit_penalty);
                if !state.tau_star[s].is_dominated(arrival_time, prospective_cost, false)
                    && !state.target_tau_star.is_dominated(arrival_time, prospective_cost, false) {
                    let u = Update::new(
                        stop,
                        arrival_time,
                        prospective_cost,
                        Parent::Transit {
                            boarding_p: boarding_p_val,
                            alighting_p: seq_i,
                            trip,
                            departure_time: LiveTime::scheduled_only(departure_time),
                            arrival_time: LiveTime::scheduled_only(arrival_time),
                        },
                    );
                    let ghost before = buffer@;
                    buffer.push(u);
                    proof {
                        let b = boarding_p_val.0 as int;
                        let li = choose|li: int| boarded_with(state, t, query, pattern, trip, b, boarding_cost, li, false);
                        assert(boarded_with(state, t, query, pattern, trip, caught_at(boarding_p_val, seq_i, false), boarding_cost, li, false));
                        assert(ride_time == ride_secs(
                            LiveTime::scheduled_only_spec(departure_time),
                            LiveTime::scheduled_only_spec(arrival_time),
                        ));
                        lemma_ride_cost_intro(state, t, query, pattern, u, li, boarding_cost, false);
                        assert forall|k: int| 0 <= k < buffer@.len() implies sound_update(state, t, #[trigger] buffer@[k], false)
                            && ride_update(t, query, pattern, buffer@[k], false)
                            && ride_cost(state, t, query, pattern, buffer@[k], false)
                            && caught_from(buffer@[k], start as int, false) by {
                            if k < before.len() {
                                assert(buffer@[k] == before[k]);
                            }
                        }
                    }
                }
            }
        }
        proof {
            assert((Scan { trip: active_trip, board: boarding_p, cost: boarding_cost, out: buffer@ }) == after_ride);
        }
        // PART B: consider boarding from every label on the front at this stop.
        let front = state.previous_labels[s].iter();
        let m = front.len();
        let mut j: usize = 0;
        while j < m
            invariant
                t.wf(),
                state.wf(t),
                pattern_ok(t, pattern),
                t.pattern_wf(pattern.0 as int),
                n == t.trip_patterns@[pattern.0 as int].stops@.len(),
                n < u32::MAX,
                i < n,
                start <= i,
                seq_i.0 == i,
                m == front@.len(),
                front@ == state.previous_labels@[t.trip_patterns@[pattern.0 as int].stops@[i as int].0 as int]@,
                j <= m,
                active_trip matches Some(trip) ==> {
                    &&& trip_ok(t, trip)
                    &&& t.trips@[trip.0 as int].pattern == pattern
                    &&& t.trip_len(trip) == n
                    &&& t.spec_service_active(t.trips@[trip.0 as int].service, query.date)
                    &&& boarding_p matches Some(b) && start <= b.0 <= i
                    &&& boarding_p matches Some(b) ==> exists|li: int|
                        boarded_with(state, t, query, pattern, trip, b.0 as int, boarding_cost, li, false)
                },
                (Scan { trip: active_trip, board: boarding_p, cost: boarding_cost, out: buffer@ }) == scan_board_fwd(
                    t,
                    query,
                    pattern,
                    after_ride,
                    i as int,
                    front@.subrange(0, j as int),
                ),
            decreases m - j,
        {
            let prev_label = front[j];
            proof {
                assert(front@.subrange(0, j + 1).drop_last() =~= front@.subrange(0, j as int));
                assert(front@.subrange(0, j + 1).last() == prev_label);
            }
            let current_dep = match active_trip {
                Some(tr) => {
                    proof {
                        assert(t.trip_wf(tr.0 as int));
                    }
                    match get_departure_time(t, tr, seq_i) {
                        Some(d) => d,
                        None => Time(u32::MAX),
                    }
                },
                None => Time(u32::MAX),
            };
            if prev_label.time.0 < current_dep.0 {
                if let Some(candidate_trip) = find_earliest_trip(t, query, pattern, seq_i, prev_label.time) {
                    proof {
                        assert(t.trip_wf(candidate_trip.0 as int));
                        lemma_catch_departs(t, query.date, pattern, i as int, prev_label.time, candidate_trip);
                    }
                    let candidate_dep = match get_departure_time(t, candidate_trip, seq_i) {
                        Some(d) => d,
                        None => Time(u32::MAX),
                    };
                    let wait = candidate_dep.0.saturating_sub(prev_label.time.0);
                    let candidate_cost = add_cost(prev_label.cost, wait, query.transit_penalty);
                    // Accept if earlier departure, or same departure with lower cost.
                    let better = candidate_dep.0 < current_dep.0 || (candidate_dep.0 == current_dep.0
                        && candidate_cost < boarding_cost);
                    if better {
                        active_trip = Some(candidate_trip);
                        boarding_p = Some(seq_i);
                        boarding_cost = candidate_cost;
                        proof {
                            assert(boarded_with(state, t, query, pattern, candidate_trip, seq_i.0 as int, candidate_cost, j as int, false));
                            assert(boarding_p == Some(seq_i));
                            assert(boarding_p.unwrap().0 as int == seq_i.0 as int);
                            assert(boarding_p matches Some(b) ==> exists|li: int|
                                boarded_with(state, t, query, pattern, candidate_trip, b.0 as int, boarding_cost, li, false));
                        }
                    }
                }
            }
            j += 1;
        }
        proof {
            assert(front@.subrange(0, m as int) =~= front@);
        }
        i += 1;
    }
    buffer
}

/// Scans one trip pattern backward from position `start`: rides the latest
/// trip that still reaches the previous round's labels, and offers the stops
/// before the alighting point.
fn scan_trip_pattern_reverse(
    query: &RaptorQuery,
    t: &Timetable,
    state: &State,
    pattern: TripPatternIdx,
    start: usize,
) -> (buffer: Vec<Update>)
    requires
        t.wf(),
        state.wf(t),
        pattern_ok(t, pattern),
        start < t.trip_patterns@[pattern.0 as int].stops@.len(),
    ensures
        forall|k: int|
            0 <= k < buffer@.len() ==> sound_update(state, t, #[trigger] buffer@[k], true)
                && ride_update(t, query, pattern, buffer@[k], true)
                && ride_cost(state, t, query, pattern, buffer@[k], true)
                && caught_from(buffer@[k], start as int, true),
        buffer@ == scan_rev(state, t, query, pattern, start as int, 0).out,
{
    proof {
        assert(t.pattern_wf(pattern.0 as int));
    }
    let n = t.trip_patterns[pattern.as_usize()].stops.len();
    let mut buffer: Vec<Update> = Vec::with_capacity(512);
    let mut active_trip: Option<TripIdx> = None;
    let mut alighting_p: Option<SequnceIdx> = None;
    let mut alighting_cost: u64 = u64::MAX;
    let mut i: usize = start + 1;
    while i > 0
        invariant
            t.wf(),
            state.wf(t),
            pattern_ok(t, pattern),
            t.pattern_wf(pattern.0 as int),
            n == t.trip_patterns@[pattern.0 as int].stops@.len(),
            n < u32::MAX,
            i <= start + 1,
            start < n,
            active_trip matches Some(trip) ==> {
                &&& trip_ok(t, trip)
                &&& t.trips@[trip.0 as int].pattern == pattern
                &&& t.trip_len(trip) == n
                &&& t.spec_service_active(t.trips@[trip.0 as int].service, query.date)
                &&& alighting_p matches Some(a) && i <= a.0 <= start
                &&& alighting_p matches Some(a) ==> exists|li: int|
                    boarded_with(state, t, query, pattern, trip, a.0 as int, alighting_cost, li, true)
            },
            forall|k: int|
                0 <= k < buffer@.len() ==> sound_update(state, t, #[trigger] buffer@[k], true)
                    && ride_update(t, query, pattern, buffer@[k], true)
                    && ride_cost(state, t, query, pattern, buffer@[k], true)
                    && caught_from(buffer@[k], start as int, true),
            (Scan { trip: active_trip, board: alighting_p, cost: alighting_cost, out: buffer@ }) == scan_rev(
                state,
                t,
                query,
                pattern,
                start as int,
                i as int,
            ),
        decreases i,
    {
        let ghost sc0 = scan_rev(state, t, query, pattern, start as int, i as int);
        i -= 1;
        let ghost after_ride = scan_ride_rev(state, t, query, pattern, sc0, i as int);
        let stop = t.pattern_stop(pattern, i);
        let s = stop.as_usize();
        let seq_i = SequnceIdx(i as u32);
        // PART A: emit an update for the current boarding stop.
        if let Some(trip) = active_trip {
            proof {
                assert(t.trip_wf(trip.0 as int));
            }
            let departure_time = match get_departure_time(t, trip, seq_i) {
                Some(d) => d,
                None => Time(0),
            };
            if !state.tau_star[s].is_dominated(departure_time, alighting_cost, true) {
                let alighting_p_val = match alighting_p {
                    Some(a) => a,
                    None => SequnceIdx::none(),
                };
                let arrival_time = match get_arrival_time(t, trip, alighting_p_val) {
                    Some(a) => a,
                    None => Time(0),
                };
                let ride_time = arrival_time.0.saturating_sub(departure_time.0);
                let prospective_cost = add_cost(alighting_cost, ride_time, query.transit_penalty);
                if !state.tau_star[s].is_dominated(departure_time, prospective_cost, true)
                    && !state.target_tau_star.is_dominated(departure_time, prospective_cost, true) {
                    let u = Update::new(
                        stop,
                        departure_time,
                        prospective_cost,
                        Parent::Transit {
                            boarding_p: seq_i,
                            alighting_p: alighting_p_val,
                            trip,
                            departure_time: LiveTime::scheduled_only(departure_time),
                            arrival_time: LiveTime::scheduled_only(arrival_time),
                        },
                    );
                    let ghost before = buffer@;
                    buffer.push(u);
                    proof {
                        let a = alighting_p_val.0 as int;
                        let li = choose|li: int| boarded_with(state, t, query, pattern, trip, a, alighting_cost, li, true);
                        assert(boarded_with(state, t, query, pattern, trip, caught_at(seq_i, alighting_p_val, true), alighting_cost, li, true));
                        assert(ride_time == ride_secs(
                            LiveTime::scheduled_only_spec(departure_time),
                            LiveTime::scheduled_only_spec(arrival_time),
                        ));
                        lemma_ride_cost_intro(state, t, query, pattern, u, li, alighting_cost, true);
                        assert forall|k: int| 0 <= k < buffer@.len() implies sound_update(state, t, #[trigger] buffer@[k], true)
                            && ride_update(t, query, pattern, buffer@[k], true)
                            && ride_cost(state, t, query, pattern, buffer@[k], true)
                            && caught_from(buffer@[k], start as int, true) by {
                            if k < before.len() {
                                assert(buffer@[k] == before[k]);
                            }
                        }
                    }
                }
            }
        }
        proof {
            assert((Scan { trip: active_trip, board: alighting_p, cost: alighting_cost, out: buffer@ }) == after_ride);
        }
        // PART B: consider alighting from every label on the front at this stop.
        let front = state.previous_labels[s].iter();
        let m = front.len();
        let mut j: usize = 0;
        while j < m
            invariant
                t.wf(),
                state.wf(t),
                pattern_ok(t, pattern),
                t.pattern_wf(pattern.0 as int),
                n == t.trip_patterns@[pattern.0 as int].stops@.len(),
                n < u32::MAX,
                i < n,
                i <= start,
                seq_i.0 == i,
                m == front@.len(),
                front@ == state.previous_labels@[t.trip_patterns@[pattern.0 as int].stops@[i as int].0 as int]@,
                j <= m,
                active_trip matches Some(trip) ==> {
                    &&& trip_ok(t, trip)
                    &&& t.trips@[trip.0 as int].pattern == pattern
                    &&& t.trip_len(trip) == n
                    &&& t.spec_service_active(t.trips@[trip.0 as int].service, query.date)
                    &&& alighting_p matches Some(a) && i <= a.0 <= start
                    &&& alighting_p matches Some(a) ==> exists|li: int|
                        boarded_with(state, t, query, pattern, trip, a.0 as int, alighting_cost, li, true)
                },
                (Scan { trip: active_trip, board: alighting_p, cost: alighting_cost, out: buffer@ }) == scan_board_rev(
                    t,
                    query,
                    pattern,
                    after_ride,
                    i as int,
                    front@.subrange(0, j as int),
                ),
            decreases m - j,
        {
            let prev_label = front[j];
            proof {
                assert(front@.subrange(0, j + 1).drop_last() =~= front@.subrange(0, j as int));
                assert(front@.subrange(0, j + 1).last() == prev_label);
            }
            let current_arrival = match active_trip {
                Some(tr) => {
                    proof {
                        assert(t.trip_wf(tr.0 as int));
                    }
                    match get_arrival_time(t, tr, seq_i) {
                        Some(a) => a,
                        None => Time(0),
                    }
                },
                None => Time(0),
            };
            if prev_label.time.0 >= current_arrival.0 {
                if let Some(latest_trip) = find_latest_trip(t, query, pattern, seq_i, prev_label.time) {
                    proof {
                        assert(t.trip_wf(latest_trip.0 as int));
                        lemma_reach_arrives(t, query.date, pattern, i as int, prev_label.time, latest_trip);
                    }
                    let later_arrival = match get_arrival_time(t, latest_trip, seq_i) {
                        Some(a) => a,
                        None => Time(0),
                    };
                    let wait = prev_label.time.0.saturating_sub(later_arrival.0);
                    let candidate_cost = add_cost(prev_label.cost, wait, query.transit_penalty);
                    let better = active_trip.is_none() || later_arrival.0 > current_arrival.0 || (
                    later_arrival.0 == current_arrival.0 && candidate_cost < alighting_cost);
                    if better {
                        active_trip = Some(latest_trip);
                        alighting_p = Some(seq_i);
                        alighting_cost = candidate_cost;
                        proof {
                            assert(boarded_with(state, t, query, pattern, latest_trip, seq_i.0 as int, candidate_cost, j as int, true));
                            assert(alighting_p == Some(seq_i));
                            assert(alighting_p.unwrap().0 as int == seq_i.0 as int);
                            assert(alighting_p matches Some(a) ==> exists|li: int|
                                boarded_with(state, t, query, pattern, latest_trip, a.0 as int, alighting_cost, li, true));
                        }
                    }
                }
            }
            j += 1;
        }
        proof {
            assert(front@.subrange(0, m as int) =~= front@);
        }
    }
    buffer
}

/// A ride along some trip pattern, in the sense of [`ride_update`].
pub open spec fn some_ride(t: &Timetable, query: &RaptorQuery, u: Update, is_arrival: bool) -> bool {
    exists|p: TripPatternIdx| pattern_ok(t, p) && #[trigger] ride_update(t, query, p, u, is_arrival)
}

/// The ride's trip was caught at or after position `start` of its pattern
/// (forward), or at or before it (backward).
pub open spec fn caught_from(u: Update, start: int, is_arrival: bool) -> bool {
    match u.parent {
        Parent::Transit { boarding_p, alighting_p, .. } => if is_arrival {
            alighting_p.0 <= start
        } else {
            boarding_p.0 >= start
        },
        _ => false,
    }
}

/// A ride along a trip pattern that is active in this round, in the sense
/// of [`ride_update`], caught from the position the pattern is scanned
/// from, with its cost as [`ride_cost`] gives it.
pub open spec fn priced_ride(state: &State, t: &Timetable, query: &RaptorQuery, u: Update, is_arrival: bool) -> bool {
    exists|p: TripPatternIdx|
        pattern_ok(t, p) && #[trigger] ride_update(t, query, p, u, is_arrival) && ride_cost(state, t, query, p, u, is_arrival)
            && (state.active_trip_patterns@[p.0 as int] matches Some(st) && caught_from(u, st.0 as int, is_arrival))
}

/// What scanning one pattern from position `start` offers: forward, the
/// scan over all its positions from `start` on; backward, over all its
/// positions from `start` down to the first.
pub open spec fn pattern_scan(state: &State, t: &Timetable, query: &RaptorQuery, pattern: TripPatternIdx, start: int, is_arrival: bool) -> Seq<Update> {
    if is_arrival {
        scan_rev(state, t, query, pattern, start, 0).out
    } else {
        scan_fwd(state, t, query, pattern, start, t.trip_patterns@[pattern.0 as int].stops@.len() as int).out
    }
}

/// Joining two buffers, the shorter after the longer.
pub open spec fn merged(a: Seq<Update>, b: Seq<Update>) -> Seq<Update> {
    if a.len() >= b.len() {
        a + b
    } else {
        b + a
    }
}

/// The updates of the first `k` trip patterns: the scan of each active one
/// from its position, joined in pattern order (see [`merged`]).
pub open spec fn patterns_out(state: &State, t: &Timetable, query: &RaptorQuery, is_arrival: bool, k: int) -> Seq<Update>
    decreases k,
{
    if k <= 0 {
        Seq::empty()
    } else {
        let prev = patterns_out(state, t, query, is_arrival, k - 1);
        match state.active_trip_patterns@[k - 1] {
            None => prev,
            Some(st) => merged(prev, pattern_scan(state, t, query, TripPatternIdx((k - 1) as u32), st.0 as int, is_arrival)),
        }
    }
}

/// Scans every active trip pattern (see [`scan_trip_pattern`]) and gathers
/// the offered updates.
fn explore_patterns(query: &RaptorQuery, t: &Timetable, state: &State, is_arrival: bool) -> (updates: Vec<Update>)
    requires
        t.wf(),
        state.wf(t),
    ensures
        forall|k: int|
            0 <= k < updates@.len() ==> sound_update(state, t, #[trigger] updates@[k], is_arrival)
                && some_ride(t, query, updates@[k], is_arrival)
                && priced_ride(state, t, query, updates@[k], is_arrival),
        updates@ == patterns_out(state, t, query, is_arrival, t.trip_patterns@.len() as int),
{
    let np = state.active_trip_patterns.len();
    let mut updates: Vec<Update> = Vec::new();
    let mut i: usize = 0;
    while i < np
        invariant
            t.wf(),
            state.wf(t),
            np == state.active_trip_patterns@.len(),
            np == t.trip_patterns@.len(),
            i <= np,
            forall|k: int|
                0 <= k < updates@.len() ==> sound_update(state, t, #[trigger] updates@[k], is_arrival)
                    && some_ride(t, query, updates@[k], is_arrival)
                && priced_ride(state, t, query, updates@[k], is_arrival),
            updates@ == patterns_out(state, t, query, is_arrival, i as int),
        decreases np - i,
    {
        if let Some(p_idx) = state.active_trip_patterns[i] {
            let pattern = TripPatternIdx(i as u32);
            proof {
                assert(state.active_trip_patterns@[i as int] matches Some(p) ==> p.0 < t.trip_patterns@[i as int].stops@.len());
            }
            let buffer = if is_arrival {
                scan_trip_pattern_reverse(query, t, state, pattern, p_idx.as_usize())
            } else {
                scan_trip_pattern(query, t, state, pattern, p_idx.as_usize())
            };
            let ghost old_updates = updates@;
            updates = merge_buffers(updates, buffer);
            proof {
                assert(TripPatternIdx(((i + 1) - 1) as u32) == pattern);
                assert(buffer@ == pattern_scan(state, t, query, pattern, p_idx.0 as int, is_arrival));
                assert(updates@ == patterns_out(state, t, query, is_arrival, i + 1));
                assert forall|k: int| 0 <= k < updates@.len() implies sound_update(state, t, #[trigger] updates@[k], is_arrival)
                    && some_ride(t, query, updates@[k], is_arrival)
                    && priced_ride(state, t, query, updates@[k], is_arrival) by {
                    if old_updates.len() >= buffer@.len() {
                        if k < old_updates.len() {
                            assert(updates@[k] == old_updates[k]);
                        } else {
                            assert(updates@[k] == buffer@[k - old_updates.len()]);
                            assert(ride_update(t, query, pattern, buffer@[k - old_updates.len()], is_arrival));
                        }
                    } else {
                        if k < buffer@.len() {
                            assert(updates@[k] == buffer@[k]);
                            assert(ride_update(t, query, pattern, buffer@[k], is_arrival));
                        } else {
                            assert(updates@[k] == old_updates[k - buffer@.len()]);
                        }
                    }
                }
            }
        }
        i += 1;
    }
    updates
}

/// Rides every active trip pattern forward from its first marked stop.
pub fn explore_trip_patterns(query: &RaptorQuery, t: &Timetable, state: &mut State) -> (updates: Vec<Update>)
    requires
        t.wf(),
        old(state).wf(t),
    ensures
        *final(state) == *old(state),
        forall|k: int|
            0 <= k < updates@.len() ==> sound_update(old(state), t, #[trigger] updates@[k], false)
                && some_ride(t, query, updates@[k], false)
                && priced_ride(old(state), t, query, updates@[k], false),
        updates@ == patterns_out(old(state), t, query, false, t.trip_patterns@.len() as int),
{
    explore_patterns(query, t, state, false)
}

/// Rides every active trip pattern backward from its last marked stop.
pub fn explore_trip_patterns_reverse(query: &RaptorQuery, t: &Timetable, state: &mut State) -> (updates: Vec<Update>)
    requires
        t.wf(),
        old(state).wf(t),
    ensures
        *final(state) == *old(state),
        forall|k: int|
            0 <= k < updates@.len() ==> sound_update(old(state), t, #[trigger] updates@[k], true)
                && some_ride(t, query, updates@[k], true)
                && priced_ride(old(state), t, query, updates@[k], true),
        updates@ == patterns_out(old(state), t, query, true, t.trip_patterns@.len() as int),
{
    explore_patterns(query, t, state, true)
}

/// The transfers that leave a stop (forward) or arrive at it (backward).
pub open spec fn hop_list(t: &Timetable, m: int, is_arrival: bool) -> Seq<usize> {
    if is_arrival {
        t.stops@[m].transfers_in@
    } else {
        t.stops@[m].transfers_out@
    }
}

/// A transfer or a walk from a stop marked in this round, taken from one of
/// the stop's current labels (forward), or towards such a stop, reaching it
/// at one of its current labels (backward).
pub open spec fn hop_update(
    state: &State,
    t: &Timetable,
    walks: &Walks,
    query: &RaptorQuery,
    u: Update,
    is_arrival: bool,
) -> bool {
    match u.parent {
        Parent::Transfer { from_stop, departure_time, arrival_time } => {
            let m = from_stop.0 as int;
            &&& stop_ok(t, from_stop)
            &&& state.marked_stops@[m]
            &&& exists|li: int, x: int|
                #![trigger state.current_labels@[m]@[li], hop_list(t, m, is_arrival)[x]]
                0 <= li < state.current_labels@[m]@.len() && 0 <= x < hop_list(t, m, is_arrival).len() && {
                    let l = state.current_labels@[m]@[li];
                    let tr = t.transfers@[hop_list(t, m, is_arrival)[x] as int];
                    let tt = spec_transfer_time(tr);
                    &&& u.cost == cost_add(l.cost, tt, query.transfer_penalty)
                    &&& if is_arrival {
                        &&& l.time.0 >= tt
                        &&& u.stop == tr.from_stop
                        &&& u.time == time_sub(l.time, tt)
                        &&& departure_time == LiveTime::scheduled_only_spec(u.time)
                        &&& arrival_time == LiveTime::scheduled_only_spec(l.time)
                    } else {
                        &&& u.stop == tr.to_stop
                        &&& u.time == time_add(l.time, tt)
                        &&& departure_time == LiveTime::scheduled_only_spec(l.time)
                        &&& arrival_time == LiveTime::scheduled_only_spec(u.time)
                    }
                }
        },
        Parent::Walk { from_stop, departure_time, arrival_time } => {
            let m = from_stop.0 as int;
            &&& stop_ok(t, from_stop)
            &&& state.marked_stops@[m]
            &&& t.stops@[m].coordinate is Some
            &&& t.stops@[u.stop.0 as int].trip_count != 0
            &&& exists|li: int, w: int|
                0 <= li < state.current_labels@[m]@.len() && 0 <= w < walks.by_stop@[m]@.len()
                    && {
                    let l = #[trigger] state.current_labels@[m]@[li];
                    let d = (#[trigger] walks.by_stop@[m]@[w]).1.0;
                    &&& u.stop == walks.by_stop@[m]@[w].0
                    &&& u.cost == cost_add(l.cost, d, query.walk_penalty)
                    &&& if is_arrival {
                        &&& l.time.0 >= d
                        &&& u.time == time_sub(l.time, d)
                        &&& departure_time == LiveTime::scheduled_only_spec(u.time)
                        &&& arrival_time == LiveTime::scheduled_only_spec(l.time)
                    } else {
                        &&& u.time == time_add(l.time, d)
                        &&& departure_time == LiveTime::scheduled_only_spec(l.time)
                        &&& arrival_time == LiveTime::scheduled_only_spec(u.time)
                    }
                }
        },
        _ => false,
    }
}

/// The update for transfer `x` of the list of stop `m` (its outgoing
/// transfers forward, its incoming ones backward), taken from label `li` of
/// the stop's current front.
pub open spec fn transfer_hop(state: &State, t: &Timetable, query: &RaptorQuery, m: int, li: int, x: int, is_arrival: bool) -> Update {
    let l = state.current_labels@[m]@[li];
    let tr = t.transfers@[hop_list(t, m, is_arrival)[x] as int];
    let tt = spec_transfer_time(tr);
    let cost = cost_add(l.cost, tt, query.transfer_penalty);
    if is_arrival {
        let dep = time_sub(l.time, tt);
        Update {
            stop: tr.from_stop,
            time: dep,
            cost,
            parent: Parent::Transfer {
                from_stop: StopIdx(m as u32),
                departure_time: LiveTime::scheduled_only_spec(dep),
                arrival_time: LiveTime::scheduled_only_spec(l.time),
            },
        }
    } else {
        let arr = time_add(l.time, tt);
        Update {
            stop: tr.to_stop,
            time: arr,
            cost,
            parent: Parent::Transfer {
                from_stop: StopIdx(m as u32),
                departure_time: LiveTime::scheduled_only_spec(l.time),
                arrival_time: LiveTime::scheduled_only_spec(arr),
            },
        }
    }
}

/// Whether the search offers [`transfer_hop`]: neither the best labels of
/// its stop nor the target's dominate it; backward, moreover, the label
/// leaves time for the transfer and the same cost at time zero is not
/// dominated either.
pub open spec fn transfer_offered(state: &State, t: &Timetable, query: &RaptorQuery, m: int, li: int, x: int, is_arrival: bool) -> bool {
    let u = transfer_hop(state, t, query, m, li, x, is_arrival);
    let l = state.current_labels@[m]@[li];
    let tt = spec_transfer_time(t.transfers@[hop_list(t, m, is_arrival)[x] as int]);
    let zero = ParetoLabel { time: Time(0), cost: u.cost };
    &&& is_arrival ==> {
        &&& !dominated_in(state.tau_star@[u.stop.0 as int]@, zero, true)
        &&& !dominated_in(state.target_tau_star@, zero, true)
        &&& l.time.0 >= tt
    }
    &&& !dominated_in(state.tau_star@[u.stop.0 as int]@, label_of(u), is_arrival)
    &&& !dominated_in(state.target_tau_star@, label_of(u), is_arrival)
}

/// The update for walk `w` of stop `m`, taken from label `li` of the stop's
/// current front.
pub open spec fn walk_hop(state: &State, t: &Timetable, walks: &Walks, query: &RaptorQuery, m: int, li: int, w: int, is_arrival: bool) -> Update {
    let l = state.current_labels@[m]@[li];
    let other = walks.by_stop@[m]@[w].0;
    let d = walks.by_stop@[m]@[w].1.0;
    let cost = cost_add(l.cost, d, query.walk_penalty);
    if is_arrival {
        let dep = time_sub(l.time, d);
        Update {
            stop: other,
            time: dep,
            cost,
            parent: Parent::Walk {
                from_stop: StopIdx(m as u32),
                departure_time: LiveTime::scheduled_only_spec(dep),
                arrival_time: LiveTime::scheduled_only_spec(l.time),
            },
        }
    } else {
        let arr = time_add(l.time, d);
        Update {
            stop: other,
            time: arr,
            cost,
            parent: Parent::Walk {
                from_stop: StopIdx(m as u32),
                departure_time: LiveTime::scheduled_only_spec(l.time),
                arrival_time: LiveTime::scheduled_only_spec(arr),
            },
        }
    }
}

/// Whether the search offers [`walk_hop`]: the stop walked from has a
/// coordinate, the other stop is served by some trip, backward the label
/// leaves time for the walk, and neither the best labels of the other stop
/// nor the target's dominate the update.
pub open spec fn walk_offered(state: &State, t: &Timetable, walks: &Walks, query: &RaptorQuery, m: int, li: int, w: int, is_arrival: bool) -> bool {
    let u = walk_hop(state, t, walks, query, m, li, w, is_arrival);
    let l = state.current_labels@[m]@[li];
    &&& t.stops@[m].coordinate is Some
    &&& t.stops@[u.stop.0 as int].trip_count != 0
    &&& is_arrival ==> l.time.0 >= walks.by_stop@[m]@[w].1.0
    &&& !dominated_in(state.tau_star@[u.stop.0 as int]@, label_of(u), is_arrival)
    &&& !dominated_in(state.target_tau_star@, label_of(u), is_arrival)
}

/// `u` is a transfer or a walk of stop `m` that the search offers.
pub open spec fn hop_from(state: &State, t: &Timetable, walks: &Walks, query: &RaptorQuery, m: int, u: Update, is_arrival: bool) -> bool {
    ||| exists|li: int, x: int|
        0 <= li < state.current_labels@[m]@.len() && 0 <= x < hop_list(t, m, is_arrival).len()
            && transfer_offered(state, t, query, m, li, x, is_arrival)
            && u == #[trigger] transfer_hop(state, t, query, m, li, x, is_arrival)
    ||| exists|li: int, w: int|
        0 <= li < state.current_labels@[m]@.len() && 0 <= w < walks.by_stop@[m]@.len()
            && walk_offered(state, t, walks, query, m, li, w, is_arrival)
            && u == #[trigger] walk_hop(state, t, walks, query, m, li, w, is_arrival)
}

/// `u` is a transfer or a walk of some marked stop that the search offers.
pub open spec fn offered_hop(state: &State, t: &Timetable, walks: &Walks, query: &RaptorQuery, u: Update, is_arrival: bool) -> bool {
    exists|m: int|
        0 <= m < t.stops@.len() && state.marked_stops@[m] && #[trigger] hop_from(state, t, walks, query, m, u, is_arrival)
}

/// Every hop of stop `m` that the search offers is in `s`.
pub open spec fn has_hops_of(state: &State, t: &Timetable, walks: &Walks, query: &RaptorQuery, m: int, s: Seq<Update>, is_arrival: bool) -> bool {
    &&& forall|li: int, x: int|
        0 <= li < state.current_labels@[m]@.len() && 0 <= x < hop_list(t, m, is_arrival).len()
            && transfer_offered(state, t, query, m, li, x, is_arrival)
            ==> s.contains(#[trigger] transfer_hop(state, t, query, m, li, x, is_arrival))
    &&& forall|li: int, w: int|
        0 <= li < state.current_labels@[m]@.len() && 0 <= w < walks.by_stop@[m]@.len()
            && walk_offered(state, t, walks, query, m, li, w, is_arrival)
            ==> s.contains(#[trigger] walk_hop(state, t, walks, query, m, li, w, is_arrival))
}

/// The transfers offered from label `li` of stop `m`, over the first `x`
/// entries of the stop's list, in list order.
pub open spec fn transfer_hops(state: &State, t: &Timetable, query: &RaptorQuery, m: int, li: int, x: int, is_arrival: bool) -> Seq<Update>
    decreases x,
{
    if x <= 0 {
        Seq::empty()
    } else {
        let prev = transfer_hops(state, t, query, m, li, x - 1, is_arrival);
        if transfer_offered(state, t, query, m, li, x - 1, is_arrival) {
            prev.push(transfer_hop(state, t, query, m, li, x - 1, is_arrival))
        } else {
            prev
        }
    }
}

/// The walks offered from label `li` of stop `m`, over the first `w`
/// stops near it, in order.
pub open spec fn walk_hops(state: &State, t: &Timetable, walks: &Walks, query: &RaptorQuery, m: int, li: int, w: int, is_arrival: bool) -> Seq<Update>
    decreases w,
{
    if w <= 0 {
        Seq::empty()
    } else {
        let prev = walk_hops(state, t, walks, query, m, li, w - 1, is_arrival);
        if walk_offered(state, t, walks, query, m, li, w - 1, is_arrival) {
            prev.push(walk_hop(state, t, walks, query, m, li, w - 1, is_arrival))
        } else {
            prev
        }
    }
}

/// The hops offered from label `li` of stop `m`: its transfers, then its
/// walks.
pub open spec fn label_hops(state: &State, t: &Timetable, walks: &Walks, query: &RaptorQuery, m: int, li: int, is_arrival: bool) -> Seq<Update> {
    transfer_hops(state, t, query, m, li, hop_list(t, m, is_arrival).len() as int, is_arrival)
        + walk_hops(state, t, walks, query, m, li, walks.by_stop@[m]@.len() as int, is_arrival)
}

/// The hops offered from the first `li` current labels of stop `m`, label
/// by label.
pub open spec fn stop_hops(state: &State, t: &Timetable, walks: &Walks, query: &RaptorQuery, m: int, li: int, is_arrival: bool) -> Seq<Update>
    decreases li,
{
    if li <= 0 {
        Seq::empty()
    } else {
        stop_hops(state, t, walks, query, m, li - 1, is_arrival) + label_hops(state, t, walks, query, m, li - 1, is_arrival)
    }
}

/// The hops of the marked stops among the first `i`: those of each stop
/// (from all its current labels), joined in stop order (see [`merged`]).
pub open spec fn hops_out(state: &State, t: &Timetable, walks: &Walks, query: &RaptorQuery, is_arrival: bool, i: int) -> Seq<Update>
    decreases i,
{
    if i <= 0 {
        Seq::empty()
    } else {
        let prev = hops_out(state, t, walks, query, is_arrival, i - 1);
        if state.marked_stops@[i - 1] {
            merged(prev, stop_hops(state, t, walks, query, i - 1, state.current_labels@[i - 1]@.len() as int, is_arrival))
        } else {
            prev
        }
    }
}

/// A stop without a coordinate offers no walk.
proof fn lemma_no_walks(state: &State, t: &Timetable, walks: &Walks, query: &RaptorQuery, m: int, li: int, w: int, is_arrival: bool)
    requires
        !(t.stops@[m].coordinate is Some),
    ensures
        walk_hops(state, t, walks, query, m, li, w, is_arrival) == Seq::<Update>::empty(),
    decreases w,
{
    if w > 0 {
        lemma_no_walks(state, t, walks, query, m, li, w - 1, is_arrival);
    }
}

/// Appending keeps what a sequence contains.
proof fn lemma_contains_grows(s: Seq<Update>, r: Seq<Update>)
    ensures
        forall|v: Update| s.contains(v) ==> #[trigger] (s + r).contains(v),
        forall|v: Update| s.contains(v) ==> #[trigger] (r + s).contains(v),
{
    assert forall|v: Update| s.contains(v) implies #[trigger] (s + r).contains(v) by {
        let i = choose|i: int| 0 <= i < s.len() && s[i] == v;
        assert((s + r)[i] == v);
    }
    assert forall|v: Update| s.contains(v) implies #[trigger] (r + s).contains(v) by {
        let i = choose|i: int| 0 <= i < s.len() && s[i] == v;
        assert((r + s)[r.len() + i] == v);
    }
}

/// Pushing keeps what a sequence contains, and adds the pushed value.
proof fn lemma_push_grows(s: Seq<Update>, u: Update)
    ensures
        s.push(u).contains(u),
        forall|v: Update| s.contains(v) ==> #[trigger] s.push(u).contains(v),
{
    assert(s.push(u)[s.len() as int] == u);
    assert forall|v: Update| s.contains(v) implies #[trigger] s.push(u).contains(v) by {
        let i = choose|i: int| 0 <= i < s.len() && s[i] == v;
        assert(s.push(u)[i] == v);
    }
}

/// The transfers and walks of one marked stop: exactly the hops of the
/// stop that the search offers.
fn hops_from_stop(
    query: &RaptorQuery,
    t: &Timetable,
    walks: &Walks,
    state: &State,
    stop_idx: StopIdx,
    is_arrival: bool,
) -> (buffer: Vec<Update>)
    requires
        t.wf(),
        state.wf(t),
        walks.wf(t),
        stop_ok(t, stop_idx),
        state.marked_stops@[stop_idx.0 as int],
    ensures
        forall|k: int|
            0 <= k < buffer@.len() ==> sound_update(state, t, #[trigger] buffer@[k], is_arrival)
                && hop_update(state, t, walks, query, buffer@[k], is_arrival)
                && hop_from(state, t, walks, query, stop_idx.0 as int, buffer@[k], is_arrival),
        has_hops_of(state, t, walks, query, stop_idx.0 as int, buffer@, is_arrival),
        buffer@ == stop_hops(
            state,
            t,
            walks,
            query,
            stop_idx.0 as int,
            state.current_labels@[stop_idx.0 as int]@.len() as int,
            is_arrival,
        ),
{
    let m = stop_idx.as_usize();
    let ghost mi = m as int;
    let mut buffer: Vec<Update> = Vec::with_capacity(512);
    let labels = state.current_labels[m].iter();
    let stop = &t.stops[m];
    proof {
        assert(t.stop_wf(m as int));
        assert(stop_idx == StopIdx(m as u32));
    }
    let mut li: usize = 0;
    while li < labels.len()
        invariant
            t.wf(),
            state.wf(t),
            walks.wf(t),
            stop_ok(t, stop_idx),
            m == stop_idx.0,
            mi == m,
            stop_idx == StopIdx(m as u32),
            stop == &t.stops@[m as int],
            t.stop_wf(m as int),
            state.marked_stops@[m as int],
            labels@ == state.current_labels@[m as int]@,
            li <= labels@.len(),
            buffer@ == stop_hops(state, t, walks, query, mi, li as int, is_arrival),
            forall|k: int|
                0 <= k < buffer@.len() ==> sound_update(state, t, #[trigger] buffer@[k], is_arrival)
                    && hop_update(state, t, walks, query, buffer@[k], is_arrival)
                    && hop_from(state, t, walks, query, mi, buffer@[k], is_arrival),
            forall|l2: int, x2: int|
                0 <= l2 < li && 0 <= x2 < hop_list(t, mi, is_arrival).len()
                    && transfer_offered(state, t, query, mi, l2, x2, is_arrival)
                    ==> buffer@.contains(#[trigger] transfer_hop(state, t, query, mi, l2, x2, is_arrival)),
            forall|l2: int, w2: int|
                0 <= l2 < li && 0 <= w2 < walks.by_stop@[mi]@.len()
                    && walk_offered(state, t, walks, query, mi, l2, w2, is_arrival)
                    ==> buffer@.contains(#[trigger] walk_hop(state, t, walks, query, mi, l2, w2, is_arrival)),
        decreases labels@.len() - li,
    {
        let current_label = labels[li];
        proof {
            assert(buffer@ =~= stop_hops(state, t, walks, query, mi, li as int, is_arrival) + transfer_hops(
                state,
                t,
                query,
                mi,
                li as int,
                0,
                is_arrival,
            ));
        }
        // Explicit transfers.
        let list = if is_arrival { &stop.transfers_in } else { &stop.transfers_out };
        let mut x: usize = 0;
        while x < list.len()
            invariant
                t.wf(),
                state.wf(t),
                walks.wf(t),
                stop_ok(t, stop_idx),
                m == stop_idx.0,
                mi == m,
                stop_idx == StopIdx(m as u32),
                stop == &t.stops@[m as int],
                t.stop_wf(m as int),
                state.marked_stops@[m as int],
                labels@ == state.current_labels@[m as int]@,
                li < labels@.len(),
                current_label == labels@[li as int],
                list == (if is_arrival { &stop.transfers_in } else { &stop.transfers_out }),
                list@ == hop_list(t, mi, is_arrival),
                x <= list@.len(),
                buffer@ == stop_hops(state, t, walks, query, mi, li as int, is_arrival) + transfer_hops(
                    state,
                    t,
                    query,
                    mi,
                    li as int,
                    x as int,
                    is_arrival,
                ),
                forall|k: int|
                    0 <= k < buffer@.len() ==> sound_update(state, t, #[trigger] buffer@[k], is_arrival)
                        && hop_update(state, t, walks, query, buffer@[k], is_arrival)
                        && hop_from(state, t, walks, query, mi, buffer@[k], is_arrival),
                forall|l2: int, x2: int|
                    0 <= l2 < li && 0 <= x2 < hop_list(t, mi, is_arrival).len()
                        && transfer_offered(state, t, query, mi, l2, x2, is_arrival)
                        ==> buffer@.contains(#[trigger] transfer_hop(state, t, query, mi, l2, x2, is_arrival)),
                forall|x2: int|
                    0 <= x2 < x && transfer_offered(state, t, query, mi, li as int, x2, is_arrival)
                        ==> buffer@.contains(#[trigger] transfer_hop(state, t, query, mi, li as int, x2, is_arrival)),
                forall|l2: int, w2: int|
                    0 <= l2 < li && 0 <= w2 < walks.by_stop@[mi]@.len()
                        && walk_offered(state, t, walks, query, mi, l2, w2, is_arrival)
                        ==> buffer@.contains(#[trigger] walk_hop(state, t, walks, query, mi, l2, w2, is_arrival)),
            decreases list@.len() - x,
        {
            let ti = list[x];
            let transfer = t.transfers[ti];
            let ghost hop = transfer_hop(state, t, query, mi, li as int, x as int, is_arrival);
            let ghost before = buffer@;
            proof {
                assert(t.transfer_wf(ti as int));
                assert(state.current_labels@[mi]@[li as int] == current_label);
                assert(hop_list(t, mi, is_arrival)[x as int] == ti);
            }
            let transfer_time = calculate_transfer_time(&transfer);
            let transfer_cost = add_cost(current_label.cost, transfer_time, query.transfer_penalty);
            if is_arrival {
                if !state.tau_star[transfer.from_stop.as_usize()].is_dominated(Time(0), transfer_cost, true)
                    && !state.target_tau_star.is_dominated(Time(0), transfer_cost, true)
                    && current_label.time.0 >= transfer_time {
                    let departure_time = sub_time(current_label.time, transfer_time);
                    if !state.tau_star[transfer.from_stop.as_usize()].is_dominated(departure_time, transfer_cost, true)
                        && !state.target_tau_star.is_dominated(departure_time, transfer_cost, true) {
                        let u = Update::new(
                            transfer.from_stop,
                            departure_time,
                            transfer_cost,
                            Parent::Transfer {
                                from_stop: stop_idx,
                                departure_time: LiveTime::scheduled_only(departure_time),
                                arrival_time: LiveTime::scheduled_only(current_label.time),
                            },
                        );
                        buffer.push(u);
                        proof {
                            assert(u == hop);
                            assert(hop_update(state, t, walks, query, u, is_arrival));
                            assert(hop_from(state, t, walks, query, mi, u, is_arrival));
                            lemma_push_grows(before, u);
                        }
                    }
                }
            } else {
                let arrival_time = add_time(current_label.time, transfer_time);
                if !state.tau_star[transfer.to_stop.as_usize()].is_dominated(arrival_time, transfer_cost, false)
                    && !state.target_tau_star.is_dominated(arrival_time, transfer_cost, false) {
                    let u = Update::new(
                        transfer.to_stop,
                        arrival_time,
                        transfer_cost,
                        Parent::Transfer {
                            from_stop: transfer.from_stop,
                            departure_time: LiveTime::scheduled_only(current_label.time),
                            arrival_time: LiveTime::scheduled_only(arrival_time),
                        },
                    );
                    buffer.push(u);
                    proof {
                        assert(transfer.from_stop == stop_idx);
                        assert(u == hop);
                        assert(hop_update(state, t, walks, query, u, is_arrival));
                        assert(hop_from(state, t, walks, query, mi, u, is_arrival));
                        lemma_push_grows(before, u);
                    }
                }
            }
            proof {
                assert(buffer@ =~= stop_hops(state, t, walks, query, mi, li as int, is_arrival) + transfer_hops(
                    state,
                    t,
                    query,
                    mi,
                    li as int,
                    x + 1,
                    is_arrival,
                ));
            }
            x += 1;
        }
        let ghost with_transfers = stop_hops(state, t, walks, query, mi, li as int, is_arrival) + transfer_hops(
            state,
            t,
            query,
            mi,
            li as int,
            hop_list(t, mi, is_arrival).len() as int,
            is_arrival,
        );
        proof {
            assert(buffer@ =~= with_transfers + walk_hops(state, t, walks, query, mi, li as int, 0, is_arrival));
        }
        // Spatial walking.
        if stop.coordinate.is_some() {
            let near = &walks.by_stop[m];
            let mut w: usize = 0;
            while w < near.len()
                invariant
                    t.wf(),
                    state.wf(t),
                    walks.wf(t),
                    stop_ok(t, stop_idx),
                    m == stop_idx.0,
                    mi == m,
                    stop_idx == StopIdx(m as u32),
                    stop == &t.stops@[m as int],
                    stop.coordinate is Some,
                    state.marked_stops@[m as int],
                    labels@ == state.current_labels@[m as int]@,
                    li < labels@.len(),
                    current_label == labels@[li as int],
                    near == &walks.by_stop@[m as int],
                    w <= near@.len(),
                    buffer@ == with_transfers + walk_hops(state, t, walks, query, mi, li as int, w as int, is_arrival),
                    forall|k: int|
                        0 <= k < buffer@.len() ==> sound_update(state, t, #[trigger] buffer@[k], is_arrival)
                            && hop_update(state, t, walks, query, buffer@[k], is_arrival)
                            && hop_from(state, t, walks, query, mi, buffer@[k], is_arrival),
                    forall|l2: int, x2: int|
                        0 <= l2 <= li && 0 <= x2 < hop_list(t, mi, is_arrival).len()
                            && transfer_offered(state, t, query, mi, l2, x2, is_arrival)
                            ==> buffer@.contains(#[trigger] transfer_hop(state, t, query, mi, l2, x2, is_arrival)),
                    forall|l2: int, w2: int|
                        0 <= l2 < li && 0 <= w2 < walks.by_stop@[mi]@.len()
                            && walk_offered(state, t, walks, query, mi, l2, w2, is_arrival)
                            ==> buffer@.contains(#[trigger] walk_hop(state, t, walks, query, mi, l2, w2, is_arrival)),
                    forall|w2: int|
                        0 <= w2 < w && walk_offered(state, t, walks, query, mi, li as int, w2, is_arrival)
                            ==> buffer@.contains(#[trigger] walk_hop(state, t, walks, query, mi, li as int, w2, is_arrival)),
                decreases near@.len() - w,
            {
                let (other_stop, walk) = near[w];
                let ghost hop = walk_hop(state, t, walks, query, mi, li as int, w as int, is_arrival);
                let ghost before = buffer@;
                proof {
                    assert(walk_list_ok(t, walks.by_stop@[m as int]@));
                    assert(stop_ok(t, near@[w as int].0));
                    assert(state.current_labels@[mi]@[li as int] == current_label);
                }
                if t.stops[other_stop.as_usize()].trip_count != 0 {
                    let walk_time = walk.0;
                    let walk_cost = add_cost(current_label.cost, walk_time, query.walk_penalty);
                    if is_arrival {
                        if current_label.time.0 >= walk_time {
                            let departure_time = sub_time(current_label.time, walk_time);
                            if !state.tau_star[other_stop.as_usize()].is_dominated(departure_time, walk_cost, true)
                                && !state.target_tau_star.is_dominated(departure_time, walk_cost, true) {
                                let u = Update::new(
                                    other_stop,
                                    departure_time,
                                    walk_cost,
                                    Parent::Walk {
                                        from_stop: stop_idx,
                                        departure_time: LiveTime::scheduled_only(departure_time),
                                        arrival_time: LiveTime::scheduled_only(current_label.time),
                                    },
                                );
                                buffer.push(u);
                                proof {
                                    assert(u == hop);
                                    assert(hop_update(state, t, walks, query, u, is_arrival));
                                    assert(hop_from(state, t, walks, query, mi, u, is_arrival));
                                    lemma_push_grows(before, u);
                                }
                            }
                        }
                    } else {
                        let arrival_time = add_time(current_label.time, walk_time);
                        if !state.tau_star[other_stop.as_usize()].is_dominated(arrival_time, walk_cost, false)
                            && !state.target_tau_star.is_dominated(arrival_time, walk_cost, false) {
                            let u = Update::new(
                                other_stop,
                                arrival_time,
                                walk_cost,
                                Parent::Walk {
                                    from_stop: stop_idx,
                                    departure_time: LiveTime::scheduled_only(current_label.time),
                                    arrival_time: LiveTime::scheduled_only(arrival_time),
                                },
                            );
                            buffer.push(u);
                            proof {
                                assert(u == hop);
                                assert(hop_update(state, t, walks, query, u, is_arrival));
                                assert(hop_from(state, t, walks, query, mi, u, is_arrival));
                                lemma_push_grows(before, u);
                            }
                        }
                    }
                }
                proof {
                    assert(buffer@ =~= with_transfers + walk_hops(state, t, walks, query, mi, li as int, w + 1, is_arrival));
                }
                w += 1;
            }
        }
        proof {
            if !t.stops@[mi].coordinate.is_some() {
                assert forall|w2: int|
                    0 <= w2 < walks.by_stop@[mi]@.len() implies !walk_offered(state, t, walks, query, mi, li as int, w2, is_arrival) by {}
                lemma_no_walks(state, t, walks, query, mi, li as int, walks.by_stop@[mi]@.len() as int, is_arrival);
            }
            assert(buffer@ =~= stop_hops(state, t, walks, query, mi, li + 1, is_arrival));
        }
        li += 1;
    }
    buffer
}

/// Joining keeps the hops a sequence has.
proof fn lemma_has_hops_grows(
    state: &State,
    t: &Timetable,
    walks: &Walks,
    query: &RaptorQuery,
    m: int,
    s: Seq<Update>,
    r: Seq<Update>,
    is_arrival: bool,
)
    requires
        has_hops_of(state, t, walks, query, m, s, is_arrival),
    ensures
        has_hops_of(state, t, walks, query, m, s + r, is_arrival),
        has_hops_of(state, t, walks, query, m, r + s, is_arrival),
{
    lemma_contains_grows(s, r);
}

/// Offers the transfers and walks of every marked stop: the hops that the
/// search offers, in the order of [`hops_out`].
fn explore_hops(query: &RaptorQuery, t: &Timetable, walks: &Walks, state: &State, is_arrival: bool) -> (updates: Vec<Update>)
    requires
        t.wf(),
        state.wf(t),
        walks.wf(t),
    ensures
        forall|k: int|
            0 <= k < updates@.len() ==> sound_update(state, t, #[trigger] updates@[k], is_arrival)
                && hop_update(state, t, walks, query, updates@[k], is_arrival)
                && offered_hop(state, t, walks, query, updates@[k], is_arrival),
        forall|m: int|
            0 <= m < t.stops@.len() && #[trigger] state.marked_stops@[m] ==> has_hops_of(state, t, walks, query, m, updates@, is_arrival),
        updates@ == hops_out(state, t, walks, query, is_arrival, t.stops@.len() as int),
{
    let n = state.marked_stops.len();
    let mut updates: Vec<Update> = Vec::new();
    let mut i: usize = 0;
    while i < n
        invariant
            t.wf(),
            state.wf(t),
            walks.wf(t),
            n == state.marked_stops@.len(),
            n == t.stops@.len(),
            i <= n,
            updates@ == hops_out(state, t, walks, query, is_arrival, i as int),
            forall|k: int|
                0 <= k < updates@.len() ==> sound_update(state, t, #[trigger] updates@[k], is_arrival)
                    && hop_update(state, t, walks, query, updates@[k], is_arrival)
                    && offered_hop(state, t, walks, query, updates@[k], is_arrival),
            forall|m: int|
                0 <= m < i && #[trigger] state.marked_stops@[m] ==> has_hops_of(state, t, walks, query, m, updates@, is_arrival),
        decreases n - i,
    {
        if state.marked_stops[i] {
            let buffer = hops_from_stop(query, t, walks, state, StopIdx(i as u32), is_arrival);
            let ghost old_updates = updates@;
            updates = merge_buffers(updates, buffer);
            proof {
                assert(updates@ == hops_out(state, t, walks, query, is_arrival, i + 1));
                assert forall|k: int| 0 <= k < updates@.len() implies sound_update(state, t, #[trigger] updates@[k], is_arrival)
                    && hop_update(state, t, walks, query, updates@[k], is_arrival)
                    && offered_hop(state, t, walks, query, updates@[k], is_arrival) by {
                    if old_updates.len() >= buffer@.len() {
                        if k < old_updates.len() {
                            assert(updates@[k] == old_updates[k]);
                        } else {
                            assert(updates@[k] == buffer@[k - old_updates.len()]);
                            assert(hop_from(state, t, walks, query, i as int, buffer@[k - old_updates.len()], is_arrival));
                        }
                    } else {
                        if k < buffer@.len() {
                            assert(updates@[k] == buffer@[k]);
                            assert(hop_from(state, t, walks, query, i as int, buffer@[k], is_arrival));
                        } else {
                            assert(updates@[k] == old_updates[k - buffer@.len()]);
                        }
                    }
                }
                assert forall|m: int| 0 <= m < i + 1 && #[trigger] state.marked_stops@[m] implies has_hops_of(state, t, walks, query, m, updates@, is_arrival) by {
                    if m < i {
                        lemma_has_hops_grows(state, t, walks, query, m, old_updates, buffer@, is_arrival);
                    } else {
                        lemma_has_hops_grows(state, t, walks, query, m, buffer@, old_updates, is_arrival);
                    }
                }
            }
        }
        i += 1;
    }
    updates
}

/// Follows transfers and walks out of every marked stop. The updates are
/// the hops that the search offers (see [`offered_hop`] and
/// [`has_hops_of`]), in the order of [`hops_out`].
pub fn explore_transfers(query: &RaptorQuery, t: &Timetable, walks: &Walks, state: &mut State) -> (updates: Vec<Update>)
    requires
        t.wf(),
        old(state).wf(t),
        walks.wf(t),
    ensures
        *final(state) == *old(state),
        forall|k: int|
            0 <= k < updates@.len() ==> sound_update(old(state), t, #[trigger] updates@[k], false)
                && hop_update(old(state), t, walks, query, updates@[k], false)
                && offered_hop(old(state), t, walks, query, updates@[k], false),
        forall|m: int|
            0 <= m < t.stops@.len() && #[trigger] old(state).marked_stops@[m] ==> has_hops_of(old(state), t, walks, query, m, updates@, false),
        updates@ == hops_out(old(state), t, walks, query, false, t.stops@.len() as int),
{
    explore_hops(query, t, walks, state, false)
}

/// Follows transfers and walks into every marked stop, backward in time.
/// The updates are the hops that the search offers, in the order of
/// [`hops_out`].
pub fn explore_transfers_reverse(query: &RaptorQuery, t: &Timetable, walks: &Walks, state: &mut State) -> (updates: Vec<Update>)
    requires
        t.wf(),
        old(state).wf(t),
        walks.wf(t),
    ensures
        *final(state) == *old(state),
        forall|k: int|
            0 <= k < updates@.len() ==> sound_update(old(state), t, #[trigger] updates@[k], true)
                && hop_update(old(state), t, walks, query, updates@[k], true)
                && offered_hop(old(state), t, walks, query, updates@[k], true),
        forall|m: int|
            0 <= m < t.stops@.len() && #[trigger] old(state).marked_stops@[m] ==> has_hops_of(old(state), t, walks, query, m, updates@, true),
        updates@ == hops_out(old(state), t, walks, query, true, t.stops@.len() as int),
{
    explore_hops(query, t, walks, state, true)
}

} // verus!
