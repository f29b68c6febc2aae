//! What the steps of a search promise, stated over their inputs and
//! results: the rides a scan offers, the time a transfer takes, which stop
//! and round the target's best journey is credited to, and the stops a
//! ride leg passes.

use vstd::prelude::*;

use crate::network::{Duration, StopIdx, Time, Timetable, Transfer, TripIdx, TripPatternIdx};
use crate::raptor::explorer::{
    Scan, alightable, arr_at, boardable, dep_at, earliest_at, earliest_catch, earliest_trip,
    latest_at, latest_reach, latest_trip, pattern_trip, pattern_scan, hop_list, transfer_hop, walk_hop, sat_sub, scan_board_fwd, scan_board_rev, scan_fwd, scan_ride_fwd,
    scan_ride_rev, scan_rev, spec_transfer_time, stop_at, stop_time_of, time_or,
};
use crate::raptor::front::{ParetoLabel, dominated_in, dominates, min_cost, spec_add, survivors};
use crate::raptor::itinerary::{
    Itinerary, LegStop, LegType, LegView, chain_legs, inner_walk, is_recorded_journey, journey_end_stop,
    journey_legs, legs_view, merge_view_step, merge_views, outer_walk, parent_leg, walk_if_moving,
};
use crate::raptor::query::{Location, RaptorQuery};
use crate::raptor::state::{State, label_of};
use crate::raptor::{LiveTime, Parent, SequnceIdx, Update, Walks, cost_add, offer_target};

verus! {

// ---------------------------------------------------------------------------
// Rides offered by a scan.

/// The ride on `trip`, caught at position `board` (forward; left there,
/// backward) at `cost`, to position `i` (forward; from it, backward): an
/// update for the stop at `i`, at the trip's scheduled time there (its
/// arrival forward, with `u32::MAX` for a missing time; its departure
/// backward, with zero), costing `cost` plus the ride's scheduled length
/// weighted by the transit penalty.
pub open spec fn ride_to(
    t: &Timetable,
    query: &RaptorQuery,
    pattern: TripPatternIdx,
    trip: TripIdx,
    board: Option<SequnceIdx>,
    cost: u64,
    i: int,
    is_arrival: bool,
) -> Update {
    let other = match board {
        Some(b) => b,
        None => SequnceIdx::spec_none(),
    };
    if is_arrival {
        let dep = time_or(stop_time_of(t, trip, i).departure_time, 0);
        let arr = time_or(stop_time_of(t, trip, other.0 as int).arrival_time, 0);
        Update {
            stop: stop_at(t, pattern, i),
            time: dep,
            cost: cost_add(cost, sat_sub(arr.0, dep.0), query.transit_penalty),
            parent: Parent::Transit {
                boarding_p: SequnceIdx(i as u32),
                alighting_p: other,
                trip,
                departure_time: LiveTime::scheduled_only_spec(dep),
                arrival_time: LiveTime::scheduled_only_spec(arr),
            },
        }
    } else {
        let arr = time_or(stop_time_of(t, trip, i).arrival_time, u32::MAX);
        let dep = time_or(stop_time_of(t, trip, other.0 as int).departure_time, u32::MAX);
        Update {
            stop: stop_at(t, pattern, i),
            time: arr,
            cost: cost_add(cost, sat_sub(arr.0, dep.0), query.transit_penalty),
            parent: Parent::Transit {
                boarding_p: other,
                alighting_p: SequnceIdx(i as u32),
                trip,
                departure_time: LiveTime::scheduled_only_spec(dep),
                arrival_time: LiveTime::scheduled_only_spec(arr),
            },
        }
    }
}

/// A label its front dominates stays dominated at any higher cost.
proof fn lemma_dominated_costlier(s: Seq<ParetoLabel>, time: Time, c: u64, c2: u64, is_arrival: bool)
    requires
        dominated_in(s, ParetoLabel { time, cost: c }, is_arrival),
        c <= c2,
    ensures
        dominated_in(s, ParetoLabel { time, cost: c2 }, is_arrival),
{
    let i = choose|i: int| 0 <= i < s.len() && dominates(#[trigger] s[i], ParetoLabel { time, cost: c }, is_arrival);
    assert(dominates(s[i], ParetoLabel { time, cost: c2 }, is_arrival));
}

/// Catching trips offers nothing.
proof fn lemma_board_fwd_keeps_out(t: &Timetable, query: &RaptorQuery, pattern: TripPatternIdx, sc: Scan, i: int, labels: Seq<ParetoLabel>)
    ensures
        scan_board_fwd(t, query, pattern, sc, i, labels).out == sc.out,
    decreases labels.len(),
{
    if labels.len() > 0 {
        lemma_board_fwd_keeps_out(t, query, pattern, sc, i, labels.drop_last());
    }
}

/// Catching trips offers nothing.
proof fn lemma_board_rev_keeps_out(t: &Timetable, query: &RaptorQuery, pattern: TripPatternIdx, sc: Scan, i: int, labels: Seq<ParetoLabel>)
    ensures
        scan_board_rev(t, query, pattern, sc, i, labels).out == sc.out,
    decreases labels.len(),
{
    if labels.len() > 0 {
        lemma_board_rev_keeps_out(t, query, pattern, sc, i, labels.drop_last());
    }
}

/// Pushing keeps what a sequence holds.
proof fn lemma_push_keeps(s: Seq<Update>, u: Update)
    ensures
        forall|v: Update| s.contains(v) ==> #[trigger] s.push(u).contains(v),
{
    assert forall|v: Update| s.contains(v) implies #[trigger] s.push(u).contains(v) by {
        let k = choose|k: int| 0 <= k < s.len() && s[k] == v;
        assert(s.push(u)[k] == v);
    }
}

/// A forward scan never takes back an update it offered.
proof fn lemma_scan_fwd_grows(state: &State, t: &Timetable, query: &RaptorQuery, pattern: TripPatternIdx, start: int, j: int, k: int)
    requires
        j <= k,
    ensures
        forall|u: Update|
            scan_fwd(state, t, query, pattern, start, j).out.contains(u) ==> #[trigger] scan_fwd(
                state,
                t,
                query,
                pattern,
                start,
                k,
            ).out.contains(u),
    decreases k - j,
{
    if j < k && k > start {
        lemma_scan_fwd_grows(state, t, query, pattern, start, j, k - 1);
        let prev = scan_fwd(state, t, query, pattern, start, k - 1);
        let a = scan_ride_fwd(state, t, query, pattern, prev, k - 1);
        assert forall|u: Update| prev.out.contains(u) implies #[trigger] a.out.contains(u) by {
            if a.out != prev.out {
                lemma_push_keeps(prev.out, a.out.last());
                assert(a.out == prev.out.push(a.out.last()));
            }
        }
        lemma_board_fwd_keeps_out(t, query, pattern, a, k - 1, state.previous_labels@[stop_at(t, pattern, k - 1).0 as int]@);
    }
}

/// A backward scan never takes back an update it offered.
proof fn lemma_scan_rev_grows(state: &State, t: &Timetable, query: &RaptorQuery, pattern: TripPatternIdx, start: int, j: int, k: int)
    requires
        k <= j,
    ensures
        forall|u: Update|
            scan_rev(state, t, query, pattern, start, j).out.contains(u) ==> #[trigger] scan_rev(
                state,
                t,
                query,
                pattern,
                start,
                k,
            ).out.contains(u),
    decreases j - k,
{
    if k < j && k <= start {
        lemma_scan_rev_grows(state, t, query, pattern, start, j, k + 1);
        let prev = scan_rev(state, t, query, pattern, start, k + 1);
        let a = scan_ride_rev(state, t, query, pattern, prev, k);
        assert forall|u: Update| prev.out.contains(u) implies #[trigger] a.out.contains(u) by {
            if a.out != prev.out {
                lemma_push_keeps(prev.out, a.out.last());
                assert(a.out == prev.out.push(a.out.last()));
            }
        }
        lemma_board_rev_keeps_out(t, query, pattern, a, k, state.previous_labels@[stop_at(t, pattern, k).0 as int]@);
    }
}

/// A forward scan offers the ride to every position after the one it
/// starts from, not only to the last: where a trip is being ridden when the
/// scan reaches position `i`, and neither the best labels of the stop there
/// nor the target's dominate the ride to it, the scan's updates hold that
/// ride.
pub proof fn lemma_forward_scan_offers_every_stop(
    state: &State,
    t: &Timetable,
    query: &RaptorQuery,
    pattern: TripPatternIdx,
    start: int,
    i: int,
    trip: TripIdx,
)
    requires
        start <= i < t.trip_patterns@[pattern.0 as int].stops@.len(),
        scan_fwd(state, t, query, pattern, start, i).trip == Some(trip),
        !dominated_in(
            state.tau_star@[stop_at(t, pattern, i).0 as int]@,
            label_of(ride_to(t, query, pattern, trip, scan_fwd(state, t, query, pattern, start, i).board,
                scan_fwd(state, t, query, pattern, start, i).cost, i, false)),
            false,
        ),
        !dominated_in(
            state.target_tau_star@,
            label_of(ride_to(t, query, pattern, trip, scan_fwd(state, t, query, pattern, start, i).board,
                scan_fwd(state, t, query, pattern, start, i).cost, i, false)),
            false,
        ),
    ensures
        pattern_scan(state, t, query, pattern, start, false).contains(
            ride_to(t, query, pattern, trip, scan_fwd(state, t, query, pattern, start, i).board,
                scan_fwd(state, t, query, pattern, start, i).cost, i, false),
        ),
{
    let sc = scan_fwd(state, t, query, pattern, start, i);
    let u = ride_to(t, query, pattern, trip, sc.board, sc.cost, i, false);
    let s = stop_at(t, pattern, i);
    let arr = u.time;
    if dominated_in(state.tau_star@[s.0 as int]@, ParetoLabel { time: arr, cost: sc.cost }, false) {
        lemma_dominated_costlier(state.tau_star@[s.0 as int]@, arr, sc.cost, u.cost, false);
    }
    let a = scan_ride_fwd(state, t, query, pattern, sc, i);
    assert(a.out == sc.out.push(u));
    assert(a.out[sc.out.len() as int] == u);
    lemma_board_fwd_keeps_out(t, query, pattern, a, i, state.previous_labels@[s.0 as int]@);
    assert(scan_fwd(state, t, query, pattern, start, i + 1).out.contains(u));
    lemma_scan_fwd_grows(state, t, query, pattern, start, i + 1, t.trip_patterns@[pattern.0 as int].stops@.len() as int);
}

/// A backward scan offers the ride from every position before the one it
/// starts from, not only from the first: where a trip is being ridden when
/// the scan reaches position `i`, and neither the best labels of the stop
/// there nor the target's dominate the ride from it, the scan's updates
/// hold that ride.
pub proof fn lemma_backward_scan_offers_every_stop(
    state: &State,
    t: &Timetable,
    query: &RaptorQuery,
    pattern: TripPatternIdx,
    start: int,
    i: int,
    trip: TripIdx,
)
    requires
        0 <= i <= start,
        scan_rev(state, t, query, pattern, start, i + 1).trip == Some(trip),
        !dominated_in(
            state.tau_star@[stop_at(t, pattern, i).0 as int]@,
            label_of(ride_to(t, query, pattern, trip, scan_rev(state, t, query, pattern, start, i + 1).board,
                scan_rev(state, t, query, pattern, start, i + 1).cost, i, true)),
            true,
        ),
        !dominated_in(
            state.target_tau_star@,
            label_of(ride_to(t, query, pattern, trip, scan_rev(state, t, query, pattern, start, i + 1).board,
                scan_rev(state, t, query, pattern, start, i + 1).cost, i, true)),
            true,
        ),
    ensures
        pattern_scan(state, t, query, pattern, start, true).contains(
            ride_to(t, query, pattern, trip, scan_rev(state, t, query, pattern, start, i + 1).board,
                scan_rev(state, t, query, pattern, start, i + 1).cost, i, true),
        ),
{
    let sc = scan_rev(state, t, query, pattern, start, i + 1);
    let u = ride_to(t, query, pattern, trip, sc.board, sc.cost, i, true);
    let s = stop_at(t, pattern, i);
    let dep = u.time;
    if dominated_in(state.tau_star@[s.0 as int]@, ParetoLabel { time: dep, cost: sc.cost }, true) {
        lemma_dominated_costlier(state.tau_star@[s.0 as int]@, dep, sc.cost, u.cost, true);
    }
    let a = scan_ride_rev(state, t, query, pattern, sc, i);
    assert(a.out == sc.out.push(u));
    assert(a.out[sc.out.len() as int] == u);
    lemma_board_rev_keeps_out(t, query, pattern, a, i, state.previous_labels@[s.0 as int]@);
    assert(scan_rev(state, t, query, pattern, start, i).out.contains(u));
    lemma_scan_rev_grows(state, t, query, pattern, start, i, 0);
}

/// The scan rides a trip that departs position `p` by time `d` (forward).
pub open spec fn rides_leaving_by(t: &Timetable, sc: Scan, p: int, d: u32) -> bool {
    &&& sc.trip is Some
    &&& time_or(stop_time_of(t, sc.trip.unwrap(), p).departure_time, u32::MAX).0 <= d
}

/// The scan rides a trip that arrives at position `p` no earlier than time
/// `a` (backward).
pub open spec fn rides_arriving_from(t: &Timetable, sc: Scan, p: int, a: u32) -> bool {
    &&& sc.trip is Some
    &&& time_or(stop_time_of(t, sc.trip.unwrap(), p).arrival_time, 0).0 >= a
}

/// Catching trips at `p` never swaps the trip ridden for one leaving later.
proof fn lemma_board_fwd_keeps_bound(t: &Timetable, query: &RaptorQuery, pattern: TripPatternIdx, sc: Scan, p: int, labels: Seq<ParetoLabel>, d: u32)
    requires
        rides_leaving_by(t, sc, p, d),
    ensures
        rides_leaving_by(t, scan_board_fwd(t, query, pattern, sc, p, labels), p, d),
    decreases labels.len(),
{
    if labels.len() > 0 {
        lemma_board_fwd_keeps_bound(t, query, pattern, sc, p, labels.drop_last(), d);
    }
}

/// Catching trips at `p` never swaps the trip ridden for one arriving
/// earlier.
proof fn lemma_board_rev_keeps_bound(t: &Timetable, query: &RaptorQuery, pattern: TripPatternIdx, sc: Scan, p: int, labels: Seq<ParetoLabel>, a: u32)
    requires
        rides_arriving_from(t, sc, p, a),
    ensures
        rides_arriving_from(t, scan_board_rev(t, query, pattern, sc, p, labels), p, a),
    decreases labels.len(),
{
    if labels.len() > 0 {
        lemma_board_rev_keeps_bound(t, query, pattern, sc, p, labels.drop_last(), a);
    }
}

/// Where label `li` can catch trip `k` at `p`, catching trips with the
/// labels rides a trip that leaves `p` no later than trip `k`.
proof fn lemma_board_fwd_catches(t: &Timetable, query: &RaptorQuery, pattern: TripPatternIdx, sc: Scan, p: int, labels: Seq<ParetoLabel>, li: int, k: int)
    requires
        0 <= li < labels.len(),
        0 <= k < t.trip_patterns@[pattern.0 as int].trips@.len(),
        boardable(t, query.date, pattern, k, p, labels[li].time),
        dep_at(t, pattern, k, p) < u32::MAX,
    ensures
        rides_leaving_by(t, scan_board_fwd(t, query, pattern, sc, p, labels), p, dep_at(t, pattern, k, p)),
    decreases labels.len(),
{
    let d = dep_at(t, pattern, k, p);
    let rest = labels.drop_last();
    if li < labels.len() - 1 {
        assert(rest[li] == labels[li]);
        lemma_board_fwd_catches(t, query, pattern, sc, p, rest, li, k);
        let w = scan_board_fwd(t, query, pattern, sc, p, rest);
        lemma_board_fwd_keeps_bound(t, query, pattern, w, p, seq![labels.last()], d);
        assert(seq![labels.last()].drop_last() =~= Seq::<ParetoLabel>::empty());
    } else {
        let w = scan_board_fwd(t, query, pattern, sc, p, rest);
        let l = labels.last();
        assert(l == labels[li]);
        let cur = match w.trip {
            Some(tr) => time_or(stop_time_of(t, tr, p).departure_time, u32::MAX),
            None => Time(u32::MAX),
        };
        if l.time.0 < cur.0 {
            lemma_least_departure(t, query.date, pattern, p, l.time, k);
            let ct = earliest_trip(t, query.date, pattern, p, l.time).unwrap();
            assert(earliest_catch(t, query.date, pattern, p, l.time, ct));
            assert(time_or(stop_time_of(t, ct, p).departure_time, u32::MAX).0 <= d);
        } else {
            assert(w.trip is Some);
        }
    }
}

/// Among the trips of a pattern that can be caught at `p` by time `ready`,
/// one leaves first (the first of those leaving then).
proof fn lemma_least_departure(t: &Timetable, date: crate::network::Date, pattern: TripPatternIdx, p: int, ready: Time, k: int)
    requires
        0 <= k < t.trip_patterns@[pattern.0 as int].trips@.len(),
        boardable(t, date, pattern, k, p, ready),
    ensures
        exists|tr: TripIdx| earliest_catch(t, date, pattern, p, ready, tr),
        forall|tr: TripIdx|
            #[trigger] earliest_catch(t, date, pattern, p, ready, tr) ==> time_or(stop_time_of(t, tr, p).departure_time, u32::MAX).0
                <= dep_at(t, pattern, k, p),
{
    let n = t.trip_patterns@[pattern.0 as int].trips@.len();
    let found = least_first(t, date, pattern, p, ready, n as int);
    let m = found.unwrap();
    assert(earliest_at(t, date, pattern, p, ready, m));
    assert(earliest_catch(t, date, pattern, p, ready, pattern_trip(t, pattern, m)));
    assert forall|tr: TripIdx| #[trigger] earliest_catch(t, date, pattern, p, ready, tr) implies time_or(
        stop_time_of(t, tr, p).departure_time,
        u32::MAX,
    ).0 <= dep_at(t, pattern, k, p) by {
        let kk = choose|kk: int| #[trigger] pattern_trip(t, pattern, kk) == tr && earliest_at(t, date, pattern, p, ready, kk);
        assert(earliest_at(t, date, pattern, p, ready, kk));
        if kk != k {
            assert(dep_at(t, pattern, kk, p) <= dep_at(t, pattern, k, p));
        }
    }
}

/// The earliest leaving, first such, boardable trip among the first `m`,
/// if any is boardable.
proof fn least_first(t: &Timetable, date: crate::network::Date, pattern: TripPatternIdx, p: int, ready: Time, m: int) -> (r: Option<int>)
    requires
        0 <= m <= t.trip_patterns@[pattern.0 as int].trips@.len(),
    ensures
        r matches Some(x) ==> 0 <= x < m && boardable(t, date, pattern, x, p, ready)
            && (forall|j: int| 0 <= j < x && boardable(t, date, pattern, j, p, ready) ==> dep_at(t, pattern, j, p) > dep_at(t, pattern, x, p))
            && (forall|j: int| x < j < m && boardable(t, date, pattern, j, p, ready) ==> dep_at(t, pattern, j, p) >= dep_at(t, pattern, x, p)),
        r is None ==> forall|j: int| 0 <= j < m ==> !boardable(t, date, pattern, j, p, ready),
    decreases m,
{
    if m == 0 {
        None
    } else {
        let r0 = least_first(t, date, pattern, p, ready, m - 1);
        if boardable(t, date, pattern, m - 1, p, ready) {
            match r0 {
                Some(x) => if dep_at(t, pattern, m - 1, p) < dep_at(t, pattern, x, p) {
                    Some(m - 1)
                } else {
                    Some(x)
                },
                None => Some(m - 1),
            }
        } else {
            r0
        }
    }
}

/// The latest arriving, last such, trip among the first `m` that reaches
/// position `p` by `ready`, if any does.
proof fn latest_last(t: &Timetable, date: crate::network::Date, pattern: TripPatternIdx, p: int, ready: Time, m: int) -> (r: Option<int>)
    requires
        0 <= m <= t.trip_patterns@[pattern.0 as int].trips@.len(),
    ensures
        r matches Some(x) ==> 0 <= x < m && alightable(t, date, pattern, x, p, ready)
            && (forall|j: int| 0 <= j < x && alightable(t, date, pattern, j, p, ready) ==> arr_at(t, pattern, j, p) <= arr_at(t, pattern, x, p))
            && (forall|j: int| x < j < m && alightable(t, date, pattern, j, p, ready) ==> arr_at(t, pattern, j, p) < arr_at(t, pattern, x, p)),
        r is None ==> forall|j: int| 0 <= j < m ==> !alightable(t, date, pattern, j, p, ready),
    decreases m,
{
    if m == 0 {
        None
    } else {
        let r0 = latest_last(t, date, pattern, p, ready, m - 1);
        if alightable(t, date, pattern, m - 1, p, ready) {
            match r0 {
                Some(x) => if arr_at(t, pattern, m - 1, p) >= arr_at(t, pattern, x, p) {
                    Some(m - 1)
                } else {
                    Some(x)
                },
                None => Some(m - 1),
            }
        } else {
            r0
        }
    }
}

/// Among the trips of a pattern that reach position `p` by time `ready`,
/// one arrives last (the last of those arriving then).
proof fn lemma_latest_arrival(t: &Timetable, date: crate::network::Date, pattern: TripPatternIdx, p: int, ready: Time, k: int)
    requires
        0 <= k < t.trip_patterns@[pattern.0 as int].trips@.len(),
        alightable(t, date, pattern, k, p, ready),
    ensures
        exists|tr: TripIdx| latest_reach(t, date, pattern, p, ready, tr),
        forall|tr: TripIdx|
            #[trigger] latest_reach(t, date, pattern, p, ready, tr) ==> time_or(stop_time_of(t, tr, p).arrival_time, 0).0
                >= arr_at(t, pattern, k, p),
{
    let n = t.trip_patterns@[pattern.0 as int].trips@.len();
    let found = latest_last(t, date, pattern, p, ready, n as int);
    let m = found.unwrap();
    assert(latest_at(t, date, pattern, p, ready, m));
    assert(latest_reach(t, date, pattern, p, ready, pattern_trip(t, pattern, m)));
    assert forall|tr: TripIdx| #[trigger] latest_reach(t, date, pattern, p, ready, tr) implies time_or(
        stop_time_of(t, tr, p).arrival_time,
        0,
    ).0 >= arr_at(t, pattern, k, p) by {
        let kk = choose|kk: int| #[trigger] pattern_trip(t, pattern, kk) == tr && latest_at(t, date, pattern, p, ready, kk);
        assert(latest_at(t, date, pattern, p, ready, kk));
        if kk != k {
            assert(arr_at(t, pattern, kk, p) >= arr_at(t, pattern, k, p));
        }
    }
}

/// Where label `li` can reach trip `k` at `p` (backward), catching trips
/// with the labels rides a trip that arrives at `p` no earlier than trip
/// `k`.
proof fn lemma_board_rev_catches(t: &Timetable, query: &RaptorQuery, pattern: TripPatternIdx, sc: Scan, p: int, labels: Seq<ParetoLabel>, li: int, k: int)
    requires
        0 <= li < labels.len(),
        0 <= k < t.trip_patterns@[pattern.0 as int].trips@.len(),
        alightable(t, query.date, pattern, k, p, labels[li].time),
    ensures
        rides_arriving_from(t, scan_board_rev(t, query, pattern, sc, p, labels), p, arr_at(t, pattern, k, p)),
    decreases labels.len(),
{
    let a = arr_at(t, pattern, k, p);
    let rest = labels.drop_last();
    if li < labels.len() - 1 {
        assert(rest[li] == labels[li]);
        lemma_board_rev_catches(t, query, pattern, sc, p, rest, li, k);
        let w = scan_board_rev(t, query, pattern, sc, p, rest);
        lemma_board_rev_keeps_bound(t, query, pattern, w, p, seq![labels.last()], a);
        assert(seq![labels.last()].drop_last() =~= Seq::<ParetoLabel>::empty());
    } else {
        let l = labels.last();
        assert(l == labels[li]);
        lemma_latest_arrival(t, query.date, pattern, p, l.time, k);
        let lt = latest_trip(t, query.date, pattern, p, l.time).unwrap();
        assert(latest_reach(t, query.date, pattern, p, l.time, lt));
        assert(time_or(stop_time_of(t, lt, p).arrival_time, 0).0 >= a);
    }
}

/// A forward scan catches, at each position it passes, a trip leaving no
/// later than any trip that a label of the previous round at the stop there
/// can catch (one running on the query's date and leaving at or after the
/// label's time).
pub proof fn lemma_forward_scan_catches_earliest(
    state: &State,
    t: &Timetable,
    query: &RaptorQuery,
    pattern: TripPatternIdx,
    start: int,
    p: int,
    li: int,
    k: int,
)
    requires
        start <= p,
        0 <= li < state.previous_labels@[stop_at(t, pattern, p).0 as int]@.len(),
        0 <= k < t.trip_patterns@[pattern.0 as int].trips@.len(),
        boardable(t, query.date, pattern, k, p, state.previous_labels@[stop_at(t, pattern, p).0 as int]@[li].time),
        dep_at(t, pattern, k, p) < u32::MAX,
    ensures
        rides_leaving_by(t, scan_fwd(state, t, query, pattern, start, p + 1), p, dep_at(t, pattern, k, p)),
{
    let a = scan_ride_fwd(state, t, query, pattern, scan_fwd(state, t, query, pattern, start, p), p);
    lemma_board_fwd_catches(t, query, pattern, a, p, state.previous_labels@[stop_at(t, pattern, p).0 as int]@, li, k);
}

/// A backward scan catches, at each position it passes, a trip arriving no
/// earlier than any trip that a label of the previous round at the stop
/// there can reach (one running on the query's date and arriving at or
/// before the label's time).
pub proof fn lemma_backward_scan_catches_latest(
    state: &State,
    t: &Timetable,
    query: &RaptorQuery,
    pattern: TripPatternIdx,
    start: int,
    p: int,
    li: int,
    k: int,
)
    requires
        0 <= p <= start,
        0 <= li < state.previous_labels@[stop_at(t, pattern, p).0 as int]@.len(),
        0 <= k < t.trip_patterns@[pattern.0 as int].trips@.len(),
        alightable(t, query.date, pattern, k, p, state.previous_labels@[stop_at(t, pattern, p).0 as int]@[li].time),
    ensures
        rides_arriving_from(t, scan_rev(state, t, query, pattern, start, p), p, arr_at(t, pattern, k, p)),
{
    let a = scan_ride_rev(state, t, query, pattern, scan_rev(state, t, query, pattern, start, p + 1), p);
    lemma_board_rev_catches(t, query, pattern, a, p, state.previous_labels@[stop_at(t, pattern, p).0 as int]@, li, k);
}

/// Catching at `p` (forward) leaves the scan as it was, or rides the
/// earliest trip that one of `labels` catches there, caught at `p`, at the
/// label's cost plus the wait for the trip weighted by the transit penalty.
pub open spec fn caught_fwd(t: &Timetable, query: &RaptorQuery, pattern: TripPatternIdx, before: Scan, after: Scan, p: int, labels: Seq<ParetoLabel>) -> bool {
    ||| (after.trip == before.trip && after.board == before.board && after.cost == before.cost)
    ||| exists|li: int|
        0 <= li < labels.len() && after.trip == earliest_trip(t, query.date, pattern, p, (#[trigger] labels[li]).time)
            && after.board == Some(SequnceIdx(p as u32)) && after.cost == cost_add(
            labels[li].cost,
            sat_sub(time_or(stop_time_of(t, after.trip.unwrap(), p).departure_time, u32::MAX).0, labels[li].time.0),
            query.transit_penalty,
        )
}

/// Catching at `p` (backward) leaves the scan as it was, or rides the
/// latest trip that one of `labels` reaches there, left at `p`, at the
/// label's cost plus the wait after the trip weighted by the transit
/// penalty.
pub open spec fn caught_rev(t: &Timetable, query: &RaptorQuery, pattern: TripPatternIdx, before: Scan, after: Scan, p: int, labels: Seq<ParetoLabel>) -> bool {
    ||| (after.trip == before.trip && after.board == before.board && after.cost == before.cost)
    ||| exists|li: int|
        0 <= li < labels.len() && after.trip == latest_trip(t, query.date, pattern, p, (#[trigger] labels[li]).time)
            && after.board == Some(SequnceIdx(p as u32)) && after.cost == cost_add(
            labels[li].cost,
            sat_sub(labels[li].time.0, time_or(stop_time_of(t, after.trip.unwrap(), p).arrival_time, 0).0),
            query.transit_penalty,
        )
}

proof fn lemma_board_fwd_cost(t: &Timetable, query: &RaptorQuery, pattern: TripPatternIdx, sc: Scan, p: int, labels: Seq<ParetoLabel>)
    ensures
        caught_fwd(t, query, pattern, sc, scan_board_fwd(t, query, pattern, sc, p, labels), p, labels),
    decreases labels.len(),
{
    if labels.len() > 0 {
        let rest = labels.drop_last();
        lemma_board_fwd_cost(t, query, pattern, sc, p, rest);
        let w = scan_board_fwd(t, query, pattern, sc, p, rest);
        let out = scan_board_fwd(t, query, pattern, sc, p, labels);
        if out != w {
            assert(labels[labels.len() - 1] == labels.last());
        } else if !(w.trip == sc.trip && w.board == sc.board && w.cost == sc.cost) {
            let li = choose|li: int|
                0 <= li < rest.len() && w.trip == earliest_trip(t, query.date, pattern, p, (#[trigger] rest[li]).time)
                    && w.board == Some(SequnceIdx(p as u32)) && w.cost == cost_add(
                    rest[li].cost,
                    sat_sub(time_or(stop_time_of(t, w.trip.unwrap(), p).departure_time, u32::MAX).0, rest[li].time.0),
                    query.transit_penalty,
                );
            assert(labels[li] == rest[li]);
        }
    }
}

proof fn lemma_board_rev_cost(t: &Timetable, query: &RaptorQuery, pattern: TripPatternIdx, sc: Scan, p: int, labels: Seq<ParetoLabel>)
    ensures
        caught_rev(t, query, pattern, sc, scan_board_rev(t, query, pattern, sc, p, labels), p, labels),
    decreases labels.len(),
{
    if labels.len() > 0 {
        let rest = labels.drop_last();
        lemma_board_rev_cost(t, query, pattern, sc, p, rest);
        let w = scan_board_rev(t, query, pattern, sc, p, rest);
        let out = scan_board_rev(t, query, pattern, sc, p, labels);
        if out != w {
            assert(labels[labels.len() - 1] == labels.last());
        } else if !(w.trip == sc.trip && w.board == sc.board && w.cost == sc.cost) {
            let li = choose|li: int|
                0 <= li < rest.len() && w.trip == latest_trip(t, query.date, pattern, p, (#[trigger] rest[li]).time)
                    && w.board == Some(SequnceIdx(p as u32)) && w.cost == cost_add(
                    rest[li].cost,
                    sat_sub(rest[li].time.0, time_or(stop_time_of(t, w.trip.unwrap(), p).arrival_time, 0).0),
                    query.transit_penalty,
                );
            assert(labels[li] == rest[li]);
        }
    }
}

/// At each position it passes, a forward scan either keeps the trip it
/// rides, or switches to the earliest trip a label of the previous round at
/// the stop there catches, paying that label's cost plus the wait for the
/// trip, weighted by the transit penalty.
pub proof fn lemma_forward_scan_catch_cost(state: &State, t: &Timetable, query: &RaptorQuery, pattern: TripPatternIdx, start: int, p: int)
    requires
        start <= p,
    ensures
        caught_fwd(
            t,
            query,
            pattern,
            scan_ride_fwd(state, t, query, pattern, scan_fwd(state, t, query, pattern, start, p), p),
            scan_fwd(state, t, query, pattern, start, p + 1),
            p,
            state.previous_labels@[stop_at(t, pattern, p).0 as int]@,
        ),
{
    let a = scan_ride_fwd(state, t, query, pattern, scan_fwd(state, t, query, pattern, start, p), p);
    lemma_board_fwd_cost(t, query, pattern, a, p, state.previous_labels@[stop_at(t, pattern, p).0 as int]@);
}

/// At each position it passes, a backward scan either keeps the trip it
/// rides, or switches to the latest trip a label of the previous round at
/// the stop there reaches, paying that label's cost plus the wait after
/// the trip, weighted by the transit penalty.
pub proof fn lemma_backward_scan_catch_cost(state: &State, t: &Timetable, query: &RaptorQuery, pattern: TripPatternIdx, start: int, p: int)
    requires
        0 <= p <= start,
    ensures
        caught_rev(
            t,
            query,
            pattern,
            scan_ride_rev(state, t, query, pattern, scan_rev(state, t, query, pattern, start, p + 1), p),
            scan_rev(state, t, query, pattern, start, p),
            p,
            state.previous_labels@[stop_at(t, pattern, p).0 as int]@,
        ),
{
    let a = scan_ride_rev(state, t, query, pattern, scan_rev(state, t, query, pattern, start, p + 1), p);
    lemma_board_rev_cost(t, query, pattern, a, p, state.previous_labels@[stop_at(t, pattern, p).0 as int]@);
}

// ---------------------------------------------------------------------------
// The time a transfer takes.

/// A transfer takes its minimum transfer time wherever that is given and
/// not zero, however long the walk between its stops; only where it is
/// missing or zero does the walking time (or nothing) count.
pub proof fn lemma_transfer_time_prefers_minimum(x: Transfer, walk: Option<Duration>)
    ensures
        x.min_transfer_time is Some && x.min_transfer_time.unwrap().0 != 0 ==> spec_transfer_time(x)
            == x.min_transfer_time.unwrap().0 && spec_transfer_time(Transfer { walk_time: walk, ..x }) == spec_transfer_time(x),
        (x.min_transfer_time is None || x.min_transfer_time == Some(Duration(0))) ==> spec_transfer_time(x) == (
        match x.walk_time {
            Some(w) => w.0,
            None => 0,
        }),
{
}

/// `a + b`, saturating at `max`.
pub open spec fn sat_add(a: int, b: int, max: int) -> int {
    if a + b > max {
        max
    } else {
        a + b
    }
}

/// A transfer from a label of stop `m` reaches the transfer's other stop
/// after (forward; before, backward) the transfer's time, at the label's
/// cost plus that time weighted by the transfer penalty, and records the
/// transfer from `m` with the times at both ends.
pub proof fn lemma_transfer_hop_moves_by_its_time(state: &State, t: &Timetable, query: &RaptorQuery, m: int, li: int, x: int, is_arrival: bool)
    ensures
        ({
            let l = state.current_labels@[m]@[li];
            let tr = t.transfers@[hop_list(t, m, is_arrival)[x] as int];
            let tt = spec_transfer_time(tr);
            let u = transfer_hop(state, t, query, m, li, x, is_arrival);
            &&& u.cost == sat_add(l.cost as int, tt * query.transfer_penalty, u64::MAX as int)
            &&& u.stop == (if is_arrival { tr.from_stop } else { tr.to_stop })
            &&& u.time.0 == (if is_arrival {
                if l.time.0 >= tt { l.time.0 - tt } else { 0 }
            } else {
                sat_add(l.time.0 as int, tt as int, u32::MAX as int)
            })
            &&& u.parent == (Parent::Transfer {
                from_stop: StopIdx(m as u32),
                departure_time: LiveTime::scheduled_only_spec(if is_arrival { u.time } else { l.time }),
                arrival_time: LiveTime::scheduled_only_spec(if is_arrival { l.time } else { u.time }),
            })
        }),
{
}

/// A walk from a label of stop `m` reaches the stop walked to after
/// (forward; before, backward) the walk's duration, at the label's cost
/// plus that duration weighted by the walk penalty, and records the walk
/// from `m` with the times at both ends.
pub proof fn lemma_walk_hop_moves_by_its_duration(
    state: &State,
    t: &Timetable,
    walks: &Walks,
    query: &RaptorQuery,
    m: int,
    li: int,
    w: int,
    is_arrival: bool,
)
    ensures
        ({
            let l = state.current_labels@[m]@[li];
            let (other, d) = walks.by_stop@[m]@[w];
            let u = walk_hop(state, t, walks, query, m, li, w, is_arrival);
            &&& u.cost == sat_add(l.cost as int, d.0 * query.walk_penalty, u64::MAX as int)
            &&& u.stop == other
            &&& u.time.0 == (if is_arrival {
                if l.time.0 >= d.0 { l.time.0 - d.0 } else { 0 }
            } else {
                sat_add(l.time.0 as int, d.0 as int, u32::MAX as int)
            })
            &&& u.parent == (Parent::Walk {
                from_stop: StopIdx(m as u32),
                departure_time: LiveTime::scheduled_only_spec(if is_arrival { u.time } else { l.time }),
                arrival_time: LiveTime::scheduled_only_spec(if is_arrival { l.time } else { u.time }),
            })
        }),
{
}

// ---------------------------------------------------------------------------
// The stop and round the target's best journey is credited to.

/// Every label of the survivors was in the front, and the offered label
/// does not dominate it.
proof fn lemma_survivors_from(s: Seq<ParetoLabel>, l: ParetoLabel, is_arrival: bool)
    ensures
        forall|i: int|
            0 <= i < survivors(s, l, is_arrival).len() ==> s.contains(#[trigger] survivors(s, l, is_arrival)[i])
                && !dominates(l, survivors(s, l, is_arrival)[i], is_arrival),
    decreases s.len(),
{
    let pred = |x: ParetoLabel| !dominates(l, x, is_arrival);
    reveal(Seq::filter);
    if s.len() > 0 {
        let rest = s.drop_last();
        lemma_survivors_from(rest, l, is_arrival);
        let sub = survivors(rest, l, is_arrival);
        assert(sub == rest.filter(pred));
        let out = survivors(s, l, is_arrival);
        assert forall|i: int| 0 <= i < out.len() implies s.contains(#[trigger] out[i]) && !dominates(
            l,
            out[i],
            is_arrival,
        ) by {
            if i < sub.len() {
                assert(out[i] == sub[i]);
                assert(rest.contains(sub[i]));
                let k = choose|k: int| 0 <= k < rest.len() && rest[k] == sub[i];
                assert(s[k] == out[i]);
            } else {
                assert(out[i] == s[s.len() - 1]);
            }
        }
    }
}

/// No label of a front costs less than its cheapest.
proof fn lemma_min_cost_below(s: Seq<ParetoLabel>, x: ParetoLabel)
    requires
        s.contains(x),
    ensures
        min_cost(s) <= x.cost,
    decreases s.len(),
{
    if s.last() != x {
        let k = choose|k: int| 0 <= k < s.len() && s[k] == x;
        assert(s.drop_last()[k] == x);
        lemma_min_cost_below(s.drop_last(), x);
    }
}

/// A front that is not empty has a label at its cheapest cost.
proof fn lemma_min_cost_attained(s: Seq<ParetoLabel>)
    requires
        s.len() > 0,
    ensures
        exists|k: int| 0 <= k < s.len() && (#[trigger] s[k]).cost == min_cost(s),
    decreases s.len(),
{
    let rest = s.drop_last();
    assert(s[s.len() - 1] == s.last());
    if rest.len() > 0 {
        lemma_min_cost_attained(rest);
        let k = choose|k: int| 0 <= k < rest.len() && (#[trigger] rest[k]).cost == min_cost(rest);
        assert(s[k] == rest[k]);
        if s.last().cost < min_cost(rest) {
            assert(s[s.len() - 1].cost == min_cost(s));
        } else {
            assert(s[k].cost == min_cost(s));
        }
    } else {
        assert(min_cost(rest) == u64::MAX);
        assert(s[s.len() - 1].cost == min_cost(s));
    }
}

/// Adding a label the front does not dominate makes the front's cheapest
/// cost the lesser of the label's and the old cheapest.
pub proof fn lemma_add_min_cost(s: Seq<ParetoLabel>, l: ParetoLabel, is_arrival: bool)
    requires
        !dominated_in(s, l, is_arrival),
    ensures
        min_cost(spec_add(s, l, is_arrival)) == if l.cost < min_cost(s) {
            l.cost
        } else {
            min_cost(s)
        },
{
    let sub = survivors(s, l, is_arrival);
    let out = spec_add(s, l, is_arrival);
    assert(out == sub.push(l));
    lemma_survivors_from(s, l, is_arrival);
    assert(out[out.len() - 1] == l);
    lemma_min_cost_below(out, l);
    if min_cost(s) < l.cost {
        lemma_min_cost_attained(s);
        let k = choose|k: int| 0 <= k < s.len() && (#[trigger] s[k]).cost == min_cost(s);
        let pred = |x: ParetoLabel| !dominates(l, x, is_arrival);
        assert(pred(s[k]));
        s.lemma_filter_contains(pred, k);
        let j = choose|j: int| 0 <= j < sub.len() && sub[j] == s[k];
        assert(out[j] == s[k]);
        lemma_min_cost_below(out, s[k]);
    }
    lemma_min_cost_attained(out);
    let k = choose|k: int| 0 <= k < out.len() && (#[trigger] out[k]).cost == min_cost(out);
    if k < sub.len() {
        assert(out[k] == sub[k]);
        assert(s.contains(sub[k]));
        lemma_min_cost_below(s, sub[k]);
    }
}

/// Offering the target a label: a label its front dominates changes
/// nothing; one it does not dominate joins the front, and the best stop and
/// round move to where it was reached from exactly when it costs no more
/// than every label the front held before, so they always name a journey
/// of the cheapest cost on the front.
pub proof fn lemma_offer_credits_the_cheapest(
    tv: (Seq<ParetoLabel>, Option<StopIdx>, Option<usize>),
    l: ParetoLabel,
    stop: StopIdx,
    round: usize,
    is_arrival: bool,
)
    ensures
        dominated_in(tv.0, l, is_arrival) ==> offer_target(tv, l, stop, round, is_arrival) == tv,
        !dominated_in(tv.0, l, is_arrival) ==> offer_target(tv, l, stop, round, is_arrival).0.contains(l),
        !dominated_in(tv.0, l, is_arrival) && l.cost <= min_cost(tv.0) ==> offer_target(tv, l, stop, round, is_arrival).1
            == Some(stop) && offer_target(tv, l, stop, round, is_arrival).2 == Some(round)
            && min_cost(offer_target(tv, l, stop, round, is_arrival).0) == l.cost,
        !dominated_in(tv.0, l, is_arrival) && l.cost > min_cost(tv.0) ==> offer_target(tv, l, stop, round, is_arrival).1
            == tv.1 && offer_target(tv, l, stop, round, is_arrival).2 == tv.2 && min_cost(
            offer_target(tv, l, stop, round, is_arrival).0,
        ) == min_cost(tv.0),
{
    if !dominated_in(tv.0, l, is_arrival) {
        lemma_add_min_cost(tv.0, l, is_arrival);
        let out = spec_add(tv.0, l, is_arrival);
        assert(out[out.len() - 1] == l);
    }
}

// ---------------------------------------------------------------------------
// The stops a ride leg passes.

/// The leg of a ride recorded as the parent of a stop passes every position
/// of its trip from boarding to alighting, and at each one carries the
/// trip's scheduled arrival there as its arrival time and the scheduled
/// departure as its departure time (zero where the network has none).
pub proof fn lemma_ride_leg_keeps_stop_times(t: &Timetable, p: Parent, stop: StopIdx, is_arrival: bool, j: int)
    requires
        p is Transit,
        0 <= j <= p->alighting_p.0 - p->boarding_p.0,
    ensures
        parent_leg(t, p, stop, is_arrival).stops.len() == p->alighting_p.0 - p->boarding_p.0 + 1,
        parent_leg(t, p, stop, is_arrival).stops[j].arrival_time.scheduled == time_or(
            t.trips@[p->trip.0 as int].stop_times@[p->boarding_p.0 + j].arrival_time,
            0,
        ),
        parent_leg(t, p, stop, is_arrival).stops[j].departure_time.scheduled == time_or(
            t.trips@[p->trip.0 as int].stop_times@[p->boarding_p.0 + j].departure_time,
            0,
        ),
        parent_leg(t, p, stop, is_arrival).stops[j].location == Location::Stop(
            t.trip_patterns@[t.trips@[p->trip.0 as int].pattern.0 as int].stops@[p->boarding_p.0 + j],
        ),
        parent_leg(t, p, stop, is_arrival).leg_type == LegType::Transit(p->trip),
{
}

/// The stops of a leg carry, from position `b` of `trip` on, the trip's
/// scheduled arrival and departure times (zero where the network has none).
pub open spec fn schedule_at(t: &Timetable, trip: TripIdx, b: int, stops: Seq<LegStop>) -> bool {
    forall|j: int|
        0 <= j < stops.len() ==> (#[trigger] stops[j]).arrival_time.scheduled == time_or(
            t.trips@[trip.0 as int].stop_times@[b + j].arrival_time,
            0,
        ) && stops[j].departure_time.scheduled == time_or(t.trips@[trip.0 as int].stop_times@[b + j].departure_time, 0)
}

/// A ride leg passes its stops at its trip's scheduled times, from some
/// position of the trip on.
pub open spec fn keeps_schedule(t: &Timetable, leg: LegView) -> bool {
    leg.leg_type is Transit ==> exists|b: int| 0 <= b && #[trigger] schedule_at(t, leg.leg_type->Transit_0, b, leg.stops)
}

/// The legs met following the parents keep their trips' schedules.
proof fn lemma_chain_keeps_schedule(state: &State, t: &Timetable, is_arrival: bool, stop: StopIdx, round: nat, fuel: nat)
    ensures
        forall|i: int|
            0 <= i < chain_legs(state, t, is_arrival, stop, round, fuel).len() ==> keeps_schedule(
                t,
                #[trigger] chain_legs(state, t, is_arrival, stop, round, fuel)[i],
            ),
    decreases fuel,
{
    let n = state.num_stops();
    let c = chain_legs(state, t, is_arrival, stop, round, fuel);
    if fuel > 0 && state.parents@[crate::raptor::state::parent_slot(n, 0, stop)] != Some(Parent::Origin) {
        match state.parents@[crate::raptor::state::parent_slot(n, round, stop)] {
            Some(p) => {
                let leg = parent_leg(t, p, stop, is_arrival);
                if p is Transit {
                    assert(keeps_schedule(t, leg)) by {
                        assert(leg.leg_type == LegType::Transit(p->trip));
                        if p->boarding_p.0 <= p->alighting_p.0 {
                            lemma_ride_leg_keeps_stop_times(t, p, stop, is_arrival, 0);
                            assert forall|j: int| 0 <= j < leg.stops.len() implies (#[trigger] leg.stops[j]).arrival_time.scheduled
                                == time_or(t.trips@[p->trip.0 as int].stop_times@[p->boarding_p.0 + j].arrival_time, 0)
                                && leg.stops[j].departure_time.scheduled == time_or(
                                t.trips@[p->trip.0 as int].stop_times@[p->boarding_p.0 + j].departure_time,
                                0,
                            ) by {
                                lemma_ride_leg_keeps_stop_times(t, p, stop, is_arrival, j);
                            }
                        } else {
                            assert(leg.stops.len() == 0);
                        }
                        assert(schedule_at(t, p->trip, p->boarding_p.0 as int, leg.stops));
                        assert(leg.leg_type->Transit_0 == p->trip);
                        assert(schedule_at(t, leg.leg_type->Transit_0, p->boarding_p.0 as int, leg.stops));
                    }
                }
                match p {
                    Parent::Transit { boarding_p, alighting_p, trip, .. } => {
                        if round > 0 {
                            let stops = t.trip_patterns@[t.trips@[trip.0 as int].pattern.0 as int].stops@;
                            let next = if is_arrival {
                                stops[alighting_p.0 as int]
                            } else {
                                stops[boarding_p.0 as int]
                            };
                            lemma_chain_keeps_schedule(state, t, is_arrival, next, (round - 1) as nat, (fuel - 1) as nat);
                            let rest = chain_legs(state, t, is_arrival, next, (round - 1) as nat, (fuel - 1) as nat);
                            assert forall|i: int| 0 <= i < c.len() implies keeps_schedule(t, #[trigger] c[i]) by {
                                if i > 0 {
                                    assert(c[i] == rest[i - 1]);
                                }
                            }
                        }
                    },
                    Parent::Transfer { from_stop, .. } => {
                        lemma_chain_keeps_schedule(state, t, is_arrival, from_stop, round, (fuel - 1) as nat);
                        let rest = chain_legs(state, t, is_arrival, from_stop, round, (fuel - 1) as nat);
                        assert forall|i: int| 0 <= i < c.len() implies keeps_schedule(t, #[trigger] c[i]) by {
                            if i > 0 {
                                assert(c[i] == rest[i - 1]);
                            }
                        }
                    },
                    Parent::Walk { from_stop, .. } => {
                        lemma_chain_keeps_schedule(state, t, is_arrival, from_stop, round, (fuel - 1) as nat);
                        let rest = chain_legs(state, t, is_arrival, from_stop, round, (fuel - 1) as nat);
                        assert forall|i: int| 0 <= i < c.len() implies keeps_schedule(t, #[trigger] c[i]) by {
                            if i > 0 {
                                assert(c[i] == rest[i - 1]);
                            }
                        }
                    },
                    Parent::Origin => {},
                }
            },
            None => {},
        }
    }
}

/// Merging walks keeps every ride leg as it is.
proof fn lemma_merge_views_keep_schedule(t: &Timetable, legs: Seq<LegView>)
    requires
        forall|i: int| 0 <= i < legs.len() ==> keeps_schedule(t, #[trigger] legs[i]),
    ensures
        forall|i: int| 0 <= i < merge_views(legs).len() ==> keeps_schedule(t, #[trigger] merge_views(legs)[i]),
    decreases legs.len(),
{
    if legs.len() > 0 {
        let rest = legs.drop_last();
        assert forall|i: int| 0 <= i < rest.len() implies keeps_schedule(t, #[trigger] rest[i]) by {
            assert(rest[i] == legs[i]);
        }
        lemma_merge_views_keep_schedule(t, rest);
        let prev = merge_views(rest);
        let out = merge_views(legs);
        let leg = legs.last();
        assert(keeps_schedule(t, leg)) by {
            assert(leg == legs[legs.len() - 1]);
        }
        assert forall|i: int| 0 <= i < out.len() implies keeps_schedule(t, #[trigger] out[i]) by {
            if i < out.len() - 1 {
                assert(out[i] == prev[i]);
            }
        }
    }
}

/// Every ride leg of an itinerary that rebuilds the journey a search
/// recorded passes its stops at its trip's scheduled arrival and departure
/// times, position by position from some position of the trip on.
pub proof fn lemma_itinerary_rides_keep_schedule(it: &Itinerary, state: &State, t: &Timetable, query: &RaptorQuery)
    requires
        is_recorded_journey(it, state, t, query),
    ensures
        forall|i: int| 0 <= i < it.legs@.len() ==> keeps_schedule(t, #[trigger] it.legs@[i]@),
{
    let ia = query.is_arrival();
    let chain = chain_legs(
        state,
        t,
        ia,
        state.target_best_stop.unwrap(),
        state.target_best_round.unwrap() as nat,
        state.parents@.len(),
    );
    lemma_chain_keeps_schedule(
        state,
        t,
        ia,
        state.target_best_stop.unwrap(),
        state.target_best_round.unwrap() as nat,
        state.parents@.len(),
    );
    let gathered = walk_if_moving(outer_walk(state, query)) + chain + walk_if_moving(
        inner_walk(state, query, journey_end_stop(state, t, query)),
    );
    assert forall|i: int| 0 <= i < gathered.len() implies keeps_schedule(t, #[trigger] gathered[i]) by {
        let o = walk_if_moving(outer_walk(state, query));
        if o.len() <= i < o.len() + chain.len() {
            assert(gathered[i] == chain[i - o.len()]);
        }
    }
    let ordered = if ia {
        gathered
    } else {
        gathered.reverse()
    };
    assert forall|i: int| 0 <= i < ordered.len() implies keeps_schedule(t, #[trigger] ordered[i]) by {
        if !ia {
            assert(ordered[i] == gathered[gathered.len() - 1 - i]);
        }
    }
    lemma_merge_views_keep_schedule(t, ordered);
    assert(legs_view(it.legs@) == merge_views(ordered));
    assert forall|i: int| 0 <= i < it.legs@.len() implies keeps_schedule(t, #[trigger] it.legs@[i]@) by {
        assert(legs_view(it.legs@)[i] == it.legs@[i]@);
    }
}

} // verus!
