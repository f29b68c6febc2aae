//! The round-based search.

pub mod explorer;
pub mod front;
pub mod itinerary;
pub mod laws;
pub mod location;
pub mod query;
pub mod same_stop;
pub mod state;

use vstd::prelude::*;

pub use crate::raptor::front::{ParetoFront, ParetoLabel};

use crate::network::{
    Delay, Duration, StopIdx, Time, Timetable, TripIdx, TripPatternIdx, pattern_ok, stop_ok,
    trip_ok,
};
use crate::raptor::explorer::{
    hops_out, patterns_out, explore_transfers, explore_transfers_reverse, explore_trip_patterns,
    explore_trip_patterns_reverse, hop_update, ride_update, some_ride, sound_update,
};
use crate::raptor::front::{
    spec_add, dominated_in, min_cost, is_antichain, lemma_add_covers_label, lemma_add_keeps_antichain, lemma_add_monotone,
};
use crate::raptor::itinerary::{
    Itinerary, bare_leg, first_departure, is_recorded_journey, transit_count, is_journey, legless, rides_recorded, search_found,
    short_of_start, stop_label_time, target_label_time, walk_before_end,
};
use crate::raptor::query::{Location, QueryLocation, RaptorQuery, TimeDirection};
use crate::raptor::state::{
    State, all_antichains, consistent_parents, fronts, lemma_apply_all_antichains,
    lemma_apply_all_consistent, lemma_apply_all_starts, lemma_clear_consistent, lemma_clear_ends,
    lemma_slot_bound, slot, transit_reaches, updates_wf, apply_all, SearchView, parent_slot,
};
use crate::raptor::same_stop::lemma_same_stop_trace;
use crate::Error;

verus! {

/// The number of rounds of the search; round `k` allows `k` rides.
pub const MAX_ROUNDS: usize = 15;

/// Position of a stop within the stop sequence of a trip pattern.
#[derive(Debug, Clone, Copy, PartialEq, Eq, Structural, Hash, PartialOrd, Ord)]
pub struct SequnceIdx(pub u32);

impl SequnceIdx {
    /// The sentinel that marks "no position".
    pub open spec fn spec_none() -> SequnceIdx {
        SequnceIdx(u32::MAX)
    }

    pub fn none() -> (r: SequnceIdx)
        ensures
            r == Self::spec_none(),
    {
        SequnceIdx(u32::MAX)
    }

    pub fn as_usize(&self) -> (r: usize)
        ensures
            r == self.0,
    {
        self.0 as usize
    }
}

/// A scheduled time together with the time at which it actually happens.
#[derive(Debug, Clone, Copy, PartialEq, Eq, Structural)]
pub struct LiveTime {
    pub scheduled: Time,
    pub actual: Time,
}

impl LiveTime {
    /// The difference between the actual and the scheduled time, truncated to 16 bits.
    pub fn delay(&self) -> (d: Delay)
        ensures
            d.0 == (self.actual.0 - self.scheduled.0) as i16,
    {
        Delay((self.actual.0 as i64 - self.scheduled.0 as i64) as i16)
    }

    pub open spec fn scheduled_only_spec(time: Time) -> LiveTime {
        LiveTime { scheduled: time, actual: time }
    }

    pub fn scheduled_only(time: Time) -> (r: LiveTime)
        ensures
            r == Self::scheduled_only_spec(time),
    {
        LiveTime { scheduled: time, actual: time }
    }
}

/// How a stop was reached in a round.
#[derive(Debug, Clone, Copy, PartialEq, Eq, Structural)]
pub enum Parent {
    Transit {
        boarding_p: SequnceIdx,
        alighting_p: SequnceIdx,
        trip: TripIdx,
        departure_time: LiveTime,
        arrival_time: LiveTime,
    },
    Transfer { from_stop: StopIdx, departure_time: LiveTime, arrival_time: LiveTime },
    Walk { from_stop: StopIdx, departure_time: LiveTime, arrival_time: LiveTime },
    Origin,
}

/// Every index that a parent holds is in range of the network.
pub open spec fn parent_wf(t: &Timetable, p: Parent) -> bool {
    match p {
        Parent::Transit { boarding_p, alighting_p, trip, .. } => {
            &&& trip_ok(t, trip)
            &&& boarding_p.0 < t.trip_len(trip)
            &&& alighting_p.0 < t.trip_len(trip)
        },
        Parent::Transfer { from_stop, .. } => stop_ok(t, from_stop),
        Parent::Walk { from_stop, .. } => stop_ok(t, from_stop),
        Parent::Origin => true,
    }
}

/// A candidate label for a stop, with the way it was reached.
#[derive(Debug, Clone, Copy, PartialEq, Eq, Structural)]
pub struct Update {
    pub stop: StopIdx,
    pub time: Time,
    pub cost: u64,
    pub parent: Parent,
}

impl Update {
    pub fn new(stop: StopIdx, time: Time, cost: u64, parent: Parent) -> (u: Update)
        ensures
            u == (Update { stop, time, cost, parent }),
    {
        Update { stop, time, cost, parent }
    }
}

/// Walking connections, measured outside the search: for each stop, the
/// stops within the search radius that have a coordinate and the walking
/// time to each; and the same from the query's origin and destination
/// coordinates (empty where those are stops).
pub struct Walks {
    pub by_stop: Vec<Vec<(StopIdx, Duration)>>,
    pub origin: Vec<(StopIdx, Duration)>,
    pub destination: Vec<(StopIdx, Duration)>,
}

pub open spec fn walk_list_ok(t: &Timetable, w: Seq<(StopIdx, Duration)>) -> bool {
    forall|k: int| 0 <= k < w.len() ==> stop_ok(t, (#[trigger] w[k]).0)
}

impl Walks {
    pub open spec fn wf(&self, t: &Timetable) -> bool {
        &&& self.by_stop@.len() == t.stops@.len()
        &&& forall|i: int| 0 <= i < self.by_stop@.len() ==> walk_list_ok(t, #[trigger] self.by_stop@[i]@)
        &&& walk_list_ok(t, self.origin@)
        &&& walk_list_ok(t, self.destination@)
    }
}

/// `t + d`, saturating at the largest time.
pub open spec fn time_add(t: Time, d: u32) -> Time {
    if t.0 + d > u32::MAX {
        Time(u32::MAX)
    } else {
        Time((t.0 + d) as u32)
    }
}

/// `t - d`, saturating at zero.
pub open spec fn time_sub(t: Time, d: u32) -> Time {
    if t.0 < d {
        Time(0)
    } else {
        Time((t.0 - d) as u32)
    }
}

/// `c + secs * weight`, saturating at the largest cost.
pub open spec fn cost_add(c: u64, secs: u32, weight: u32) -> u64 {
    if c + secs * weight > u64::MAX {
        u64::MAX
    } else {
        (c + secs * weight) as u64
    }
}

pub fn add_time(t: Time, d: u32) -> (r: Time)
    ensures
        r == time_add(t, d),
{
    Time(t.0.saturating_add(d))
}

pub fn sub_time(t: Time, d: u32) -> (r: Time)
    ensures
        r == time_sub(t, d),
{
    Time(t.0.saturating_sub(d))
}

pub fn add_cost(c: u64, secs: u32, weight: u32) -> (r: u64)
    ensures
        r == cost_add(c, secs, weight),
{
    proof {
        assert(secs * weight <= u64::MAX) by (nonlinear_arith)
            requires
                secs <= u32::MAX,
                weight <= u32::MAX,
        ;
    }
    let w = (secs as u64) * (weight as u64);
    c.saturating_add(w)
}

/// Every front of the state holds no dominated label.
pub open spec fn fronts_are_antichains(state: &State, is_arrival: bool) -> bool {
    &&& forall|i: int| 0 <= i < state.tau_star@.len() ==> is_antichain(#[trigger] state.tau_star@[i]@, is_arrival)
    &&& forall|i: int| 0 <= i < state.current_labels@.len() ==> is_antichain(#[trigger] state.current_labels@[i]@, is_arrival)
    &&& forall|i: int| 0 <= i < state.previous_labels@.len() ==> is_antichain(#[trigger] state.previous_labels@[i]@, is_arrival)
    &&& is_antichain(state.target_tau_star@, is_arrival)
}

/// Starting the search at `stop` with `label`: the label is offered to the
/// stop's best and current fronts, the stop is marked, and its first
/// round's parent is the origin.
pub open spec fn seed_one(v: SearchView, n: nat, stop: StopIdx, label: ParetoLabel, is_arrival: bool) -> SearchView {
    let s = stop.0 as int;
    SearchView {
        tau: v.tau.update(s, spec_add(v.tau[s], label, is_arrival)),
        cur: v.cur.update(s, spec_add(v.cur[s], label, is_arrival)),
        marked: v.marked.update(s, true),
        parents: v.parents.update(parent_slot(n, 0, stop), Some(Parent::Origin)),
    }
}

/// Starts the search at `stop` with `label` (see [`seed_one`]).
fn seed_stop(t: &Timetable, state: &mut State, stop: StopIdx, label: ParetoLabel, is_arrival: bool)
    requires
        t.wf(),
        old(state).wf(t),
        stop_ok(t, stop),
    ensures
        final(state).wf(t),
        fronts_are_antichains(old(state), is_arrival) ==> fronts_are_antichains(final(state), is_arrival),
        forall|a: bool| old(state).parents_consistent(t, a) ==> final(state).parents_consistent(t, a),
        final(state).num_stops() == old(state).num_stops(),
        forall|start: QueryLocation|
            old(state).starts_from(&start) && start.reaches(stop) ==> #[trigger] final(state).starts_from(&start),
        final(state).target_stops == old(state).target_stops,
        final(state).target_best_stop == old(state).target_best_stop,
        final(state).target_best_round == old(state).target_best_round,
        final(state).target_tau_star == old(state).target_tau_star,
        final(state).previous_labels == old(state).previous_labels,
        final(state).active_trip_patterns == old(state).active_trip_patterns,
        final(state).search_view() == seed_one(old(state).search_view(), old(state).num_stops(), stop, label, is_arrival),
{
    let s = stop.as_usize();
    let ghost pre = *state;
    state.marked_stops.set(s, true);
    proof {
        if fronts_are_antichains(&pre, is_arrival) {
            lemma_add_keeps_antichain(state.current_labels@[s as int]@, label, is_arrival);
            lemma_add_keeps_antichain(state.tau_star@[s as int]@, label, is_arrival);
        }
    }
    state.current_labels[s].add(label, is_arrival);
    state.tau_star[s].add(label, is_arrival);
    let parent_idx = state.calc_parent_idx(0, stop);
    state.parents.set(parent_idx, Some(Parent::Origin));
    proof {
        let want = seed_one(pre.search_view(), pre.num_stops(), stop, label, is_arrival);
        assert(state.search_view().tau =~= want.tau);
        assert(state.search_view().cur =~= want.cur);
        assert(state.search_view() =~= want);
        let n = state.num_stops() as int;
        assert forall|a: bool| pre.parents_consistent(t, a) implies state.parents_consistent(t, a) by {
            assert forall|r: int, q: int|
                0 <= r < MAX_ROUNDS && 0 <= q < n implies (#[trigger] state.parents@[slot(n, r, q)] matches Some(p)
                    ==> transit_reaches(t, p, q, a)) by {
                lemma_slot_bound(n as nat, r as nat, q as nat);
                if slot(n, r, q) != parent_idx {
                    assert(state.parents@[slot(n, r, q)] == pre.parents@[slot(n, r, q)]);
                }
            }
        }
        assert forall|k: int| 0 <= k < state.parents@.len() implies (#[trigger] state.parents@[k] matches Some(p) ==> parent_wf(t, p)) by {
            if k != parent_idx {
                assert(state.parents@[k] == pre.parents@[k]);
            }
        }
        assert(StopIdx(parent_idx as u32) == stop);
        assert forall|start: QueryLocation| pre.starts_from(&start) && start.reaches(stop) implies #[trigger] state.starts_from(&start) by {
            assert forall|k: int| 0 <= k < state.parents@.len() implies (#[trigger] state.parents@[k] matches Some(Parent::Origin)
                ==> k < n && start.reaches(StopIdx(k as u32))) by {
                if k != parent_idx {
                    assert(state.parents@[k] == pre.parents@[k]);
                }
            }
            assert forall|k: int| 0 <= k < n && k < state.parents@.len() implies !(#[trigger] state.parents@[k] matches Some(
                Parent::Transit { .. },
            )) by {
                if k != parent_idx {
                    assert(state.parents@[k] == pre.parents@[k]);
                }
            }
        }
        if fronts_are_antichains(&pre, is_arrival) {
            assert forall|i: int| 0 <= i < state.tau_star@.len() implies is_antichain(#[trigger] state.tau_star@[i]@, is_arrival) by {
                if i != s {
                    assert(state.tau_star@[i] == pre.tau_star@[i]);
                }
            }
            assert forall|i: int| 0 <= i < state.current_labels@.len() implies is_antichain(#[trigger] state.current_labels@[i]@, is_arrival) by {
                if i != s {
                    assert(state.current_labels@[i] == pre.current_labels@[i]);
                }
            }
        }
    }
}

/// Whether `stop` is served by some trip.
fn has_trips(t: &Timetable, stop: StopIdx) -> (r: bool)
    requires
        stop_ok(t, stop),
    ensures
        r == (t.stops@[stop.0 as int].trip_count != 0),
{
    t.stops[stop.as_usize()].trip_count != 0
}

/// Seeding, in order, each of `stops` that some trip serves with `label`.
pub open spec fn seed_stops(v: SearchView, t: &Timetable, n: nat, stops: Seq<StopIdx>, label: ParetoLabel, is_arrival: bool) -> SearchView
    decreases stops.len(),
{
    if stops.len() == 0 {
        v
    } else {
        let w = seed_stops(v, t, n, stops.drop_last(), label, is_arrival);
        let s = stops.last();
        if t.stops@[s.0 as int].trip_count != 0 {
            seed_one(w, n, s, label, is_arrival)
        } else {
            w
        }
    }
}

/// The label a stop reached by walking `walk` from a coordinate starts
/// with: the query time moved by the walk, at the walk's cost.
pub open spec fn walk_seed(time: Time, walk: Duration, walk_penalty: u32, is_arrival: bool) -> ParetoLabel {
    ParetoLabel {
        time: if is_arrival {
            time_sub(time, walk.0)
        } else {
            time_add(time, walk.0)
        },
        cost: cost_add(0, walk.0, walk_penalty),
    }
}

/// Seeding, in order, each stop of `access` that some trip serves with the
/// label its walk gives (see [`walk_seed`]).
pub open spec fn seed_walks(
    v: SearchView,
    t: &Timetable,
    n: nat,
    access: Seq<(StopIdx, Duration)>,
    time: Time,
    walk_penalty: u32,
    is_arrival: bool,
) -> SearchView
    decreases access.len(),
{
    if access.len() == 0 {
        v
    } else {
        let w = seed_walks(v, t, n, access.drop_last(), time, walk_penalty, is_arrival);
        let (s, d) = access.last();
        if t.stops@[s.0 as int].trip_count != 0 {
            seed_one(w, n, s, walk_seed(time, d, walk_penalty, is_arrival), is_arrival)
        } else {
            w
        }
    }
}

/// Seeding the start of a search: the stop at `time` and no cost; each of
/// the stops that some trip serves likewise; or each stop near the
/// coordinate that some trip serves, with the walk to it.
pub open spec fn seed_start_view(
    v: SearchView,
    t: &Timetable,
    n: nat,
    start: &QueryLocation,
    access: Seq<(StopIdx, Duration)>,
    time: Time,
    walk_penalty: u32,
    is_arrival: bool,
) -> SearchView {
    let init = ParetoLabel { time, cost: 0 };
    match start {
        QueryLocation::Stop(s) => seed_one(v, n, *s, init, is_arrival),
        QueryLocation::Stops(stops) => seed_stops(v, t, n, stops@, init, is_arrival),
        QueryLocation::Coordinate(_) => seed_walks(v, t, n, access, time, walk_penalty, is_arrival),
    }
}

/// Seeds the start of the search: the origin of a departure search or the
/// destination of an arrival search.
fn seed_start(
    query: &RaptorQuery,
    t: &Timetable,
    walks: &Walks,
    state: &mut State,
    start: &QueryLocation,
    access: &Vec<(StopIdx, Duration)>,
    time: Time,
    is_arrival: bool,
)
    requires
        t.wf(),
        old(state).wf(t),
        start.wf(t),
        walk_list_ok(t, access@),
    ensures
        final(state).wf(t),
        fronts_are_antichains(old(state), is_arrival) ==> fronts_are_antichains(final(state), is_arrival),
        forall|a: bool| old(state).parents_consistent(t, a) ==> final(state).parents_consistent(t, a),
        old(state).starts_from(start) ==> final(state).starts_from(start),
        final(state).target_stops == old(state).target_stops,
        final(state).target_best_stop == old(state).target_best_stop,
        final(state).target_best_round == old(state).target_best_round,
        final(state).target_tau_star == old(state).target_tau_star,
        final(state).previous_labels == old(state).previous_labels,
        final(state).active_trip_patterns == old(state).active_trip_patterns,
        final(state).num_stops() == old(state).num_stops(),
        final(state).search_view() == seed_start_view(
            old(state).search_view(),
            t,
            old(state).num_stops(),
            start,
            access@,
            time,
            query.walk_penalty,
            is_arrival,
        ),
{
    let init_label = ParetoLabel::new(time, 0);
    match start {
        QueryLocation::Stop(stop) => {
            seed_stop(t, state, *stop, init_label, is_arrival);
            proof {
                assert(final(state).starts_from(start) <== old(state).starts_from(start) && start.reaches(*stop));
            }
        },
        QueryLocation::Stops(stops) => {
            proof {
                assert forall|j: int| 0 <= j < stops@.len() implies start.reaches(#[trigger] stops@[j]) by {
                    assert(stops@[j] == stops@[j]);
                }
            }
            let mut k: usize = 0;
            while k < stops.len()
                invariant
                    t.wf(),
                    state.wf(t),
                    forall|j: int| 0 <= j < stops@.len() ==> stop_ok(t, #[trigger] stops@[j]),
                    forall|j: int| 0 <= j < stops@.len() ==> start.reaches(#[trigger] stops@[j]),
                    fronts_are_antichains(old(state), is_arrival) ==> fronts_are_antichains(state, is_arrival),
                    forall|a: bool| old(state).parents_consistent(t, a) ==> state.parents_consistent(t, a),
                    old(state).starts_from(start) ==> state.starts_from(start),
                    state.target_stops == old(state).target_stops,
                    state.target_best_stop == old(state).target_best_stop,
                    state.target_best_round == old(state).target_best_round,
                    state.target_tau_star == old(state).target_tau_star,
                    state.previous_labels == old(state).previous_labels,
                    state.active_trip_patterns == old(state).active_trip_patterns,
                    state.num_stops() == old(state).num_stops(),
                    k <= stops@.len(),
                    init_label == (ParetoLabel { time, cost: 0 }),
                    state.search_view() == seed_stops(
                        old(state).search_view(),
                        t,
                        old(state).num_stops(),
                        stops@.subrange(0, k as int),
                        init_label,
                        is_arrival,
                    ),
                decreases stops@.len() - k,
            {
                let stop = stops[k];
                proof {
                    assert(stops@.subrange(0, k + 1).drop_last() =~= stops@.subrange(0, k as int));
                    assert(stops@.subrange(0, k + 1).last() == stop);
                }
                if has_trips(t, stop) {
                    seed_stop(t, state, stop, init_label, is_arrival);
                }
                k += 1;
            }
            proof {
                assert(stops@.subrange(0, stops@.len() as int) =~= stops@);
            }
        },
        QueryLocation::Coordinate(_) => {
            let mut k: usize = 0;
            while k < access.len()
                invariant
                    t.wf(),
                    state.wf(t),
                    walk_list_ok(t, access@),
                    start is Coordinate,
                    fronts_are_antichains(old(state), is_arrival) ==> fronts_are_antichains(state, is_arrival),
                    forall|a: bool| old(state).parents_consistent(t, a) ==> state.parents_consistent(t, a),
                    old(state).starts_from(start) ==> state.starts_from(start),
                    state.target_stops == old(state).target_stops,
                    state.target_best_stop == old(state).target_best_stop,
                    state.target_best_round == old(state).target_best_round,
                    state.target_tau_star == old(state).target_tau_star,
                    state.previous_labels == old(state).previous_labels,
                    state.active_trip_patterns == old(state).active_trip_patterns,
                    state.num_stops() == old(state).num_stops(),
                    k <= access@.len(),
                    state.search_view() == seed_walks(
                        old(state).search_view(),
                        t,
                        old(state).num_stops(),
                        access@.subrange(0, k as int),
                        time,
                        query.walk_penalty,
                        is_arrival,
                    ),
                decreases access@.len() - k,
            {
                let (stop, walk) = access[k];
                proof {
                    assert(stop_ok(t, access@[k as int].0));
                    assert(access@.subrange(0, k + 1).drop_last() =~= access@.subrange(0, k as int));
                    assert(access@.subrange(0, k + 1).last() == (stop, walk));
                }
                if has_trips(t, stop) {
                    let reach_time = if is_arrival {
                        sub_time(time, walk.0)
                    } else {
                        add_time(time, walk.0)
                    };
                    let walk_cost = add_cost(0, walk.0, query.walk_penalty);
                    seed_stop(t, state, stop, ParetoLabel::new(reach_time, walk_cost), is_arrival);
                }
                k += 1;
            }
            proof {
                assert(access@.subrange(0, access@.len() as int) =~= access@);
            }
        },
    }
}

/// The stops of `cands` that some trip serves, in order, with their walks.
pub open spec fn served_walks(t: &Timetable, cands: Seq<(StopIdx, Duration)>) -> Seq<(StopIdx, Duration)>
    decreases cands.len(),
{
    if cands.len() == 0 {
        cands
    } else {
        let w = served_walks(t, cands.drop_last());
        if t.stops@[cands.last().0.0 as int].trip_count != 0 {
            w.push(cands.last())
        } else {
            w
        }
    }
}

/// The stops of `stops` that some trip serves, in order, without a walk.
pub open spec fn served_stops(t: &Timetable, stops: Seq<StopIdx>) -> Seq<(StopIdx, Duration)>
    decreases stops.len(),
{
    if stops.len() == 0 {
        Seq::empty()
    } else {
        let w = served_stops(t, stops.drop_last());
        if t.stops@[stops.last().0 as int].trip_count != 0 {
            w.push((stops.last(), Duration(0)))
        } else {
            w
        }
    }
}

/// The target stops recorded for `target`: the stop without a walk, the
/// served stops of a group, or the served stops near a coordinate with
/// their walks.
pub open spec fn target_seeds(t: &Timetable, target: &QueryLocation, access: Seq<(StopIdx, Duration)>) -> Seq<(StopIdx, Duration)> {
    match target {
        QueryLocation::Stop(s) => seq![(*s, Duration(0))],
        QueryLocation::Stops(stops) => served_stops(t, stops@),
        QueryLocation::Coordinate(_) => served_walks(t, access),
    }
}

/// Records the stops from which the target (the destination of a departure
/// search, the origin of an arrival search) is reached, with the walk needed.
fn seed_targets(
    t: &Timetable,
    state: &mut State,
    target: &QueryLocation,
    access: &Vec<(StopIdx, Duration)>,
)
    requires
        t.wf(),
        old(state).wf(t),
        target.wf(t),
        walk_list_ok(t, access@),
    ensures
        final(state).wf(t),
        forall|is_arrival: bool| fronts_are_antichains(old(state), is_arrival) ==> fronts_are_antichains(final(state), is_arrival),
        final(state).parents == old(state).parents,
        final(state).stop_count == old(state).stop_count,
        old(state).ends_in(target) ==> final(state).ends_in(target),
        final(state).target_stops@ == old(state).target_stops@ + target_seeds(t, target, access@),
        final(state).tau_star == old(state).tau_star,
        final(state).current_labels == old(state).current_labels,
        final(state).previous_labels == old(state).previous_labels,
        final(state).marked_stops == old(state).marked_stops,
        final(state).target_tau_star == old(state).target_tau_star,
        final(state).target_best_stop == old(state).target_best_stop,
        final(state).target_best_round == old(state).target_best_round,
        final(state).active_trip_patterns == old(state).active_trip_patterns,
{
    match target {
        QueryLocation::Stop(stop) => {
            let ghost pre = state.target_stops@;
            state.target_stops.push((*stop, Duration(0)));
            proof {
                assert(state.target_stops@ =~= old(state).target_stops@ + target_seeds(t, target, access@));
                assert forall|k: int| 0 <= k < state.target_stops@.len() && old(state).ends_in(target) implies target.reaches(
                    (#[trigger] state.target_stops@[k]).0,
                ) by {
                    if k < pre.len() {
                        assert(state.target_stops@[k] == pre[k]);
                    }
                }
            }
        },
        QueryLocation::Stops(stops) => {
            proof {
                assert forall|j: int| 0 <= j < stops@.len() implies target.reaches(#[trigger] stops@[j]) by {
                    assert(stops@[j] == stops@[j]);
                }
            }
            let mut k: usize = 0;
            while k < stops.len()
                invariant
                    t.wf(),
                    state.wf(t),
                    forall|j: int| 0 <= j < stops@.len() ==> stop_ok(t, #[trigger] stops@[j]),
                    forall|j: int| 0 <= j < stops@.len() ==> target.reaches(#[trigger] stops@[j]),
                    state.tau_star == old(state).tau_star,
                    state.current_labels == old(state).current_labels,
                    state.previous_labels == old(state).previous_labels,
                    state.target_tau_star == old(state).target_tau_star,
                    state.parents == old(state).parents,
                    state.stop_count == old(state).stop_count,
                    state.target_best_stop == old(state).target_best_stop,
                    old(state).ends_in(target) ==> state.ends_in(target),
                    state.marked_stops == old(state).marked_stops,
                    state.target_best_round == old(state).target_best_round,
                    state.active_trip_patterns == old(state).active_trip_patterns,
                    k <= stops@.len(),
                    state.target_stops@ == old(state).target_stops@ + served_stops(t, stops@.subrange(0, k as int)),
                decreases stops@.len() - k,
            {
                let stop = stops[k];
                proof {
                    assert(stops@.subrange(0, k + 1).drop_last() =~= stops@.subrange(0, k as int));
                }
                if has_trips(t, stop) {
                    let ghost pre = state.target_stops@;
                    state.target_stops.push((stop, Duration(0)));
                    proof {
                        assert(target.reaches(stops@[k as int]));
                        assert forall|q: int| 0 <= q < state.target_stops@.len() && old(state).ends_in(target) implies target.reaches(
                            (#[trigger] state.target_stops@[q]).0,
                        ) by {
                            if q < pre.len() {
                                assert(state.target_stops@[q] == pre[q]);
                            }
                        }
                    }
                }
                proof {
                    assert(state.target_stops@ =~= old(state).target_stops@ + served_stops(t, stops@.subrange(0, k + 1)));
                }
                k += 1;
            }
            proof {
                assert(stops@.subrange(0, stops@.len() as int) =~= stops@);
            }
        },
        QueryLocation::Coordinate(_) => {
            let mut k: usize = 0;
            while k < access.len()
                invariant
                    t.wf(),
                    state.wf(t),
                    walk_list_ok(t, access@),
                    state.tau_star == old(state).tau_star,
                    state.current_labels == old(state).current_labels,
                    state.previous_labels == old(state).previous_labels,
                    state.target_tau_star == old(state).target_tau_star,
                    state.parents == old(state).parents,
                    state.stop_count == old(state).stop_count,
                    state.target_best_stop == old(state).target_best_stop,
                    target is Coordinate,
                    old(state).ends_in(target) ==> state.ends_in(target),
                    state.marked_stops == old(state).marked_stops,
                    state.target_best_round == old(state).target_best_round,
                    state.active_trip_patterns == old(state).active_trip_patterns,
                    k <= access@.len(),
                    state.target_stops@ == old(state).target_stops@ + served_walks(t, access@.subrange(0, k as int)),
                decreases access@.len() - k,
            {
                let (stop, walk) = access[k];
                proof {
                    assert(stop_ok(t, access@[k as int].0));
                    assert(access@.subrange(0, k + 1).drop_last() =~= access@.subrange(0, k as int));
                    assert(access@.subrange(0, k + 1).last() == (stop, walk));
                }
                if has_trips(t, stop) {
                    let ghost pre = state.target_stops@;
                    state.target_stops.push((stop, walk));
                    proof {
                        assert forall|q: int| 0 <= q < state.target_stops@.len() && old(state).ends_in(target) implies target.reaches(
                            (#[trigger] state.target_stops@[q]).0,
                        ) by {
                            if q < pre.len() {
                                assert(state.target_stops@[q] == pre[q]);
                            }
                        }
                    }
                }
                proof {
                    assert(state.target_stops@ =~= old(state).target_stops@ + served_walks(t, access@.subrange(0, k + 1)));
                }
                k += 1;
            }
            proof {
                assert(access@.subrange(0, access@.len() as int) =~= access@);
            }
        },
    }
}

/// Applies the updates of a phase (see [`State::apply_updates`]), keeping
/// the fronts free of dominated labels.
fn apply_phase(t: &Timetable, state: &mut State, round: usize, is_arrival: bool, updates: &Vec<Update>)
    requires
        t.wf(),
        old(state).wf(t),
        round < MAX_ROUNDS,
        forall|k: int| 0 <= k < updates@.len() ==> sound_update(old(state), t, #[trigger] updates@[k], is_arrival),
        forall|k: int|
            0 <= k < updates@.len() ==> transit_reaches(
                t,
                (#[trigger] updates@[k]).parent,
                updates@[k].stop.0 as int,
                is_arrival,
            ),
        forall|k: int|
            0 <= k < updates@.len() ==> !((#[trigger] updates@[k]).parent is Origin) && (round == 0
                ==> !(updates@[k].parent is Transit)),
    ensures
        final(state).wf(t),
        fronts_are_antichains(old(state), is_arrival) ==> fronts_are_antichains(final(state), is_arrival),
        old(state).parents_consistent(t, is_arrival) ==> final(state).parents_consistent(t, is_arrival),
        forall|start: QueryLocation| old(state).starts_from(&start) ==> #[trigger] final(state).starts_from(&start),
        final(state).search_view() == apply_all(
            old(state).search_view(),
            old(state).target_tau_star@,
            old(state).num_stops(),
            round as nat,
            is_arrival,
            updates@,
        ),
        final(state).num_stops() == old(state).num_stops(),
        final(state).previous_labels == old(state).previous_labels,
        final(state).active_trip_patterns == old(state).active_trip_patterns,
        final(state).target_tau_star == old(state).target_tau_star,
        final(state).target_stops == old(state).target_stops,
        final(state).target_best_stop == old(state).target_best_stop,
        final(state).target_best_round == old(state).target_best_round,
{
    proof {
        assert(updates_wf(t, updates@));
    }
    let ghost pre = *state;
    state.apply_updates(round, is_arrival, updates);
    proof {
        assert forall|start: QueryLocation| pre.starts_from(&start) implies #[trigger] state.starts_from(&start) by {
            lemma_apply_all_starts(pre.search_view(), pre.target_tau_star@, pre.num_stops(), round as nat, is_arrival, updates@, &start);
        }
        if pre.parents_consistent(t, is_arrival) {
            lemma_apply_all_consistent(pre.search_view(), pre.target_tau_star@, pre.num_stops(), round as nat, is_arrival, updates@, t);
        }
        if fronts_are_antichains(&pre, is_arrival) {
            let v = pre.search_view();
            assert(all_antichains(v.tau, is_arrival)) by {
                assert forall|i: int| 0 <= i < v.tau.len() implies is_antichain(#[trigger] v.tau[i], is_arrival) by {
                    assert(v.tau[i] == pre.tau_star@[i]@);
                }
            }
            assert(all_antichains(v.cur, is_arrival)) by {
                assert forall|i: int| 0 <= i < v.cur.len() implies is_antichain(#[trigger] v.cur[i], is_arrival) by {
                    assert(v.cur[i] == pre.current_labels@[i]@);
                }
            }
            lemma_apply_all_antichains(v, pre.target_tau_star@, pre.num_stops(), round as nat, is_arrival, updates@);
            let w = state.search_view();
            assert forall|i: int| 0 <= i < state.tau_star@.len() implies is_antichain(#[trigger] state.tau_star@[i]@, is_arrival) by {
                assert(w.tau[i] == state.tau_star@[i]@);
            }
            assert forall|i: int| 0 <= i < state.current_labels@.len() implies is_antichain(#[trigger] state.current_labels@[i]@, is_arrival) by {
                assert(w.cur[i] == state.current_labels@[i]@);
            }
        }
    }
}

/// The current labels of target stop `k`.
pub open spec fn target_labels(state: &State, k: int) -> Seq<ParetoLabel> {
    let (stop, walk) = state.target_stops@[k];
    state.current_labels@[stop.0 as int]@
}

/// The label that label `j` of the current front of target stop `k` gives
/// the target: moved by the walk between the stop and the target, with the
/// walk's cost.
pub open spec fn reach_label(state: &State, query: &RaptorQuery, k: int, j: int, is_arrival: bool) -> ParetoLabel {
    let (stop, walk) = state.target_stops@[k];
    let l = state.current_labels@[stop.0 as int]@[j];
    ParetoLabel {
        time: if is_arrival {
            time_sub(l.time, walk.0)
        } else {
            time_add(l.time, walk.0)
        },
        cost: cost_add(l.cost, walk.0, query.walk_penalty),
    }
}

/// What a search has found for its target: the target's front, and the
/// best stop and round.
pub open spec fn target_view(state: &State) -> (Seq<ParetoLabel>, Option<StopIdx>, Option<usize>) {
    (state.target_tau_star@, state.target_best_stop, state.target_best_round)
}

/// The label `l` of a target stop gives the target: moved by the walk
/// between them, with the walk's cost.
pub open spec fn walked_label(l: ParetoLabel, walk: Duration, walk_penalty: u32, is_arrival: bool) -> ParetoLabel {
    ParetoLabel {
        time: if is_arrival {
            time_sub(l.time, walk.0)
        } else {
            time_add(l.time, walk.0)
        },
        cost: cost_add(l.cost, walk.0, walk_penalty),
    }
}

/// Offering the target `label`, reached from `stop` in `round`: a label
/// that the front does not dominate joins it, and where it costs no more
/// than the cheapest label of the new front, `stop` and `round` become the
/// best ones.
pub open spec fn offer_target(
    tv: (Seq<ParetoLabel>, Option<StopIdx>, Option<usize>),
    label: ParetoLabel,
    stop: StopIdx,
    round: usize,
    is_arrival: bool,
) -> (Seq<ParetoLabel>, Option<StopIdx>, Option<usize>) {
    if dominated_in(tv.0, label, is_arrival) {
        tv
    } else {
        let front = spec_add(tv.0, label, is_arrival);
        if label.cost <= min_cost(front) {
            (front, Some(stop), Some(round))
        } else {
            (front, tv.1, tv.2)
        }
    }
}

/// Offering the target, in order, the first `j` of `labels`, the front of
/// target stop `stop`, each moved by the stop's walk.
pub open spec fn offer_stop(
    tv: (Seq<ParetoLabel>, Option<StopIdx>, Option<usize>),
    labels: Seq<ParetoLabel>,
    stop: StopIdx,
    walk: Duration,
    walk_penalty: u32,
    round: usize,
    is_arrival: bool,
    j: int,
) -> (Seq<ParetoLabel>, Option<StopIdx>, Option<usize>)
    decreases j,
{
    if j <= 0 {
        tv
    } else {
        offer_target(
            offer_stop(tv, labels, stop, walk, walk_penalty, round, is_arrival, j - 1),
            walked_label(labels[j - 1], walk, walk_penalty, is_arrival),
            stop,
            round,
            is_arrival,
        )
    }
}

/// Offering the target what the current fronts `cur` of the first `k`
/// target stops give, stop by stop.
pub open spec fn offer_targets(
    tv: (Seq<ParetoLabel>, Option<StopIdx>, Option<usize>),
    cur: Seq<Seq<ParetoLabel>>,
    targets: Seq<(StopIdx, Duration)>,
    walk_penalty: u32,
    round: usize,
    is_arrival: bool,
    k: int,
) -> (Seq<ParetoLabel>, Option<StopIdx>, Option<usize>)
    decreases k,
{
    if k <= 0 {
        tv
    } else {
        let (stop, walk) = targets[k - 1];
        let labels = cur[stop.0 as int];
        offer_stop(
            offer_targets(tv, cur, targets, walk_penalty, round, is_arrival, k - 1),
            labels,
            stop,
            walk,
            walk_penalty,
            round,
            is_arrival,
            labels.len() as int,
        )
    }
}

/// Offers the target every label of the target stops' current fronts (see
/// [`reach_label`]); where one is accepted and costs no more than the best
/// cost of the target's front, its stop and `round` become the best ones.
/// Afterwards the target's front dominates every label offered and all it
/// dominated before.
fn evaluate_targets(query: &RaptorQuery, t: &Timetable, state: &mut State, round: usize, is_arrival: bool)
    requires
        t.wf(),
        old(state).wf(t),
        round < MAX_ROUNDS,
    ensures
        final(state).wf(t),
        fronts_are_antichains(old(state), is_arrival) ==> fronts_are_antichains(final(state), is_arrival),
        final(state).parents == old(state).parents,
        final(state).stop_count == old(state).stop_count,
        final(state).target_stops == old(state).target_stops,
        final(state).current_labels == old(state).current_labels,
        final(state).tau_star == old(state).tau_star,
        final(state).previous_labels == old(state).previous_labels,
        final(state).marked_stops == old(state).marked_stops,
        final(state).active_trip_patterns == old(state).active_trip_patterns,
        target_view(final(state)) == offer_targets(
            target_view(old(state)),
            fronts(old(state).current_labels@),
            old(state).target_stops@,
            query.walk_penalty,
            round,
            is_arrival,
            old(state).target_stops@.len() as int,
        ),
        forall|target: QueryLocation| old(state).ends_in(&target) ==> #[trigger] final(state).ends_in(&target),
        forall|l: ParetoLabel|
            dominated_in(old(state).target_tau_star@, l, is_arrival) ==> #[trigger] dominated_in(
                final(state).target_tau_star@,
                l,
                is_arrival,
            ),
        forall|k: int, j: int|
            0 <= k < old(state).target_stops@.len() && 0 <= j < target_labels(old(state), k).len() ==> dominated_in(
                final(state).target_tau_star@,
                #[trigger] reach_label(old(state), query, k, j, is_arrival),
                is_arrival,
            ),
        final(state).target_best_stop != old(state).target_best_stop || final(state).target_best_round != old(
            state,
        ).target_best_round ==> final(state).target_best_round == Some(round),
{
    let nt = state.target_stops.len();
    let mut k: usize = 0;
    while k < nt
        invariant
            t.wf(),
            state.wf(t),
            round < MAX_ROUNDS,
            nt == state.target_stops@.len(),
            fronts_are_antichains(old(state), is_arrival) ==> fronts_are_antichains(state, is_arrival),
            state.parents == old(state).parents,
            state.stop_count == old(state).stop_count,
            state.target_stops == old(state).target_stops,
            state.current_labels == old(state).current_labels,
            state.tau_star == old(state).tau_star,
            state.previous_labels == old(state).previous_labels,
            state.marked_stops == old(state).marked_stops,
            state.active_trip_patterns == old(state).active_trip_patterns,
            target_view(state) == offer_targets(
                target_view(old(state)),
                fronts(old(state).current_labels@),
                old(state).target_stops@,
                query.walk_penalty,
                round,
                is_arrival,
                k as int,
            ),
            forall|target: QueryLocation| old(state).ends_in(&target) ==> #[trigger] state.ends_in(&target),
            k <= nt,
            forall|l: ParetoLabel|
                dominated_in(old(state).target_tau_star@, l, is_arrival) ==> #[trigger] dominated_in(
                    state.target_tau_star@,
                    l,
                    is_arrival,
                ),
            forall|k2: int, j2: int|
                0 <= k2 < k && 0 <= j2 < target_labels(old(state), k2).len()
                    ==> dominated_in(state.target_tau_star@, #[trigger] reach_label(old(state), query, k2, j2, is_arrival), is_arrival),
            state.target_best_stop != old(state).target_best_stop || state.target_best_round != old(
                state,
            ).target_best_round ==> state.target_best_round == Some(round),
        decreases nt - k,
    {
        let (target_stop, duration) = state.target_stops[k];
        proof {
            assert(stop_ok(t, state.target_stops@[k as int].0));
        }
        let labels = state.current_labels[target_stop.as_usize()].iter();
        let mut j: usize = 0;
        while j < labels.len()
            invariant
                t.wf(),
                state.wf(t),
                round < MAX_ROUNDS,
                nt == state.target_stops@.len(),
                stop_ok(t, target_stop),
                fronts_are_antichains(old(state), is_arrival) ==> fronts_are_antichains(state, is_arrival),
                state.parents == old(state).parents,
                state.stop_count == old(state).stop_count,
                state.target_stops == old(state).target_stops,
                state.current_labels == old(state).current_labels,
                state.tau_star == old(state).tau_star,
                state.previous_labels == old(state).previous_labels,
                state.marked_stops == old(state).marked_stops,
                state.active_trip_patterns == old(state).active_trip_patterns,
                target_view(state) == offer_stop(
                    offer_targets(
                        target_view(old(state)),
                        fronts(old(state).current_labels@),
                        old(state).target_stops@,
                        query.walk_penalty,
                        round,
                        is_arrival,
                        k as int,
                    ),
                    labels@,
                    target_stop,
                    duration,
                    query.walk_penalty,
                    round,
                    is_arrival,
                    j as int,
                ),
                forall|target: QueryLocation| old(state).ends_in(&target) ==> #[trigger] state.ends_in(&target),
                k < nt,
                target_stop == state.target_stops@[k as int].0,
                duration == state.target_stops@[k as int].1,
                labels@ == state.current_labels@[target_stop.0 as int]@,
                j <= labels@.len(),
                forall|l: ParetoLabel|
                    dominated_in(old(state).target_tau_star@, l, is_arrival) ==> #[trigger] dominated_in(
                        state.target_tau_star@,
                        l,
                        is_arrival,
                    ),
                forall|k2: int, j2: int|
                    0 <= k2 < k && 0 <= j2 < target_labels(old(state), k2).len()
                        ==> dominated_in(state.target_tau_star@, #[trigger] reach_label(old(state), query, k2, j2, is_arrival), is_arrival),
                forall|j2: int|
                    0 <= j2 < j ==> dominated_in(state.target_tau_star@, #[trigger] reach_label(old(state), query, k as int, j2, is_arrival), is_arrival),
                state.target_best_stop != old(state).target_best_stop || state.target_best_round != old(
                    state,
                ).target_best_round ==> state.target_best_round == Some(round),
            decreases labels@.len() - j,
        {
            let label = labels[j];
            let ghost s0 = *state;
            let true_time = if is_arrival {
                sub_time(label.time, duration.0)
            } else {
                add_time(label.time, duration.0)
            };
            let true_cost = add_cost(label.cost, duration.0, query.walk_penalty);
            let new_label = ParetoLabel::new(true_time, true_cost);
            proof {
                if fronts_are_antichains(old(state), is_arrival) {
                    lemma_add_keeps_antichain(state.target_tau_star@, new_label, is_arrival);
                }
                assert(new_label == reach_label(old(state), query, k as int, j as int, is_arrival));
                assert(new_label == walked_label(labels@[j as int], duration, query.walk_penalty, is_arrival));
            }
            if state.target_tau_star.add(new_label, is_arrival) && true_cost <= state.target_tau_star.best_cost() {
                state.target_best_stop = Some(target_stop);
                state.target_best_round = Some(round);
            }
            proof {
                assert forall|target: QueryLocation| old(state).ends_in(&target) implies #[trigger] state.ends_in(&target) by {
                    assert(s0.ends_in(&target));
                    assert(target.reaches(s0.target_stops@[k as int].0));
                }
                lemma_add_covers_label(s0.target_tau_star@, new_label, is_arrival);
                assert forall|l: ParetoLabel| dominated_in(s0.target_tau_star@, l, is_arrival) implies #[trigger] dominated_in(
                    state.target_tau_star@,
                    l,
                    is_arrival,
                ) by {
                    lemma_add_monotone(s0.target_tau_star@, new_label, l, is_arrival);
                }
            }
            j += 1;
        }
        proof {
            assert(fronts(old(state).current_labels@)[target_stop.0 as int] == labels@);
        }
        k += 1;
    }
}

/// The first position of `stop` in the stop sequence of `pattern`.
fn position_in_pattern(t: &Timetable, pattern: TripPatternIdx, stop: StopIdx) -> (r: Option<usize>)
    requires
        t.wf(),
        pattern_ok(t, pattern),
    ensures
        r matches Some(p) ==> p < t.trip_patterns@[pattern.0 as int].stops@.len()
            && t.trip_patterns@[pattern.0 as int].stops@[p as int] == stop
            && forall|q: int| 0 <= q < p ==> t.trip_patterns@[pattern.0 as int].stops@[q] != stop,
        r is None ==> forall|q: int|
            0 <= q < t.trip_patterns@[pattern.0 as int].stops@.len() ==> t.trip_patterns@[pattern.0 as int].stops@[q] != stop,
{
    let stops = &t.trip_patterns[pattern.as_usize()].stops;
    let mut q: usize = 0;
    while q < stops.len()
        invariant
            stops == &t.trip_patterns@[pattern.0 as int].stops,
            q <= stops@.len(),
            forall|j: int| 0 <= j < q ==> stops@[j] != stop,
        decreases stops@.len() - q,
    {
        if stops[q].0 == stop.0 {
            return Some(q);
        }
        q += 1;
    }
    None
}

/// Position `q` of pattern `k` may start its scan: the stop there is
/// marked, lists the pattern among its own, and first appears in the
/// pattern at `q`.
pub open spec fn activates(t: &Timetable, marked: Seq<bool>, k: int, q: int) -> bool {
    let stops = t.trip_patterns@[k].stops@;
    &&& 0 <= q < stops.len()
    &&& marked[stops[q].0 as int]
    &&& t.stops@[stops[q].0 as int].trip_patterns@.contains(TripPatternIdx(k as u32))
    &&& forall|q2: int| 0 <= q2 < q ==> stops[q2] != stops[q]
}

/// Pattern `k` is scanned from its earliest such position forward (its
/// latest backward), and not at all where there is none.
pub open spec fn activation_ok(t: &Timetable, marked: Seq<bool>, active: Option<SequnceIdx>, k: int, is_arrival: bool) -> bool {
    match active {
        Some(p) => activates(t, marked, k, p.0 as int) && forall|q: int|
            #[trigger] activates(t, marked, k, q) ==> if is_arrival {
                q <= p.0
            } else {
                p.0 <= q
            },
        None => forall|q: int| !#[trigger] activates(t, marked, k, q),
    }
}

/// A position of pattern `k` that may start its scan, at a stop before `i`,
/// or at stop `i` where the pattern is among the first `j` of its patterns.
spec fn seen_by(t: &Timetable, marked: Seq<bool>, k: int, q: int, i: int, j: int) -> bool {
    let s = t.trip_patterns@[k].stops@[q].0 as int;
    &&& activates(t, marked, k, q)
    &&& (s < i || (s == i && t.stops@[i].trip_patterns@.subrange(0, j).contains(TripPatternIdx(k as u32))))
}

/// [`activation_ok`] over the positions [`seen_by`] admits.
spec fn activation_upto(
    t: &Timetable,
    marked: Seq<bool>,
    active: Option<SequnceIdx>,
    k: int,
    i: int,
    j: int,
    is_arrival: bool,
) -> bool {
    match active {
        Some(p) => seen_by(t, marked, k, p.0 as int, i, j) && forall|q: int|
            #[trigger] seen_by(t, marked, k, q, i, j) ==> if is_arrival {
                q <= p.0
            } else {
                p.0 <= q
            },
        None => forall|q: int| !#[trigger] seen_by(t, marked, k, q, i, j),
    }
}

/// Taking one more of stop `i`'s patterns into account adds the positions
/// of stop `i` in that pattern.
proof fn lemma_seen_step(t: &Timetable, marked: Seq<bool>, k: int, q: int, i: int, j: int)
    requires
        0 <= i < t.stops@.len(),
        0 <= j < t.stops@[i].trip_patterns@.len(),
    ensures
        seen_by(t, marked, k, q, i, j + 1) == (seen_by(t, marked, k, q, i, j) || (activates(t, marked, k, q)
            && t.trip_patterns@[k].stops@[q].0 == i && t.stops@[i].trip_patterns@[j] == TripPatternIdx(k as u32))),
{
    let ps = t.stops@[i].trip_patterns@;
    let x = TripPatternIdx(k as u32);
    let longer = ps.subrange(0, j + 1);
    let shorter = ps.subrange(0, j);
    assert(longer =~= shorter.push(ps[j]));
    if longer.contains(x) {
        let w = choose|w: int| 0 <= w < longer.len() && #[trigger] longer[w] == x;
        if w < j {
            assert(shorter[w] == x);
        }
    }
    if shorter.contains(x) {
        let w = choose|w: int| 0 <= w < shorter.len() && #[trigger] shorter[w] == x;
        assert(longer[w] == x);
    }
    if ps[j] == x {
        assert(longer[j] == x);
    }
}

/// Once all of stop `i`'s patterns are taken into account, the positions
/// admitted are those at stops up to `i`.
proof fn lemma_seen_next(t: &Timetable, marked: Seq<bool>, k: int, q: int, i: int)
    requires
        0 <= i < t.stops@.len(),
    ensures
        seen_by(t, marked, k, q, i, t.stops@[i].trip_patterns@.len() as int) == seen_by(t, marked, k, q, i + 1, 0),
{
    let ps = t.stops@[i].trip_patterns@;
    assert(ps.subrange(0, ps.len() as int) =~= ps);
}

/// Marks, for each trip pattern through a marked stop, the position from
/// which it is to be ridden: the earliest marked position forward, the
/// latest backward (see [`activation_ok`]).
fn activate_trip_patterns(t: &Timetable, state: &mut State, is_arrival: bool)
    requires
        t.wf(),
        old(state).wf(t),
    ensures
        final(state).wf(t),
        final(state).tau_star == old(state).tau_star,
        final(state).current_labels == old(state).current_labels,
        final(state).previous_labels == old(state).previous_labels,
        final(state).target_tau_star == old(state).target_tau_star,
        final(state).marked_stops == old(state).marked_stops,
        final(state).parents == old(state).parents,
        final(state).stop_count == old(state).stop_count,
        final(state).target_stops == old(state).target_stops,
        final(state).target_best_stop == old(state).target_best_stop,
        final(state).target_best_round == old(state).target_best_round,
        forall|k: int|
            0 <= k < t.trip_patterns@.len() ==> #[trigger] activation_ok(
                t,
                old(state).marked_stops@,
                final(state).active_trip_patterns@[k],
                k,
                is_arrival,
            ),
{
    let ghost marked = state.marked_stops@;
    let np = state.active_trip_patterns.len();
    let mut k: usize = 0;
    while k < np
        invariant
            t.wf(),
            state.wf(t),
            np == state.active_trip_patterns@.len(),
            k <= np,
            state.tau_star == old(state).tau_star,
            state.current_labels == old(state).current_labels,
            state.previous_labels == old(state).previous_labels,
            state.target_tau_star == old(state).target_tau_star,
            state.marked_stops == old(state).marked_stops,
            state.parents == old(state).parents,
            state.stop_count == old(state).stop_count,
            state.target_stops == old(state).target_stops,
            state.target_best_stop == old(state).target_best_stop,
            state.target_best_round == old(state).target_best_round,
            forall|j: int| 0 <= j < k ==> #[trigger] state.active_trip_patterns@[j] is None,
        decreases np - k,
    {
        state.active_trip_patterns.set(k, None);
        k += 1;
    }
    proof {
        assert forall|kk: int| 0 <= kk < np implies #[trigger] activation_upto(
            t,
            marked,
            state.active_trip_patterns@[kk],
            kk,
            0,
            0,
            is_arrival,
        ) by {
            assert forall|q: int| !#[trigger] seen_by(t, marked, kk, q, 0, 0) by {
                if seen_by(t, marked, kk, q, 0, 0) {
                    assert(t.stops@[0].trip_patterns@.subrange(0, 0).len() == 0);
                }
            }
        }
    }
    let n = state.marked_stops.len();
    let mut i: usize = 0;
    while i < n
        invariant
            t.wf(),
            state.wf(t),
            n == state.marked_stops@.len(),
            n == t.stops@.len(),
            np == state.active_trip_patterns@.len(),
            np == t.trip_patterns@.len(),
            i <= n,
            marked == old(state).marked_stops@,
            state.tau_star == old(state).tau_star,
            state.current_labels == old(state).current_labels,
            state.previous_labels == old(state).previous_labels,
            state.target_tau_star == old(state).target_tau_star,
            state.marked_stops == old(state).marked_stops,
            state.parents == old(state).parents,
            state.stop_count == old(state).stop_count,
            state.target_stops == old(state).target_stops,
            state.target_best_stop == old(state).target_best_stop,
            state.target_best_round == old(state).target_best_round,
            forall|kk: int|
                0 <= kk < np ==> #[trigger] activation_upto(
                    t,
                    marked,
                    state.active_trip_patterns@[kk],
                    kk,
                    i as int,
                    0,
                    is_arrival,
                ),
        decreases n - i,
    {
        proof {
            assert(t.stop_wf(i as int));
        }
        if state.marked_stops[i] {
            let marked_stop = StopIdx(i as u32);
            let patterns = &t.stops[i].trip_patterns;
            let mut j: usize = 0;
            while j < patterns.len()
                invariant
                    t.wf(),
                    state.wf(t),
                    i < n,
                    n == t.stops@.len(),
                    np == state.active_trip_patterns@.len(),
                    np == t.trip_patterns@.len(),
                    marked == old(state).marked_stops@,
                    marked[i as int],
                    marked_stop == StopIdx(i as u32),
                    patterns == &t.stops@[i as int].trip_patterns,
                    t.stop_wf(i as int),
                    j <= patterns@.len(),
                    state.tau_star == old(state).tau_star,
                    state.current_labels == old(state).current_labels,
                    state.previous_labels == old(state).previous_labels,
                    state.target_tau_star == old(state).target_tau_star,
                    state.marked_stops == old(state).marked_stops,
                    state.parents == old(state).parents,
                    state.stop_count == old(state).stop_count,
                    state.target_stops == old(state).target_stops,
                    state.target_best_stop == old(state).target_best_stop,
                    state.target_best_round == old(state).target_best_round,
                    forall|kk: int|
                        0 <= kk < np ==> #[trigger] activation_upto(
                            t,
                            marked,
                            state.active_trip_patterns@[kk],
                            kk,
                            i as int,
                            j as int,
                            is_arrival,
                        ),
                decreases patterns@.len() - j,
            {
                let pattern = patterns[j];
                proof {
                    assert(pattern_ok(t, t.stops@[i as int].trip_patterns@[j as int]));
                    assert(t.pattern_wf(pattern.0 as int));
                }
                let ghost pre = *state;
                let ghost pk = pattern.0 as int;
                let found = position_in_pattern(t, pattern, marked_stop);
                if let Some(p) = found {
                    let p_idx = SequnceIdx(p as u32);
                    let pi = pattern.as_usize();
                    let active = state.active_trip_patterns[pi];
                    let replace = match active {
                        Some(a) => if is_arrival { p_idx.0 > a.0 } else { p_idx.0 < a.0 },
                        None => true,
                    };
                    if replace {
                        state.active_trip_patterns.set(pi, Some(p_idx));
                        proof {
                            assert forall|kk: int| 0 <= kk < state.active_trip_patterns@.len() implies (#[trigger] state.active_trip_patterns@[kk] matches Some(q) ==> q.0 < t.trip_patterns@[kk].stops@.len()) by {
                                if kk != pi {
                                    assert(state.active_trip_patterns@[kk] == pre.active_trip_patterns@[kk]);
                                }
                            }
                        }
                    }
                }
                proof {
                    assert(TripPatternIdx(pk as u32) == pattern);
                    assert forall|kk: int| 0 <= kk < np implies #[trigger] activation_upto(
                        t,
                        marked,
                        state.active_trip_patterns@[kk],
                        kk,
                        i as int,
                        j + 1,
                        is_arrival,
                    ) by {
                        assert(activation_upto(t, marked, pre.active_trip_patterns@[kk], kk, i as int, j as int, is_arrival));
                        assert forall|q: int| #[trigger] seen_by(t, marked, kk, q, i as int, j + 1) == (seen_by(
                            t,
                            marked,
                            kk,
                            q,
                            i as int,
                            j as int,
                        ) || (kk == pk && activates(t, marked, kk, q) && t.trip_patterns@[kk].stops@[q].0 == i)) by {
                            lemma_seen_step(t, marked, kk, q, i as int, j as int);
                            if t.stops@[i as int].trip_patterns@[j as int] == TripPatternIdx(kk as u32) {
                                assert(kk == pk);
                            }
                        }
                        if kk != pk {
                            assert(state.active_trip_patterns@[kk] == pre.active_trip_patterns@[kk]);
                            assert forall|q: int| #[trigger] seen_by(t, marked, kk, q, i as int, j + 1) == seen_by(
                                t,
                                marked,
                                kk,
                                q,
                                i as int,
                                j as int,
                            ) by {}
                        } else {
                            match found {
                                None => {
                                    assert(state.active_trip_patterns@[kk] == pre.active_trip_patterns@[kk]);
                                    assert forall|q: int| #[trigger] seen_by(t, marked, kk, q, i as int, j + 1) == seen_by(
                                        t,
                                        marked,
                                        kk,
                                        q,
                                        i as int,
                                        j as int,
                                    ) by {
                                        if activates(t, marked, kk, q) {
                                            assert(t.trip_patterns@[kk].stops@[q] != marked_stop);
                                        }
                                    }
                                },
                                Some(p) => {
                                    assert(t.stops@[i as int].trip_patterns@.contains(pattern)) by {
                                        assert(t.stops@[i as int].trip_patterns@[j as int] == pattern);
                                    }
                                    assert(activates(t, marked, kk, p as int));
                                    assert forall|q: int| #[trigger] seen_by(t, marked, kk, q, i as int, j + 1) == (seen_by(
                                        t,
                                        marked,
                                        kk,
                                        q,
                                        i as int,
                                        j as int,
                                    ) || q == p) by {
                                        if activates(t, marked, kk, q) && t.trip_patterns@[kk].stops@[q].0 == i {
                                            assert(t.trip_patterns@[kk].stops@[q] == marked_stop);
                                            if q < p {
                                                assert(false);
                                            }
                                            if q > p {
                                                assert(t.trip_patterns@[kk].stops@[p as int] == t.trip_patterns@[kk].stops@[q]);
                                                assert(false);
                                            }
                                        }
                                    }
                                },
                            }
                        }
                    }
                }
                j += 1;
            }
            proof {
                assert forall|kk: int| 0 <= kk < np implies #[trigger] activation_upto(
                    t,
                    marked,
                    state.active_trip_patterns@[kk],
                    kk,
                    i + 1,
                    0,
                    is_arrival,
                ) by {
                    assert(activation_upto(t, marked, state.active_trip_patterns@[kk], kk, i as int, patterns@.len() as int, is_arrival));
                    assert forall|q: int| #[trigger] seen_by(t, marked, kk, q, i + 1, 0) == seen_by(
                        t,
                        marked,
                        kk,
                        q,
                        i as int,
                        patterns@.len() as int,
                    ) by {
                        lemma_seen_next(t, marked, kk, q, i as int);
                    }
                }
            }
        } else {
            proof {
                assert forall|kk: int| 0 <= kk < np implies #[trigger] activation_upto(
                    t,
                    marked,
                    state.active_trip_patterns@[kk],
                    kk,
                    i + 1,
                    0,
                    is_arrival,
                ) by {
                    assert(activation_upto(t, marked, state.active_trip_patterns@[kk], kk, i as int, 0, is_arrival));
                    assert forall|q: int| #[trigger] seen_by(t, marked, kk, q, i + 1, 0) == seen_by(
                        t,
                        marked,
                        kk,
                        q,
                        i as int,
                        0,
                    ) by {}
                }
            }
        }
        i += 1;
    }
    proof {
        assert forall|kk: int| 0 <= kk < t.trip_patterns@.len() implies #[trigger] activation_ok(
            t,
            old(state).marked_stops@,
            state.active_trip_patterns@[kk],
            kk,
            is_arrival,
        ) by {
            assert(activation_upto(t, marked, state.active_trip_patterns@[kk], kk, n as int, 0, is_arrival));
            assert(t.pattern_wf(kk));
            assert forall|q: int| #[trigger] activates(t, marked, kk, q) == seen_by(t, marked, kk, q, n as int, 0) by {
                if activates(t, marked, kk, q) {
                    assert(stop_ok(t, t.trip_patterns@[kk].stops@[q]));
                }
            }
        }
    }
}

/// The rides offered by the pattern phase reach the stops they are offered for.
proof fn lemma_rides_reach(t: &Timetable, query: &RaptorQuery, us: Seq<Update>, is_arrival: bool)
    requires
        forall|k: int| 0 <= k < us.len() ==> some_ride(t, query, #[trigger] us[k], is_arrival),
    ensures
        forall|k: int|
            0 <= k < us.len() ==> transit_reaches(t, (#[trigger] us[k]).parent, us[k].stop.0 as int, is_arrival),
        forall|k: int| 0 <= k < us.len() ==> (#[trigger] us[k]).parent is Transit,
{
    assert forall|k: int| 0 <= k < us.len() implies transit_reaches(t, (#[trigger] us[k]).parent, us[k].stop.0 as int, is_arrival)
        && us[k].parent is Transit by {
        assert(some_ride(t, query, us[k], is_arrival));
        let p = choose|p: TripPatternIdx| pattern_ok(t, p) && #[trigger] ride_update(t, query, p, us[k], is_arrival);
        assert(ride_update(t, query, p, us[k], is_arrival));
    }
}

/// Transfers and walks are not rides.
proof fn lemma_hops_reach(state: &State, t: &Timetable, walks: &Walks, query: &RaptorQuery, us: Seq<Update>, is_arrival: bool)
    requires
        forall|k: int| 0 <= k < us.len() ==> sound_update(state, t, #[trigger] us[k], is_arrival) && hop_update(state, t, walks, query, us[k], is_arrival),
    ensures
        forall|k: int|
            0 <= k < us.len() ==> transit_reaches(t, (#[trigger] us[k]).parent, us[k].stop.0 as int, is_arrival),
        forall|k: int| 0 <= k < us.len() ==> (#[trigger] us[k]).parent is Transfer || us[k].parent is Walk,
{
    assert forall|k: int| 0 <= k < us.len() implies transit_reaches(t, (#[trigger] us[k]).parent, us[k].stop.0 as int, is_arrival)
        && (us[k].parent is Transfer || us[k].parent is Walk) by {
        assert(hop_update(state, t, walks, query, us[k], is_arrival));
    }
}

/// Whether any stop is marked.
fn any_marked(state: &State) -> (r: bool)
    ensures
        r == exists|i: int| 0 <= i < state.marked_stops@.len() && #[trigger] state.marked_stops@[i],
{
    let n = state.marked_stops.len();
    let mut i: usize = 0;
    while i < n
        invariant
            n == state.marked_stops@.len(),
            i <= n,
            forall|j: int| 0 <= j < i ==> !#[trigger] state.marked_stops@[j],
        decreases n - i,
    {
        if state.marked_stops[i] {
            return true;
        }
        i += 1;
    }
    false
}

/// Some stop is marked.
pub open spec fn has_marked(state: &State) -> bool {
    exists|i: int| 0 <= i < state.marked_stops@.len() && #[trigger] state.marked_stops@[i]
}

/// The time the query fixes, whichever its direction.
pub open spec fn query_time(query: &RaptorQuery) -> Time {
    match query.time_direction {
        TimeDirection::Arrival(time) => time,
        TimeDirection::Departure(time) => time,
    }
}

/// `b` is `a` with the start of `query` seeded (see [`seed_start_view`]) and
/// its target stops recorded (see [`target_seeds`]).
pub open spec fn seeded(a: &State, b: &State, t: &Timetable, walks: &Walks, query: &RaptorQuery) -> bool {
    let is_arrival = query.is_arrival();
    let access = if is_arrival { walks.destination@ } else { walks.origin@ };
    let target_access = if is_arrival { walks.origin@ } else { walks.destination@ };
    &&& b.search_view() == seed_start_view(
        a.search_view(),
        t,
        a.num_stops(),
        &query.start(),
        access,
        query_time(query),
        query.walk_penalty,
        is_arrival,
    )
    &&& b.target_stops@ == a.target_stops@ + target_seeds(t, &query.target(), target_access)
    &&& b.num_stops() == a.num_stops()
    &&& b.previous_labels == a.previous_labels
    &&& b.active_trip_patterns == a.active_trip_patterns
    &&& b.target_tau_star == a.target_tau_star
    &&& b.target_best_stop == a.target_best_stop
    &&& b.target_best_round == a.target_best_round
}

/// `b` is `a` with the updates `us` applied in `round` (see [`apply_all`]).
pub open spec fn applied(a: &State, b: &State, us: Seq<Update>, round: nat, is_arrival: bool) -> bool {
    &&& forall|k: int| 0 <= k < us.len() ==> (#[trigger] us[k]).stop.0 < a.num_stops()
    &&& b.search_view() == apply_all(a.search_view(), a.target_tau_star@, a.num_stops(), round, is_arrival, us)
    &&& b.num_stops() == a.num_stops()
    &&& b.previous_labels == a.previous_labels
    &&& b.active_trip_patterns == a.active_trip_patterns
    &&& b.target_tau_star == a.target_tau_star
    &&& b.target_stops == a.target_stops
    &&& b.target_best_stop == a.target_best_stop
    &&& b.target_best_round == a.target_best_round
}

/// `b` is `a` with the target offered what the target stops' current fronts
/// give in `round` (see [`offer_targets`]).
pub open spec fn evaluated(a: &State, b: &State, query: &RaptorQuery, round: usize, is_arrival: bool) -> bool {
    &&& target_view(b) == offer_targets(
        target_view(a),
        fronts(a.current_labels@),
        a.target_stops@,
        query.walk_penalty,
        round,
        is_arrival,
        a.target_stops@.len() as int,
    )
    &&& b.search_view() == a.search_view()
    &&& b.num_stops() == a.num_stops()
    &&& b.previous_labels == a.previous_labels
    &&& b.active_trip_patterns == a.active_trip_patterns
    &&& b.target_stops == a.target_stops
}

/// `b` is `a` turned to a new round: the current fronts become the previous
/// ones and are emptied, each trip pattern is activated from the stops
/// marked in `a` (see [`activation_ok`]), and no stop is marked.
pub open spec fn turned(a: &State, b: &State, t: &Timetable, is_arrival: bool) -> bool {
    &&& b.previous_labels == a.current_labels
    &&& b.current_labels@.len() == a.current_labels@.len()
    &&& forall|i: int| 0 <= i < b.current_labels@.len() ==> (#[trigger] b.current_labels@[i])@.len() == 0
    &&& b.marked_stops@.len() == a.marked_stops@.len()
    &&& forall|i: int| 0 <= i < b.marked_stops@.len() ==> !#[trigger] b.marked_stops@[i]
    &&& b.active_trip_patterns@.len() == t.trip_patterns@.len()
    &&& forall|k: int|
        0 <= k < t.trip_patterns@.len() ==> #[trigger] activation_ok(t, a.marked_stops@, b.active_trip_patterns@[k], k, is_arrival)
    &&& b.tau_star == a.tau_star
    &&& b.parents == a.parents
    &&& b.stop_count == a.stop_count
    &&& b.target_tau_star == a.target_tau_star
    &&& b.target_stops == a.target_stops
    &&& b.target_best_stop == a.target_best_stop
    &&& b.target_best_round == a.target_best_round
}

/// Round `r` (from 1) of the search recorded in `trace`: from the state that
/// ended the round before, in which some stop is marked, the round is
/// turned, the trip patterns are ridden (see [`patterns_out`]), transfers
/// and walks are followed (see [`hops_out`]), and the target is offered what
/// was reached.
pub open spec fn round_ok(trace: Seq<State>, r: int, t: &Timetable, walks: &Walks, query: &RaptorQuery) -> bool {
    let is_arrival = query.is_arrival();
    let e = 4 * r - 2;
    &&& has_marked(&trace[e])
    &&& turned(&trace[e], &trace[e + 1], t, is_arrival)
    &&& applied(
        &trace[e + 1],
        &trace[e + 2],
        patterns_out(&trace[e + 1], t, query, is_arrival, t.trip_patterns@.len() as int),
        r as nat,
        is_arrival,
    )
    &&& applied(
        &trace[e + 2],
        &trace[e + 3],
        hops_out(&trace[e + 2], t, walks, query, is_arrival, t.stops@.len() as int),
        r as nat,
        is_arrival,
    )
    &&& evaluated(&trace[e + 3], &trace[e + 4], query, r as usize, is_arrival)
}

/// The number of rounds after the first that `trace` records.
pub open spec fn trace_rounds(trace: Seq<State>) -> int {
    (trace.len() - 3) / 4
}

/// `trace` records the search for `query` from `s0` so far: seeding, the
/// transfers and walks from the start and the first offer to the target
/// (round 0), then each further round (see [`round_ok`]).
pub open spec fn trace_ok(s0: &State, trace: Seq<State>, t: &Timetable, walks: &Walks, query: &RaptorQuery) -> bool {
    let is_arrival = query.is_arrival();
    &&& trace.len() >= 3
    &&& (trace.len() - 3) % 4 == 0
    &&& forall|i: int| 0 <= i < trace.len() ==> (#[trigger] trace[i]).dims_ok() && trace[i].num_stops() == s0.num_stops()
    &&& seeded(s0, &trace[0], t, walks, query)
    &&& applied(&trace[0], &trace[1], hops_out(&trace[0], t, walks, query, is_arrival, t.stops@.len() as int), 0, is_arrival)
    &&& evaluated(&trace[1], &trace[2], query, 0, is_arrival)
    &&& forall|r: int| 1 <= r <= trace_rounds(trace) ==> #[trigger] round_ok(trace, r, t, walks, query)
}

/// The search for `query` from `s0` ends in `last`: some record of it ends
/// there, after the last round ([`MAX_ROUNDS`] in all) or where no stop is
/// marked any more. Each step of a record is stated exactly, over the views
/// of the states (see [`seeded`], [`applied`], [`turned`], [`evaluated`]).
pub open spec fn search_run(s0: &State, last: &State, t: &Timetable, walks: &Walks, query: &RaptorQuery) -> bool {
    exists|trace: Seq<State>|
        #[trigger] trace_ok(s0, trace, t, walks, query) && trace.last() == *last && (trace_rounds(trace) + 1
            == MAX_ROUNDS || !has_marked(&trace.last()))
}

/// A record stays one of the same search when a further round is appended.
proof fn lemma_trace_extends(s0: &State, trace: Seq<State>, more: Seq<State>, t: &Timetable, walks: &Walks, query: &RaptorQuery)
    requires
        trace_ok(s0, trace, t, walks, query),
        more.len() == 4,
        forall|i: int| 0 <= i < 4 ==> (#[trigger] more[i]).dims_ok() && more[i].num_stops() == s0.num_stops(),
        round_ok(trace + more, trace_rounds(trace) + 1, t, walks, query),
    ensures
        trace_ok(s0, trace + more, t, walks, query),
        trace_rounds(trace + more) == trace_rounds(trace) + 1,
{
    let nt = trace + more;
    assert forall|i: int| 0 <= i < nt.len() implies (#[trigger] nt[i]).dims_ok() && nt[i].num_stops() == s0.num_stops() by {
        if i < trace.len() {
            assert(nt[i] == trace[i]);
        } else {
            assert(nt[i] == more[i - trace.len()]);
        }
    }
    assert(nt[0] == trace[0]);
    assert(nt[1] == trace[1]);
    assert(nt[2] == trace[2]);
    assert(trace_rounds(nt) == trace_rounds(trace) + 1);
    assert forall|r: int| 1 <= r <= trace_rounds(nt) implies #[trigger] round_ok(nt, r, t, walks, query) by {
        if r <= trace_rounds(trace) {
            assert(round_ok(trace, r, t, walks, query));
            let e = 4 * r - 2;
            assert(nt[e] == trace[e]);
            assert(nt[e + 1] == trace[e + 1]);
            assert(nt[e + 2] == trace[e + 2]);
            assert(nt[e + 3] == trace[e + 3]);
            assert(nt[e + 4] == trace[e + 4]);
        }
    }
}

/// The walks between the stops and the target of a search for `query`: to
/// the destination forward, from the origin backward.
pub open spec fn target_walks(walks: &Walks, query: &RaptorQuery) -> Seq<(StopIdx, Duration)> {
    if query.is_arrival() {
        walks.origin@
    } else {
        walks.destination@
    }
}

/// Where a search starts with no target stop and records none, no state it
/// passes through has a target stop or a best one.
proof fn lemma_no_target_stays(s0: &State, trace: Seq<State>, t: &Timetable, walks: &Walks, query: &RaptorQuery, i: int)
    requires
        trace_ok(s0, trace, t, walks, query),
        s0.target_stops@.len() == 0,
        s0.target_best_stop is None,
        s0.target_best_round is None,
        target_seeds(t, &query.target(), target_walks(walks, query)).len() == 0,
        0 <= i < trace.len(),
    ensures
        trace[i].target_stops@.len() == 0,
        trace[i].target_best_stop is None,
        trace[i].target_best_round is None,
    decreases i,
{
    if i == 0 {
        assert(trace[0].target_stops@ == s0.target_stops@ + target_seeds(t, &query.target(), target_walks(walks, query)));
    } else if i <= 2 {
        lemma_no_target_stays(s0, trace, t, walks, query, i - 1);
    } else {
        lemma_no_target_stays(s0, trace, t, walks, query, i - 1);
        let r = (i + 1) / 4;
        assert(4 * r - 1 <= i <= 4 * r + 2);
        assert(1 <= r <= trace_rounds(trace));
        assert(round_ok(trace, r, t, walks, query));
    }
}

/// Applying updates of a round below [`MAX_ROUNDS`] to stops of the
/// network leaves the parent slots from `n * MAX_ROUNDS` on as they were.
proof fn lemma_apply_all_spare(v: SearchView, target: Seq<ParetoLabel>, n: nat, round: nat, is_arrival: bool, us: Seq<Update>, k: int)
    requires
        round < MAX_ROUNDS,
        forall|i: int| 0 <= i < us.len() ==> (#[trigger] us[i]).stop.0 < n,
        n * MAX_ROUNDS <= k < v.parents.len(),
    ensures
        apply_all(v, target, n, round, is_arrival, us).parents.len() == v.parents.len(),
        apply_all(v, target, n, round, is_arrival, us).parents[k] == v.parents[k],
    decreases us.len(),
{
    if us.len() > 0 {
        lemma_apply_all_spare(v, target, n, round, is_arrival, us.drop_last(), k);
        lemma_slot_bound(n, round, us.last().stop.0 as nat);
    }
}

/// Seeding stops of the network leaves the parent slots from
/// `n * MAX_ROUNDS` on as they were.
proof fn lemma_seed_spare(
    v: SearchView,
    t: &Timetable,
    n: nat,
    start: &QueryLocation,
    access: Seq<(StopIdx, Duration)>,
    time: Time,
    walk_penalty: u32,
    is_arrival: bool,
    k: int,
)
    requires
        n == t.stops@.len(),
        start.wf(t),
        walk_list_ok(t, access),
        n * MAX_ROUNDS <= k < v.parents.len(),
    ensures
        seed_start_view(v, t, n, start, access, time, walk_penalty, is_arrival).parents.len() == v.parents.len(),
        seed_start_view(v, t, n, start, access, time, walk_penalty, is_arrival).parents[k] == v.parents[k],
{
    let init = ParetoLabel { time, cost: 0 };
    match start {
        QueryLocation::Stop(s) => {
            lemma_slot_bound(n, 0, s.0 as nat);
        },
        QueryLocation::Stops(stops) => {
            lemma_seed_stops_spare(v, t, n, stops@, init, is_arrival, k);
        },
        QueryLocation::Coordinate(_) => {
            lemma_seed_walks_spare(v, t, n, access, time, walk_penalty, is_arrival, k);
        },
    }
}

proof fn lemma_seed_stops_spare(v: SearchView, t: &Timetable, n: nat, stops: Seq<StopIdx>, label: ParetoLabel, is_arrival: bool, k: int)
    requires
        n == t.stops@.len(),
        forall|i: int| 0 <= i < stops.len() ==> stop_ok(t, #[trigger] stops[i]),
        n * MAX_ROUNDS <= k < v.parents.len(),
    ensures
        seed_stops(v, t, n, stops, label, is_arrival).parents.len() == v.parents.len(),
        seed_stops(v, t, n, stops, label, is_arrival).parents[k] == v.parents[k],
    decreases stops.len(),
{
    if stops.len() > 0 {
        lemma_seed_stops_spare(v, t, n, stops.drop_last(), label, is_arrival, k);
        assert(stop_ok(t, stops[stops.len() - 1]));
        lemma_slot_bound(n, 0, stops.last().0 as nat);
    }
}

proof fn lemma_seed_walks_spare(
    v: SearchView,
    t: &Timetable,
    n: nat,
    access: Seq<(StopIdx, Duration)>,
    time: Time,
    walk_penalty: u32,
    is_arrival: bool,
    k: int,
)
    requires
        n == t.stops@.len(),
        walk_list_ok(t, access),
        n * MAX_ROUNDS <= k < v.parents.len(),
    ensures
        seed_walks(v, t, n, access, time, walk_penalty, is_arrival).parents.len() == v.parents.len(),
        seed_walks(v, t, n, access, time, walk_penalty, is_arrival).parents[k] == v.parents[k],
    decreases access.len(),
{
    if access.len() > 0 {
        assert(walk_list_ok(t, access.drop_last()));
        lemma_seed_walks_spare(v, t, n, access.drop_last(), time, walk_penalty, is_arrival, k);
        assert(stop_ok(t, access[access.len() - 1].0));
        lemma_slot_bound(n, 0, access.last().0.0 as nat);
    }
}

/// One search in the query's direction, from a fresh state.
fn solve_core(query: &RaptorQuery, t: &Timetable, walks: &Walks, state: &mut State) -> (r: Result<Itinerary, Error>)
    requires
        t.wf(),
        walks.wf(t),
        query.wf(t),
        old(state).wf(t),
    ensures
        final(state).wf(t),
        fronts_are_antichains(old(state), query.is_arrival()) ==> fronts_are_antichains(final(state), query.is_arrival()),
        (final(state).target_best_stop is None || final(state).target_best_round is None) ==> r == Err::<Itinerary, Error>(Error::NoRoute),
        old(state).parents_consistent(t, query.is_arrival()) ==> final(state).parents_consistent(t, query.is_arrival()),
        old(state).parents_consistent(t, query.is_arrival()) ==> (r matches Ok(it) ==> is_journey(&it)),
        r is Ok ==> final(state).target_best_stop is Some && final(state).target_best_round is Some,
        r matches Ok(it) ==> query.origin.ends_at(t, it.from) && query.destination.ends_at(t, it.to),
        old(state).starts_from(&query.start()) && old(state).ends_in(&query.target()) ==> (r matches Ok(it)
            ==> query.origin.holds(it.from) && query.destination.holds(it.to)),
        r matches Ok(it) ==> rides_recorded(final(state), t, it.legs@, query.is_arrival()),
        r is Ok <==> search_found(final(state), t, query.is_arrival()),
        search_run(old(state), final(state), t, walks, query),
        r matches Ok(it) ==> is_recorded_journey(&it, final(state), t, query),
        !query.is_arrival() ==> (r matches Ok(it) ==> (query.destination is Coordinate && !walk_before_end(final(state), query)
            ==> it.legs@.len() > 0 && it.legs@.last().departure_time == LiveTime::scheduled_only_spec(
            stop_label_time(final(state), final(state).target_best_stop.unwrap()),
        ))),
        query.is_arrival() ==> (r matches Ok(it) ==> (query.origin is Coordinate && !walk_before_end(final(state), query)
            ==> it.legs@.len() > 0 && it.legs@[0].arrival_time == LiveTime::scheduled_only_spec(
            stop_label_time(final(state), final(state).target_best_stop.unwrap()),
        ))),
        old(state).is_clear() && query.origin is Stop && query.destination == query.origin ==> (r matches Ok(it)
            && it.legs@.len() == 0 && it.from == Location::Stop(query.origin->Stop_0) && it.to == Location::Stop(
            query.origin->Stop_0,
        )),
        final(state).parents@[old(state).num_stops() * MAX_ROUNDS] == old(state).parents@[old(state).num_stops() * MAX_ROUNDS],
        r matches Ok(it) ==> transit_count(it.legs@) <= MAX_ROUNDS,
        old(state).starts_from(&query.start()) && old(state).ends_in(&query.target()) ==> (r matches Ok(it)
            ==> transit_count(it.legs@) < MAX_ROUNDS),
        old(state).starts_from(&query.start()) && old(state).ends_in(&query.target()) ==> (r matches Ok(it) ==> ((if query.is_arrival() {
            it.to
        } else {
            it.from
        }) matches Location::Stop(c) ==> final(state).parents@[parent_slot(final(state).num_stops(), 0, c)] == Some(Parent::Origin))),
        old(state).target_stops@.len() == 0 && old(state).target_best_stop is None && old(state).target_best_round is None
            && target_seeds(t, &query.target(), target_walks(walks, query)).len() == 0 ==> r == Err::<Itinerary, Error>(
            Error::NoRoute,
        ),
        r matches Ok(it) ==> (it.legs@.len() == 0 <==> legless(final(state), query)),
        r matches Ok(it) ==> forall|i: int| 0 <= i < it.legs@.len() ==> bare_leg(#[trigger] it.legs@[i]),
        old(state).parents_consistent(t, query.is_arrival()) ==> (r matches Ok(it) ==> forall|i: int|
            0 <= i < it.legs@.len() ==> short_of_start(final(state), #[trigger] it.legs@[i], query.is_arrival())),
        query.is_arrival() ==> (r matches Ok(it) ==> (it.legs@.len() > 0 ==> it.legs@[0].departure_time.scheduled
            == first_departure(final(state), query))),
        !query.is_arrival() ==> (r matches Ok(it) ==> (query.destination is Coordinate ==> it.legs@.len() > 0
            && it.legs@.last().arrival_time == LiveTime::scheduled_only_spec(
            target_label_time(final(state), final(state).target_best_stop.unwrap()),
        ))),
        r is Err ==> r == Err::<Itinerary, Error>(Error::NoRoute),
        r matches Ok(it) ==> match query.time_direction {
            TimeDirection::Departure(d) => query.origin is Coordinate ==> it.legs@.len() > 0
                && it.legs@[0].departure_time == LiveTime::scheduled_only_spec(d),
            TimeDirection::Arrival(a) => query.destination is Coordinate ==> it.legs@.len() > 0
                && it.legs@.last().arrival_time == LiveTime::scheduled_only_spec(a),
        },
{
    let ghost se = old(state).starts_from(&query.start()) && old(state).ends_in(&query.target());
    let is_arrival = matches!(query.time_direction, TimeDirection::Arrival(_));
    let time = match query.time_direction {
        TimeDirection::Arrival(time) => time,
        TimeDirection::Departure(time) => time,
    };
    if is_arrival {
        seed_start(query, t, walks, state, &query.destination, &walks.destination, time, true);
        seed_targets(t, state, &query.origin, &walks.origin);
    } else {
        seed_start(query, t, walks, state, &query.origin, &walks.origin, time, false);
        seed_targets(t, state, &query.destination, &walks.destination);
    }
    proof {
        if se {
            assert(state.starts_from(&query.start()));
            assert(state.ends_in(&query.target()));
        }
    }
    let ghost seeded_state = *state;
    let ghost spare = old(state).num_stops() * MAX_ROUNDS;
    proof {
        lemma_seed_spare(
            old(state).search_view(),
            t,
            old(state).num_stops(),
            &query.start(),
            if is_arrival { walks.destination@ } else { walks.origin@ },
            time,
            query.walk_penalty,
            is_arrival,
            spare,
        );
        assert(state.parents@[spare] == old(state).parents@[spare]);
        assert(time == query_time(query));
        assert(seeded(old(state), &seeded_state, t, walks, query));
    }

    let updates = if is_arrival {
        explore_transfers_reverse(query, t, walks, state)
    } else {
        explore_transfers(query, t, walks, state)
    };
    proof {
        lemma_hops_reach(state, t, walks, query, updates@, is_arrival);
    }
    let ghost before_phase = *state;
    apply_phase(t, state, 0, is_arrival, &updates);
    let ghost hopped_state = *state;
    proof {
        lemma_apply_all_spare(
            before_phase.search_view(),
            before_phase.target_tau_star@,
            before_phase.num_stops(),
            0,
            is_arrival,
            updates@,
            spare,
        );
    }
    proof {
        if se {
            assert(before_phase.starts_from(&query.start()));
            assert(state.starts_from(&query.start()));
        }
    }

    // Whether some target stop is already reached (round 0 walk).
    let ghost before_targets = *state;
    evaluate_targets(query, t, state, 0, is_arrival);
    proof {
        if se {
            assert(before_targets.ends_in(&query.target()));
            assert(state.ends_in(&query.target()));
        }
    }
    let ghost mut trace: Seq<State> = seq![seeded_state, hopped_state, *state];
    proof {
        assert(before_targets.search_view() =~= state.search_view());
        assert(trace_rounds(trace) == 0);
        assert(trace_ok(old(state), trace, t, walks, query));
    }

    let mut round: usize = 1;
    while round < MAX_ROUNDS
        invariant
            t.wf(),
            walks.wf(t),
            query.wf(t),
            state.wf(t),
            1 <= round <= MAX_ROUNDS,
            is_arrival == query.is_arrival(),
            fronts_are_antichains(old(state), is_arrival) ==> fronts_are_antichains(state, is_arrival),
            old(state).parents_consistent(t, is_arrival) ==> state.parents_consistent(t, is_arrival),
            se == (old(state).starts_from(&query.start()) && old(state).ends_in(&query.target())),
            se ==> state.starts_from(&query.start()) && state.ends_in(&query.target()),
            trace_ok(old(state), trace, t, walks, query),
            trace.last() == *state,
            trace_rounds(trace) == round - 1,
            state.parents@[spare] == old(state).parents@[spare],
            spare == old(state).num_stops() * MAX_ROUNDS,
            state.stop_count == old(state).stop_count,
        ensures
            state.parents@[spare] == old(state).parents@[spare],
            t.wf(),
            state.wf(t),
            fronts_are_antichains(old(state), is_arrival) ==> fronts_are_antichains(state, is_arrival),
            old(state).parents_consistent(t, is_arrival) ==> state.parents_consistent(t, is_arrival),
            se ==> state.starts_from(&query.start()) && state.ends_in(&query.target()),
            trace_ok(old(state), trace, t, walks, query),
            trace.last() == *state,
            trace_rounds(trace) + 1 == MAX_ROUNDS || !has_marked(state),
        decreases MAX_ROUNDS - round,
    {
        if !any_marked(state) {
            break;
        }
        let ghost pre = *state;
        std::mem::swap(&mut state.current_labels, &mut state.previous_labels);
        let ghost swapped = *state;
        proof {
            assert(state.wf(t)) by {
                assert(state.parents == pre.parents);
            }
        }
        let n = state.current_labels.len();
        let mut i: usize = 0;
        while i < n
            invariant
                t.wf(),
                state.wf(t),
                n == state.current_labels@.len(),
                i <= n,
                state.tau_star == swapped.tau_star,
                state.previous_labels == swapped.previous_labels,
                state.target_tau_star == swapped.target_tau_star,
                state.parents == swapped.parents,
                state.stop_count == swapped.stop_count,
                state.target_stops == swapped.target_stops,
                state.target_best_stop == swapped.target_best_stop,
                state.target_best_round == swapped.target_best_round,
                state.marked_stops == swapped.marked_stops,
                state.active_trip_patterns == swapped.active_trip_patterns,
                forall|j: int| 0 <= j < i ==> (#[trigger] state.current_labels@[j])@.len() == 0,
                forall|j: int| i <= j < n ==> #[trigger] state.current_labels@[j] == swapped.current_labels@[j],
            decreases n - i,
        {
            state.current_labels[i].clear();
            i += 1;
        }
        proof {
            if fronts_are_antichains(old(state), is_arrival) {
                assert forall|j: int| 0 <= j < state.current_labels@.len() implies is_antichain(#[trigger] state.current_labels@[j]@, is_arrival) by {
                    assert(state.current_labels@[j]@.len() == 0);
                }
                assert forall|j: int| 0 <= j < state.previous_labels@.len() implies is_antichain(#[trigger] state.previous_labels@[j]@, is_arrival) by {
                    assert(state.previous_labels@[j] == pre.current_labels@[j]);
                }
            }
        }

        activate_trip_patterns(t, state, is_arrival);
        let ghost activated = *state;
        let nm = state.marked_stops.len();
        let mut m: usize = 0;
        while m < nm
            invariant
                t.wf(),
                state.wf(t),
                nm == state.marked_stops@.len(),
                m <= nm,
                fronts_are_antichains(old(state), is_arrival) ==> fronts_are_antichains(state, is_arrival),
                old(state).parents_consistent(t, is_arrival) ==> state.parents_consistent(t, is_arrival),
                se ==> state.starts_from(&query.start()) && state.ends_in(&query.target()),
                state.tau_star == activated.tau_star,
                state.current_labels == activated.current_labels,
                state.previous_labels == activated.previous_labels,
                state.active_trip_patterns == activated.active_trip_patterns,
                state.parents == activated.parents,
                state.stop_count == activated.stop_count,
                state.target_tau_star == activated.target_tau_star,
                state.target_stops == activated.target_stops,
                state.target_best_stop == activated.target_best_stop,
                state.target_best_round == activated.target_best_round,
                forall|j: int| 0 <= j < m ==> !#[trigger] state.marked_stops@[j],
            decreases nm - m,
        {
            state.marked_stops.set(m, false);
            m += 1;
        }
        let ghost turned_state = *state;
        proof {
            assert(turned(&pre, &turned_state, t, is_arrival));
        }

        let updates = if is_arrival {
            explore_trip_patterns_reverse(query, t, state)
        } else {
            explore_trip_patterns(query, t, state)
        };
        proof {
            lemma_rides_reach(t, query, updates@, is_arrival);
        }
        let ghost before_rides = *state;
        apply_phase(t, state, round, is_arrival, &updates);
        let ghost ridden_state = *state;
        proof {
            lemma_apply_all_spare(
                before_rides.search_view(),
                before_rides.target_tau_star@,
                before_rides.num_stops(),
                round as nat,
                is_arrival,
                updates@,
                spare,
            );
        }
        proof {
            if se {
                assert(before_rides.starts_from(&query.start()));
                assert(state.starts_from(&query.start()));
            }
        }

        let updates = if is_arrival {
            explore_transfers_reverse(query, t, walks, state)
        } else {
            explore_transfers(query, t, walks, state)
        };
        proof {
            lemma_hops_reach(state, t, walks, query, updates@, is_arrival);
        }
        let ghost before_hops = *state;
        apply_phase(t, state, round, is_arrival, &updates);
        let ghost hopped_round = *state;
        proof {
            lemma_apply_all_spare(
                before_hops.search_view(),
                before_hops.target_tau_star@,
                before_hops.num_stops(),
                round as nat,
                is_arrival,
                updates@,
                spare,
            );
        }
        proof {
            if se {
                assert(before_hops.starts_from(&query.start()));
                assert(state.starts_from(&query.start()));
            }
        }

        let ghost before_targets = *state;
        evaluate_targets(query, t, state, round, is_arrival);
        proof {
            if se {
                assert(before_targets.ends_in(&query.target()));
                assert(state.ends_in(&query.target()));
            }
            assert(before_targets.search_view() =~= state.search_view());
            let more = seq![turned_state, ridden_state, hopped_round, *state];
            let nt = trace + more;
            let e = 4 * (trace_rounds(trace) + 1) - 2;
            assert(e == trace.len() - 1);
            assert(nt[e] == pre);
            assert(nt[e + 1] == turned_state);
            assert(nt[e + 2] == ridden_state);
            assert(nt[e + 3] == hopped_round);
            assert(nt[e + 4] == *state);
            assert(has_marked(&pre));
            assert(round_ok(nt, trace_rounds(trace) + 1, t, walks, query));
            lemma_trace_extends(old(state), trace, more, t, walks, query);
            trace = nt;
        }
        round += 1;
    }

    proof {
        assert(trace_ok(old(state), trace, t, walks, query) && trace.last() == *state);
        if old(state).target_stops@.len() == 0 && old(state).target_best_stop is None && old(state).target_best_round is None
            && target_seeds(t, &query.target(), target_walks(walks, query)).len() == 0 {
            lemma_no_target_stays(old(state), trace, t, walks, query, trace.len() - 1);
        }
        if old(state).is_clear() && query.origin is Stop && query.destination == query.origin {
            let s = query.origin->Stop_0;
            assert(query.start() == QueryLocation::Stop(s));
            assert(query.target() == QueryLocation::Stop(s));
            lemma_same_stop_trace(old(state), trace, t, walks, query, s, trace.len() - 1);
            assert(state.parents@.len() > 0);
            assert(search_found(state, t, query.is_arrival()));
        }
    }
    Itinerary::new(query, state, t)
}

/// `query` departing at `time` instead.
pub open spec fn departing_query(query: &RaptorQuery, time: Time) -> RaptorQuery {
    RaptorQuery { time_direction: TimeDirection::Departure(time), ..*query }
}

/// What an arrival query is answered, given the state `mid` its backward
/// search left: no route, where that search found none; the journey it
/// found, where that journey has no leg; else the forward search that
/// departs when that journey leaves (see [`first_departure`]), run from a
/// cleared state and ending in `last`, and the journey it finds, if any.
pub open spec fn arrival_answer(
    mid: &State,
    last: &State,
    r: Result<Itinerary, Error>,
    t: &Timetable,
    walks: &Walks,
    query: &RaptorQuery,
) -> bool {
    if !search_found(mid, t, true) {
        &&& r == Err::<Itinerary, Error>(Error::NoRoute)
        &&& *last == *mid
    } else if legless(mid, query) {
        &&& *last == *mid
        &&& r matches Ok(it) && it.legs@.len() == 0 && is_recorded_journey(&it, mid, t, query)
    } else {
        &&& exists|fresh: State|
            fresh.wf(t) && fresh.is_clear() && #[trigger] search_run(
                &fresh,
                last,
                t,
                walks,
                &departing_query(query, first_departure(mid, query)),
            )
        &&& r is Ok <==> search_found(last, t, false)
        &&& r matches Ok(it) ==> is_recorded_journey(&it, last, t, &departing_query(query, first_departure(mid, query)))
    }
}

/// Answers a query. An arrival query is answered by a backward search for
/// the latest departure, then a forward search from the departure time of
/// the journey it found, which gives the earliest arrival for it.
pub fn solve(query: RaptorQuery, t: &Timetable, walks: &Walks, state: &mut State) -> (r: Result<Itinerary, Error>)
    requires
        t.wf(),
        walks.wf(t),
        query.wf(t),
        old(state).wf(t),
    ensures
        final(state).wf(t),
        old(state).is_clear() ==> (r matches Ok(it) ==> is_journey(&it)),
        old(state).is_clear() ==> (r matches Ok(it) ==> query.origin.holds(it.from) && query.destination.holds(it.to)),
        r matches Ok(it) ==> query.origin.ends_at(t, it.from) && query.destination.ends_at(t, it.to),
        r matches Ok(it) ==> rides_recorded(final(state), t, it.legs@, false),
        r is Err ==> r == Err::<Itinerary, Error>(Error::NoRoute),
        !query.is_arrival() ==> (r is Ok <==> search_found(final(state), t, false)),
        query.is_arrival() ==> (r is Ok ==> search_found(final(state), t, true) || search_found(final(state), t, false)),
        query.is_arrival() ==> (r is Err ==> !search_found(final(state), t, true) || !search_found(final(state), t, false)),
        old(state).is_clear() && query.origin is Stop && query.destination == query.origin ==> (r matches Ok(it)
            && it.legs@.len() == 0 && it.from == Location::Stop(query.origin->Stop_0) && it.to == Location::Stop(query.origin->Stop_0)),
        r matches Ok(it) ==> (query.destination is Coordinate ==> it.legs@.len() > 0 && it.legs@.last().arrival_time
            == LiveTime::scheduled_only_spec(target_label_time(final(state), final(state).target_best_stop.unwrap()))),
        !query.is_arrival() ==> (r matches Ok(it) ==> (query.destination is Coordinate && !walk_before_end(final(state), &query)
            ==> it.legs@.len() > 0 && it.legs@.last().departure_time == LiveTime::scheduled_only_spec(
            stop_label_time(final(state), final(state).target_best_stop.unwrap()),
        ))),
        old(state).is_clear() ==> (r matches Ok(it) ==> transit_count(it.legs@) < MAX_ROUNDS),
        old(state).is_clear() && target_seeds(t, &query.target(), target_walks(walks, &query)).len() == 0
            ==> r == Err::<Itinerary, Error>(Error::NoRoute),
        !query.is_arrival() && old(state).is_clear() ==> (r matches Ok(it) ==> (it.from matches Location::Stop(c)
            ==> final(state).parents@[parent_slot(final(state).num_stops(), 0, c)] == Some(Parent::Origin))),
        !query.is_arrival() ==> (r matches Ok(it) ==> is_recorded_journey(&it, final(state), t, &query)),
        !query.is_arrival() ==> search_run(old(state), final(state), t, walks, &query),
        query.is_arrival() ==> exists|mid: State|
            #[trigger] search_run(old(state), &mid, t, walks, &query) && arrival_answer(&mid, final(state), r, t, walks, &query),
        query.time_direction matches TimeDirection::Departure(d) ==> (r matches Ok(it) ==> (query.origin is Coordinate
            ==> it.legs@.len() > 0 && it.legs@[0].departure_time == LiveTime::scheduled_only_spec(d))),
{
    let is_arrival = matches!(query.time_direction, TimeDirection::Arrival(_));
    proof {
        if old(state).is_clear() {
            lemma_clear_consistent(old(state), t, query.is_arrival());
            lemma_clear_ends(old(state), &query.start(), &query.target());
        }
    }
    let first = solve_core(&query, t, walks, state);
    let ghost mid = *state;
    let itinerary = match first {
        Ok(it) => it,
        Err(e) => {
            proof {
                if is_arrival {
                    assert(search_run(old(state), &mid, t, walks, &query) && arrival_answer(&mid, state, first, t, walks, &query));
                }
            }
            return Err(e);
        },
    };
    if is_arrival && itinerary.legs.len() > 0 {
        let optimal_departure = itinerary.legs[0].departure_time.scheduled;
        let forward_query = RaptorQuery {
            origin: query.origin,
            destination: query.destination,
            time_direction: TimeDirection::Departure(optimal_departure),
            search_radius: query.search_radius,
            date: query.date,
            transit_penalty: query.transit_penalty,
            transfer_penalty: query.transfer_penalty,
            walk_penalty: query.walk_penalty,
        };
        state.reset();
        proof {
            lemma_clear_consistent(state, t, false);
            lemma_clear_ends(state, &forward_query.start(), &forward_query.target());
        }
        let ghost fresh = *state;
        proof {
            assert(forward_query == departing_query(&query, first_departure(&mid, &query)));
        }
        let second = solve_core(&forward_query, t, walks, state);
        proof {
            assert(fresh.wf(t) && fresh.is_clear() && search_run(&fresh, state, t, walks, &forward_query));
            assert(search_run(old(state), &mid, t, walks, &query) && arrival_answer(&mid, state, second, t, walks, &query));
        }
        return second;
    }
    proof {
        if is_arrival {
            assert(search_run(old(state), &mid, t, walks, &query) && arrival_answer(&mid, state, Ok(itinerary), t, walks, &query));
        }
    }
    Ok(itinerary)
}

impl RaptorQuery {
    /// Answers the query (see [`solve`]).
    pub fn solve(self, t: &Timetable, walks: &Walks, state: &mut State) -> (r: Result<Itinerary, Error>)
        requires
            t.wf(),
            walks.wf(t),
            self.wf(t),
            old(state).wf(t),
        ensures
            final(state).wf(t),
            old(state).is_clear() ==> (r matches Ok(it) ==> is_journey(&it)),
            old(state).is_clear() ==> (r matches Ok(it) ==> self.origin.holds(it.from) && self.destination.holds(it.to)),
            r matches Ok(it) ==> self.origin.ends_at(t, it.from) && self.destination.ends_at(t, it.to),
            r matches Ok(it) ==> rides_recorded(final(state), t, it.legs@, false),
            r is Err ==> r == Err::<Itinerary, Error>(Error::NoRoute),
            !self.is_arrival() ==> (r is Ok <==> search_found(final(state), t, false)),
            self.is_arrival() ==> (r is Ok ==> search_found(final(state), t, true) || search_found(final(state), t, false)),
            self.is_arrival() ==> (r is Err ==> !search_found(final(state), t, true) || !search_found(final(state), t, false)),
            old(state).is_clear() && self.origin is Stop && self.destination == self.origin ==> (r matches Ok(it)
                && it.legs@.len() == 0 && it.from == Location::Stop(self.origin->Stop_0) && it.to == Location::Stop(self.origin->Stop_0)),
            r matches Ok(it) ==> (self.destination is Coordinate ==> it.legs@.len() > 0 && it.legs@.last().arrival_time
                == LiveTime::scheduled_only_spec(target_label_time(final(state), final(state).target_best_stop.unwrap()))),
            !self.is_arrival() ==> (r matches Ok(it) ==> (self.destination is Coordinate && !walk_before_end(final(state), &self)
                ==> it.legs@.len() > 0 && it.legs@.last().departure_time == LiveTime::scheduled_only_spec(
                stop_label_time(final(state), final(state).target_best_stop.unwrap()),
            ))),
            old(state).is_clear() ==> (r matches Ok(it) ==> transit_count(it.legs@) < MAX_ROUNDS),
            old(state).is_clear() && target_seeds(t, &self.target(), target_walks(walks, &self)).len() == 0
                ==> r == Err::<Itinerary, Error>(Error::NoRoute),
            !self.is_arrival() && old(state).is_clear() ==> (r matches Ok(it) ==> (it.from matches Location::Stop(c)
                ==> final(state).parents@[parent_slot(final(state).num_stops(), 0, c)] == Some(Parent::Origin))),
            !self.is_arrival() ==> (r matches Ok(it) ==> is_recorded_journey(&it, final(state), t, &self)),
            !self.is_arrival() ==> search_run(old(state), final(state), t, walks, &self),
            self.is_arrival() ==> exists|mid: State|
                #[trigger] search_run(old(state), &mid, t, walks, &self) && arrival_answer(&mid, final(state), r, t, walks, &self),
            self.time_direction matches TimeDirection::Departure(d) ==> (r matches Ok(it) ==> (self.origin is Coordinate
                ==> it.legs@.len() > 0 && it.legs@[0].departure_time == LiveTime::scheduled_only_spec(d))),
    {
        solve(self, t, walks, state)
    }
}

fn check_walk_list(t: &Timetable, w: &Vec<(StopIdx, Duration)>) -> (r: bool)
    ensures
        r == walk_list_ok(t, w@),
{
    let mut k: usize = 0;
    while k < w.len()
        invariant
            k <= w@.len(),
            forall|j: int| 0 <= j < k ==> stop_ok(t, (#[trigger] w@[j]).0),
        decreases w@.len() - k,
    {
        if w[k].0.as_usize() >= t.stops.len() {
            return false;
        }
        k += 1;
    }
    true
}

impl Walks {
    /// Decides [`Walks::wf`].
    pub fn is_valid(&self, t: &Timetable) -> (r: bool)
        ensures
            r == self.wf(t),
    {
        if self.by_stop.len() != t.stops.len() {
            return false;
        }
        let mut i: usize = 0;
        while i < self.by_stop.len()
            invariant
                i <= self.by_stop@.len(),
                forall|j: int| 0 <= j < i ==> walk_list_ok(t, #[trigger] self.by_stop@[j]@),
            decreases self.by_stop@.len() - i,
        {
            if !check_walk_list(t, &self.by_stop[i]) {
                return false;
            }
            i += 1;
        }
        check_walk_list(t, &self.origin) && check_walk_list(t, &self.destination)
    }
}

/// Decides [`parent_wf`].
pub fn check_parent(t: &Timetable, p: &Parent) -> (r: bool)
    requires
        t.wf(),
    ensures
        r == parent_wf(t, *p),
{
    match p {
        Parent::Transit { boarding_p, alighting_p, trip, .. } => {
            if trip.as_usize() >= t.trips.len() {
                return false;
            }
            let n = t.trips[trip.as_usize()].stop_times.len();
            boarding_p.as_usize() < n && alighting_p.as_usize() < n
        },
        Parent::Transfer { from_stop, .. } => from_stop.as_usize() < t.stops.len(),
        Parent::Walk { from_stop, .. } => from_stop.as_usize() < t.stops.len(),
        Parent::Origin => true,
    }
}

impl State {
    /// Decides [`State::wf`] for a well-formed network.
    #[verifier::loop_isolation(false)]
    pub fn is_valid_for(&self, t: &Timetable) -> (r: bool)
        requires
            t.wf(),
        ensures
            r == self.wf(t),
    {
        let n = t.stops.len();
        if self.stop_count != n || n > (usize::MAX - 1) / MAX_ROUNDS {
            return false;
        }
        if self.tau_star.len() != n || self.current_labels.len() != n || self.previous_labels.len() != n
            || self.marked_stops.len() != n || self.parents.len() != n * MAX_ROUNDS + 1
            || self.active_trip_patterns.len() != t.trip_patterns.len() {
            return false;
        }
        let mut k: usize = 0;
        while k < self.active_trip_patterns.len()
            invariant
                self.active_trip_patterns@.len() == t.trip_patterns@.len(),
                k <= self.active_trip_patterns@.len(),
                forall|j: int|
                    0 <= j < k ==> (#[trigger] self.active_trip_patterns@[j] matches Some(p) ==> p.0 < t.trip_patterns@[j].stops@.len()),
            decreases self.active_trip_patterns@.len() - k,
        {
            if let Some(p) = self.active_trip_patterns[k] {
                if p.as_usize() >= t.trip_patterns[k].stops.len() {
                    return false;
                }
            }
            k += 1;
        }
        let mut k: usize = 0;
        while k < self.target_stops.len()
            invariant
                k <= self.target_stops@.len(),
                forall|j: int| 0 <= j < k ==> stop_ok(t, (#[trigger] self.target_stops@[j]).0),
            decreases self.target_stops@.len() - k,
        {
            if self.target_stops[k].0.as_usize() >= n {
                assert(!stop_ok(t, self.target_stops@[k as int].0));
                return false;
            }
            k += 1;
        }
        if let Some(s) = self.target_best_stop {
            if s.as_usize() >= n {
                return false;
            }
        }
        if let Some(r) = self.target_best_round {
            if r >= MAX_ROUNDS {
                return false;
            }
        }
        let mut k: usize = 0;
        while k < self.parents.len()
            invariant
                t.wf(),
                k <= self.parents@.len(),
                forall|j: int| 0 <= j < k ==> (#[trigger] self.parents@[j] matches Some(p) ==> parent_wf(t, p)),
            decreases self.parents@.len() - k,
        {
            if let Some(p) = &self.parents[k] {
                if !check_parent(t, p) {
                    return false;
                }
            }
            k += 1;
        }
        true
    }
}

impl RaptorQuery {
    /// Decides [`RaptorQuery::wf`].
    pub fn is_valid_for(&self, t: &Timetable) -> (r: bool)
        ensures
            r == self.wf(t),
    {
        check_location(t, &self.origin) && check_location(t, &self.destination)
    }
}

#[verifier::loop_isolation(false)]
fn check_location(t: &Timetable, l: &QueryLocation) -> (r: bool)
    ensures
        r == l.wf(t),
{
    match l {
        QueryLocation::Stop(s) => s.as_usize() < t.stops.len(),
        QueryLocation::Stops(v) => {
            let mut k: usize = 0;
            while k < v.len()
                invariant
                    k <= v@.len(),
                    forall|j: int| 0 <= j < k ==> stop_ok(t, #[trigger] v@[j]),
                decreases v@.len() - k,
            {
                if v[k].as_usize() >= t.stops.len() {
                    assert(!stop_ok(t, v@[k as int]));
                    return false;
                }
                k += 1;
            }
            true
        },
        QueryLocation::Coordinate(_) => true,
    }
}

} // verus!
