//! Turning the parents recorded by a search into a list of legs.

use vstd::prelude::*;

use crate::network::{StopIdx, Time, Timetable, TripIdx, stop_ok, trip_ok};
use crate::raptor::front::{ParetoFront, ParetoLabel};
use crate::raptor::query::{Location, RaptorQuery, TimeDirection, lemma_reaches_holds};
use crate::raptor::state::{State, lemma_slot_bound, parent_slot, slot, transit_reaches};
use crate::raptor::{LiveTime, MAX_ROUNDS, Parent, parent_wf, query_time};
use crate::Error;

verus! {

/// The kind of a leg.
#[derive(Debug, Clone, Copy, PartialEq, Eq, Structural)]
pub enum LegType {
    Transit(TripIdx),
    Transfer,
    Walk,
    Origin,
}

/// A stop passed on a ride.
#[derive(Debug, Clone, Copy, PartialEq, Eq, Structural)]
pub struct LegStop {
    pub location: Location,
    pub departure_time: LiveTime,
    pub arrival_time: LiveTime,
    /// The distance along the trip's shape, as the bit pattern the network stores.
    pub distance_traveled: Option<u32>,
}

/// One part of a journey: a ride, a transfer or a walk.
pub struct Leg {
    pub from: Location,
    pub to: Location,
    pub departure_time: LiveTime,
    pub arrival_time: LiveTime,
    pub stops: Vec<LegStop>,
    pub leg_type: LegType,
}

/// A journey from `from` to `to`, leg by leg in the order they are travelled.
pub struct Itinerary {
    pub from: Location,
    pub to: Location,
    pub legs: Vec<Leg>,
}

/// Each leg ends where the next one starts.
pub open spec fn connected(legs: Seq<Leg>) -> bool {
    forall|i: int| 0 <= i < legs.len() - 1 ==> (#[trigger] legs[i]).to == legs[i + 1].from
}

/// Each leg starts where the next one ends (legs gathered from the end).
pub open spec fn back_connected(legs: Seq<Leg>) -> bool {
    forall|i: int| 0 <= i < legs.len() - 1 ==> (#[trigger] legs[i + 1]).to == legs[i].from
}

/// An itinerary runs from its start to its end through connected legs, and
/// no walk directly follows another walk.
pub open spec fn is_journey(it: &Itinerary) -> bool {
    &&& connected(it.legs@)
    &&& no_walk_pairs(it.legs@)
    &&& it.legs@.len() > 0 ==> it.legs@[0].from == it.from && it.legs@.last().to == it.to
}

/// No walk directly follows another walk.
pub open spec fn no_walk_pairs(legs: Seq<Leg>) -> bool {
    forall|i: int|
        0 <= i < legs.len() - 1 ==> !((#[trigger] legs[i]).leg_type is Walk && legs[i + 1].leg_type is Walk)
}

/// Appends a leg, merging it into the previous one where both are walks.
pub open spec fn merge_step(out: Seq<Leg>, leg: Leg) -> Seq<Leg> {
    if out.len() > 0 && out.last().leg_type is Walk && leg.leg_type is Walk {
        out.drop_last().push(Leg { to: leg.to, arrival_time: leg.arrival_time, ..out.last() })
    } else {
        out.push(leg)
    }
}

/// The legs with every run of consecutive walks merged into one walk.
pub open spec fn merge_walks(legs: Seq<Leg>) -> Seq<Leg>
    decreases legs.len(),
{
    if legs.len() == 0 {
        legs
    } else {
        merge_step(merge_walks(legs.drop_last()), legs.last())
    }
}

/// The stops of a ride on `trip` from position `b` to position `a` of its
/// pattern, with their scheduled times (zero where the network has none).
pub open spec fn ride_stops(t: &Timetable, trip: TripIdx, b: int, a: int) -> Seq<LegStop> {
    let pattern = t.trips@[trip.0 as int].pattern;
    Seq::new(
        if a >= b {
            (a - b + 1) as nat
        } else {
            0
        },
        |i: int|
            {
                let st = t.trips@[trip.0 as int].stop_times@[b + i];
                LegStop {
                    location: Location::Stop(t.trip_patterns@[pattern.0 as int].stops@[b + i]),
                    departure_time: LiveTime::scheduled_only_spec(
                        match st.departure_time {
                            Some(d) => d,
                            None => Time(0),
                        },
                    ),
                    arrival_time: LiveTime::scheduled_only_spec(
                        match st.arrival_time {
                            Some(x) => x,
                            None => Time(0),
                        },
                    ),
                    distance_traveled: st.distance_traveled,
                }
            },
    )
}

/// `leg` is the leg for the parent `p` recorded for `stop`: the ride with
/// its stops, or the transfer or walk between `stop` and the parent's stop,
/// in the direction of travel.
pub open spec fn leg_of(t: &Timetable, leg: Leg, p: Parent, stop: StopIdx, is_arrival: bool) -> bool {
    match p {
        Parent::Transit { boarding_p, alighting_p, trip, departure_time, arrival_time } => {
            let stops = t.trip_patterns@[t.trips@[trip.0 as int].pattern.0 as int].stops@;
            &&& leg.leg_type == LegType::Transit(trip)
            &&& leg.from == Location::Stop(stops[boarding_p.0 as int])
            &&& leg.to == Location::Stop(stops[alighting_p.0 as int])
            &&& leg.departure_time == departure_time
            &&& leg.arrival_time == arrival_time
            &&& leg.stops@ == ride_stops(t, trip, boarding_p.0 as int, alighting_p.0 as int)
        },
        Parent::Transfer { from_stop, departure_time, arrival_time } => {
            &&& leg.leg_type == LegType::Transfer
            &&& leg.from == Location::Stop(if is_arrival { stop } else { from_stop })
            &&& leg.to == Location::Stop(if is_arrival { from_stop } else { stop })
            &&& leg.departure_time == departure_time
            &&& leg.arrival_time == arrival_time
            &&& leg.stops@.len() == 0
        },
        _ => false,
    }
}

/// `leg` is the leg of a parent that the search recorded for some stop in
/// some round.
pub open spec fn recorded_leg(state: &State, t: &Timetable, leg: Leg, is_arrival: bool) -> bool {
    let n = state.num_stops() as int;
    exists|r: int, s: int|
        0 <= r < MAX_ROUNDS && 0 <= s < n && (#[trigger] state.parents@[slot(n, r, s)] matches Some(p) && leg_of(
            t,
            leg,
            p,
            StopIdx(s as u32),
            is_arrival,
        ))
}

/// Every ride and transfer among `legs` was recorded by the search.
pub open spec fn rides_recorded(state: &State, t: &Timetable, legs: Seq<Leg>, is_arrival: bool) -> bool {
    forall|i: int|
        0 <= i < legs.len() && !(legs[i].leg_type is Walk) ==> recorded_leg(state, t, #[trigger] legs[i], is_arrival)
}

/// Following the recorded parents back from `stop` in `round` ends
/// within `fuel` steps: at a stop whose first round's parent is the origin,
/// at an origin parent, or after a ride recorded in the first round. It
/// fails where a parent is missing or the steps run out.
pub open spec fn chain_closes(state: &State, t: &Timetable, is_arrival: bool, stop: StopIdx, round: nat, fuel: nat) -> bool
    decreases fuel,
{
    let n = state.num_stops();
    if fuel == 0 {
        false
    } else if state.parents@[parent_slot(n, 0, stop)] == Some(Parent::Origin) {
        true
    } else {
        match state.parents@[parent_slot(n, round, stop)] {
            None => false,
            Some(Parent::Transit { boarding_p, alighting_p, trip, .. }) => {
                if round == 0 {
                    true
                } else {
                    let stops = t.trip_patterns@[t.trips@[trip.0 as int].pattern.0 as int].stops@;
                    let next = if is_arrival {
                        stops[alighting_p.0 as int]
                    } else {
                        stops[boarding_p.0 as int]
                    };
                    chain_closes(state, t, is_arrival, next, (round - 1) as nat, (fuel - 1) as nat)
                }
            },
            Some(Parent::Transfer { from_stop, .. }) => chain_closes(state, t, is_arrival, from_stop, round, (fuel - 1) as nat),
            Some(Parent::Walk { from_stop, .. }) => chain_closes(state, t, is_arrival, from_stop, round, (fuel - 1) as nat),
            Some(Parent::Origin) => true,
        }
    }
}

/// The search found a journey: a target stop was reached, and the chain of
/// parents from it closes (see [`chain_closes`]) within as many steps as
/// the state has slots for parents.
pub open spec fn search_found(state: &State, t: &Timetable, is_arrival: bool) -> bool {
    &&& state.target_best_stop is Some
    &&& state.target_best_round is Some
    &&& chain_closes(
        state,
        t,
        is_arrival,
        state.target_best_stop.unwrap(),
        state.target_best_round.unwrap() as nat,
        state.parents@.len(),
    )
}

/// The time of the cheapest label of the best front of stop `s`; the
/// earliest time where the front is empty.
pub open spec fn stop_label_time(state: &State, s: StopIdx) -> Time {
    match cheapest(state.tau_star@[s.0 as int]@) {
        Some(l) => l.time,
        None => ParetoLabel::spec_min().time,
    }
}

/// The time of the cheapest label the target was reached with; that of
/// stop `s` where there is none.
pub open spec fn target_label_time(state: &State, s: StopIdx) -> Time {
    match cheapest(state.target_tau_star@) {
        Some(l) => l.time,
        None => stop_label_time(state, s),
    }
}

/// The journey found has no leg: both ends of the query are stops, and the
/// best stop is where the search started.
pub open spec fn legless(state: &State, query: &RaptorQuery) -> bool {
    let n = state.num_stops();
    let b = state.target_best_stop.unwrap();
    let r = state.target_best_round.unwrap();
    &&& !(query.origin is Coordinate)
    &&& !(query.destination is Coordinate)
    &&& (state.parents@[parent_slot(n, 0, b)] == Some(Parent::Origin) || state.parents@[parent_slot(n, r as nat, b)]
        == Some(Parent::Origin))
}

/// When the journey an arrival search found leaves: where the origin is a
/// coordinate, when the walk from it to the best stop leaves (the time the
/// target was reached with); else when the first leg recorded for the best
/// stop leaves, or the time of the best stop where the search started
/// there.
pub open spec fn first_departure(state: &State, query: &RaptorQuery) -> Time {
    let n = state.num_stops();
    let b = state.target_best_stop.unwrap();
    let r = state.target_best_round.unwrap();
    if query.origin is Coordinate {
        target_label_time(state, b)
    } else if state.parents@[parent_slot(n, 0, b)] == Some(Parent::Origin) {
        stop_label_time(state, b)
    } else {
        match state.parents@[parent_slot(n, r as nat, b)] {
            Some(Parent::Transit { departure_time, .. }) => departure_time.scheduled,
            Some(Parent::Transfer { departure_time, .. }) => departure_time.scheduled,
            Some(Parent::Walk { departure_time, .. }) => departure_time.scheduled,
            _ => stop_label_time(state, b),
        }
    }
}

/// A leg that is not a ride passes no stop, and no leg is of the origin
/// kind.
pub open spec fn bare_leg(leg: Leg) -> bool {
    &&& !(leg.leg_type is Origin)
    &&& !(leg.leg_type is Transit) ==> leg.stops@.len() == 0
}

/// A ride or transfer ends (forward; starts, backward) at a stop that the
/// search did not start from: the reconstruction stops at the first such
/// stop it meets.
pub open spec fn short_of_start(state: &State, leg: Leg, is_arrival: bool) -> bool {
    (leg.leg_type is Transit || leg.leg_type is Transfer) ==> (if is_arrival {
        leg.from
    } else {
        leg.to
    } matches Location::Stop(c) && state.parents@[parent_slot(state.num_stops(), 0, c)] != Some(Parent::Origin))
}

/// The number of rides among `legs`.
pub open spec fn transit_count(legs: Seq<Leg>) -> nat
    decreases legs.len(),
{
    if legs.len() == 0 {
        0
    } else {
        transit_count(legs.drop_last()) + if legs.last().leg_type is Transit {
            1nat
        } else {
            0nat
        }
    }
}

/// The rides of two runs of legs add up.
pub proof fn lemma_transit_count_add(a: Seq<Leg>, b: Seq<Leg>)
    ensures
        transit_count(a + b) == transit_count(a) + transit_count(b),
    decreases b.len(),
{
    if b.len() > 0 {
        lemma_transit_count_add(a, b.drop_last());
        assert((a + b).drop_last() =~= a + b.drop_last());
    } else {
        assert(a + b =~= a);
    }
}

/// Reversing keeps the number of rides.
pub proof fn lemma_transit_count_reverse(legs: Seq<Leg>)
    ensures
        transit_count(legs.reverse()) == transit_count(legs),
    decreases legs.len(),
{
    if legs.len() > 0 {
        let rest = legs.drop_last();
        lemma_transit_count_reverse(rest);
        assert(legs.reverse() =~= seq![legs.last()] + rest.reverse());
        assert(seq![legs.last()].drop_last() =~= Seq::<Leg>::empty());
        assert(transit_count(Seq::<Leg>::empty()) == 0);
        lemma_transit_count_add(seq![legs.last()], rest.reverse());
    }
}

/// Merging walks keeps the number of rides.
pub proof fn lemma_transit_count_merge(legs: Seq<Leg>)
    ensures
        transit_count(merge_walks(legs)) == transit_count(legs),
    decreases legs.len(),
{
    if legs.len() > 0 {
        let rest = legs.drop_last();
        lemma_transit_count_merge(rest);
        let prev = merge_walks(rest);
        let leg = legs.last();
        if prev.len() > 0 && prev.last().leg_type is Walk && leg.leg_type is Walk {
            let merged = Leg { to: leg.to, arrival_time: leg.arrival_time, ..prev.last() };
            assert(prev.drop_last().push(merged).drop_last() =~= prev.drop_last());
        } else {
            assert(prev.push(leg).drop_last() =~= prev);
        }
    }
}

/// The leg before the walk at the target end, in travel order, is a walk:
/// the walk from the start's coordinate where the search started at the
/// best stop, else the walk recorded for the best stop.
pub open spec fn walk_before_end(state: &State, query: &RaptorQuery) -> bool {
    let n = state.num_stops();
    let b = state.target_best_stop.unwrap();
    let r = state.target_best_round.unwrap();
    if state.parents@[parent_slot(n, 0, b)] == Some(Parent::Origin) || state.parents@[parent_slot(n, r as nat, b)]
        == Some(Parent::Origin) {
        if query.is_arrival() {
            query.destination is Coordinate
        } else {
            query.origin is Coordinate
        }
    } else {
        state.parents@[parent_slot(n, r as nat, b)] matches Some(Parent::Walk { .. })
    }
}

/// Merging keeps the kind of the last leg.
pub proof fn lemma_merge_walks_last_type(legs: Seq<Leg>)
    requires
        legs.len() > 0,
    ensures
        merge_walks(legs).len() > 0,
        merge_walks(legs).last().leg_type == legs.last().leg_type,
    decreases legs.len(),
{
    let rest = legs.drop_last();
    if rest.len() > 0 {
        lemma_merge_walks_last_type(rest);
    }
}

/// A last leg that follows no walk is kept as it is.
pub proof fn lemma_merge_walks_last(legs: Seq<Leg>)
    requires
        legs.len() > 0,
        legs.len() == 1 || !(legs[legs.len() - 2].leg_type is Walk),
    ensures
        merge_walks(legs).len() > 0,
        merge_walks(legs).last() == legs.last(),
{
    let rest = legs.drop_last();
    assert(merge_walks(legs) == merge_step(merge_walks(rest), legs.last()));
    if rest.len() > 0 {
        lemma_merge_walks_last_type(rest);
        assert(rest.last() == legs[legs.len() - 2]);
        assert(!(merge_walks(rest).last().leg_type is Walk));
    } else {
        assert(merge_walks(rest).len() == 0);
    }
    assert(merge_step(merge_walks(rest), legs.last()) == merge_walks(rest).push(legs.last()));
}

/// A first leg that no walk follows is kept as it is.
pub proof fn lemma_merge_walks_first(legs: Seq<Leg>)
    requires
        legs.len() > 0,
        legs.len() == 1 || !(legs[1].leg_type is Walk),
    ensures
        merge_walks(legs).len() > 0,
        merge_walks(legs)[0] == legs[0],
        legs.len() >= 2 ==> merge_walks(legs).len() >= 2,
    decreases legs.len(),
{
    let rest = legs.drop_last();
    assert(merge_walks(legs) == merge_step(merge_walks(rest), legs.last()));
    if rest.len() == 0 {
        assert(merge_walks(rest).len() == 0);
    } else if rest.len() == 1 {
        assert(merge_walks(rest.drop_last()).len() == 0);
        assert(merge_walks(rest) == seq![legs[0]]);
        assert(legs.last() == legs[1]);
    } else {
        assert(rest[1] == legs[1]);
        assert(rest[0] == legs[0]);
        lemma_merge_walks_first(rest);
    }
}

/// Merging walks keeps a property of legs that merged walks keep.
pub proof fn lemma_merge_walks_keeps(legs: Seq<Leg>, p: spec_fn(Leg) -> bool)
    requires
        forall|i: int| 0 <= i < legs.len() ==> #[trigger] p(legs[i]),
        forall|a: Leg, b: Leg|
            p(a) && p(b) && a.leg_type is Walk && b.leg_type is Walk ==> #[trigger] p(
                (Leg { to: b.to, arrival_time: b.arrival_time, ..a }),
            ),
    ensures
        forall|i: int| 0 <= i < merge_walks(legs).len() ==> #[trigger] p(merge_walks(legs)[i]),
    decreases legs.len(),
{
    if legs.len() > 0 {
        let rest = legs.drop_last();
        assert forall|i: int| 0 <= i < rest.len() implies #[trigger] p(rest[i]) by {
            assert(rest[i] == legs[i]);
        }
        lemma_merge_walks_keeps(rest, p);
        let prev = merge_walks(rest);
        let out = merge_walks(legs);
        let leg = legs.last();
        assert(p(leg)) by {
            assert(leg == legs[legs.len() - 1]);
        }
        assert forall|i: int| 0 <= i < out.len() implies #[trigger] p(out[i]) by {
            if prev.len() > 0 && prev.last().leg_type is Walk && leg.leg_type is Walk {
                if i < out.len() - 1 {
                    assert(out[i] == prev[i]);
                } else {
                    assert(p(prev[prev.len() - 1]));
                }
            } else {
                if i < out.len() - 1 {
                    assert(out[i] == prev[i]);
                }
            }
        }
    }
}

/// The first label of least cost, if any.
pub open spec fn cheapest(s: Seq<ParetoLabel>) -> Option<ParetoLabel>
    decreases s.len(),
{
    if s.len() == 0 {
        None
    } else {
        match cheapest(s.drop_last()) {
            None => Some(s.last()),
            Some(b) => if s.last().cost < b.cost {
                Some(s.last())
            } else {
                Some(b)
            },
        }
    }
}

fn cheapest_label(f: &ParetoFront) -> (r: Option<ParetoLabel>)
    ensures
        r == cheapest(f@),
{
    let n = f.len();
    let mut best: Option<ParetoLabel> = None;
    let mut i: usize = 0;
    while i < n
        invariant
            n == f@.len(),
            i <= n,
            best == cheapest(f@.subrange(0, i as int)),
        decreases n - i,
    {
        let l = f.get(i);
        proof {
            assert(f@.subrange(0, i + 1).drop_last() =~= f@.subrange(0, i as int));
        }
        best = match best {
            None => Some(l),
            Some(b) => if l.cost < b.cost {
                Some(l)
            } else {
                Some(b)
            },
        };
        i += 1;
    }
    proof {
        assert(f@.subrange(0, n as int) =~= f@);
    }
    best
}

/// The legs in the opposite order.
fn reverse_legs(v: Vec<Leg>) -> (r: Vec<Leg>)
    ensures
        r@ == v@.reverse(),
{
    let mut v = v;
    let ghost orig = v@;
    let mut r: Vec<Leg> = Vec::new();
    while v.len() > 0
        invariant
            v@ == orig.subrange(0, v@.len() as int),
            v@.len() <= orig.len(),
            r@ == orig.subrange(v@.len() as int, orig.len() as int).reverse(),
        decreases v@.len(),
    {
        let leg = v.pop().unwrap();
        r.push(leg);
        proof {
            assert(r@ =~= orig.subrange(v@.len() as int, orig.len() as int).reverse());
            assert(v@ =~= orig.subrange(0, v@.len() as int));
        }
    }
    proof {
        assert(r@ =~= orig.reverse());
    }
    r
}

/// Merges consecutive walks (see [`merge_walks`]).
fn merge_walk_legs(legs: Vec<Leg>) -> (r: Vec<Leg>)
    ensures
        r@ == merge_walks(legs@),
{
    let ghost orig = legs@;
    let mut rest = reverse_legs(legs);
    let mut out: Vec<Leg> = Vec::new();
    while rest.len() > 0
        invariant
            rest@.len() <= orig.len(),
            rest@ == orig.subrange(orig.len() - rest@.len(), orig.len() as int).reverse(),
            out@ == merge_walks(orig.subrange(0, orig.len() - rest@.len())),
        decreases rest@.len(),
    {
        let ghost done = orig.len() - rest@.len();
        let leg = rest.pop().unwrap();
        proof {
            assert(leg == orig[done]);
            assert(orig.subrange(0, done + 1).drop_last() =~= orig.subrange(0, done));
            assert(orig.subrange(0, done + 1).last() == leg);
            assert(rest@ =~= orig.subrange(orig.len() - rest@.len(), orig.len() as int).reverse());
        }
        let n = out.len();
        if n > 0 && matches!(out[n - 1].leg_type, LegType::Walk) && matches!(leg.leg_type, LegType::Walk) {
            let mut last = out.pop().unwrap();
            last.to = leg.to;
            last.arrival_time = leg.arrival_time;
            out.push(last);
        } else {
            out.push(leg);
        }
        proof {
            assert(out@ =~= merge_step(merge_walks(orig.subrange(0, done)), leg));
        }
    }
    proof {
        assert(orig.subrange(0, orig.len() as int) =~= orig);
    }
    out
}

/// A leg as plain values.
pub struct LegView {
    pub from: Location,
    pub to: Location,
    pub departure_time: LiveTime,
    pub arrival_time: LiveTime,
    pub stops: Seq<LegStop>,
    pub leg_type: LegType,
}

impl View for Leg {
    type V = LegView;

    open spec fn view(&self) -> LegView {
        LegView {
            from: self.from,
            to: self.to,
            departure_time: self.departure_time,
            arrival_time: self.arrival_time,
            stops: self.stops@,
            leg_type: self.leg_type,
        }
    }
}

/// The legs as plain values.
pub open spec fn legs_view(legs: Seq<Leg>) -> Seq<LegView> {
    legs.map_values(|l: Leg| l@)
}

/// [`merge_step`] over plain legs.
pub open spec fn merge_view_step(out: Seq<LegView>, leg: LegView) -> Seq<LegView> {
    if out.len() > 0 && out.last().leg_type is Walk && leg.leg_type is Walk {
        out.drop_last().push(LegView { to: leg.to, arrival_time: leg.arrival_time, ..out.last() })
    } else {
        out.push(leg)
    }
}

/// [`merge_walks`] over plain legs.
pub open spec fn merge_views(legs: Seq<LegView>) -> Seq<LegView>
    decreases legs.len(),
{
    if legs.len() == 0 {
        legs
    } else {
        merge_view_step(merge_views(legs.drop_last()), legs.last())
    }
}

/// Merging walks is the same on legs and on their plain values.
pub proof fn lemma_merge_walks_view(legs: Seq<Leg>)
    ensures
        legs_view(merge_walks(legs)) == merge_views(legs_view(legs)),
    decreases legs.len(),
{
    if legs.len() > 0 {
        let rest = legs.drop_last();
        lemma_merge_walks_view(rest);
        assert(legs_view(legs).drop_last() =~= legs_view(rest));
        let prev = merge_walks(rest);
        let leg = legs.last();
        if prev.len() > 0 && prev.last().leg_type is Walk && leg.leg_type is Walk {
            let m = Leg { to: leg.to, arrival_time: leg.arrival_time, ..prev.last() };
            assert(legs_view(prev.drop_last().push(m)) =~= legs_view(prev).drop_last().push(m@));
        } else {
            assert(legs_view(prev.push(leg)) =~= legs_view(prev).push(leg@));
        }
    } else {
        assert(legs_view(legs) =~= Seq::<LegView>::empty());
    }
}

/// Reversing is the same on legs and on their plain values.
pub proof fn lemma_reverse_view(legs: Seq<Leg>)
    ensures
        legs_view(legs.reverse()) == legs_view(legs).reverse(),
{
    assert(legs_view(legs.reverse()) =~= legs_view(legs).reverse());
}

/// The leg of parent `p` recorded for `stop` (see [`leg_of`]); a walk
/// parent gives a walk between the two stops.
pub open spec fn parent_leg(t: &Timetable, p: Parent, stop: StopIdx, is_arrival: bool) -> LegView {
    match p {
        Parent::Transit { boarding_p, alighting_p, trip, departure_time, arrival_time } => {
            let stops = t.trip_patterns@[t.trips@[trip.0 as int].pattern.0 as int].stops@;
            LegView {
                from: Location::Stop(stops[boarding_p.0 as int]),
                to: Location::Stop(stops[alighting_p.0 as int]),
                departure_time,
                arrival_time,
                stops: ride_stops(t, trip, boarding_p.0 as int, alighting_p.0 as int),
                leg_type: LegType::Transit(trip),
            }
        },
        Parent::Transfer { from_stop, departure_time, arrival_time } => LegView {
            from: Location::Stop(if is_arrival { stop } else { from_stop }),
            to: Location::Stop(if is_arrival { from_stop } else { stop }),
            departure_time,
            arrival_time,
            stops: Seq::empty(),
            leg_type: LegType::Transfer,
        },
        Parent::Walk { from_stop, departure_time, arrival_time } => LegView {
            from: Location::Stop(if is_arrival { stop } else { from_stop }),
            to: Location::Stop(if is_arrival { from_stop } else { stop }),
            departure_time,
            arrival_time,
            stops: Seq::empty(),
            leg_type: LegType::Walk,
        },
        Parent::Origin => LegView {
            from: Location::Stop(stop),
            to: Location::Stop(stop),
            departure_time: LiveTime::scheduled_only_spec(Time(0)),
            arrival_time: LiveTime::scheduled_only_spec(Time(0)),
            stops: Seq::empty(),
            leg_type: LegType::Origin,
        },
    }
}

/// The legs met following the recorded parents back from `stop` in
/// `round`, in the order they are met, within `fuel` steps (see
/// [`chain_closes`]).
pub open spec fn chain_legs(state: &State, t: &Timetable, is_arrival: bool, stop: StopIdx, round: nat, fuel: nat) -> Seq<LegView>
    decreases fuel,
{
    let n = state.num_stops();
    if fuel == 0 {
        Seq::empty()
    } else if state.parents@[parent_slot(n, 0, stop)] == Some(Parent::Origin) {
        Seq::empty()
    } else {
        match state.parents@[parent_slot(n, round, stop)] {
            None => Seq::empty(),
            Some(Parent::Transit { boarding_p, alighting_p, trip, departure_time, arrival_time }) => {
                let leg = parent_leg(t, Parent::Transit { boarding_p, alighting_p, trip, departure_time, arrival_time }, stop, is_arrival);
                if round == 0 {
                    seq![leg]
                } else {
                    let stops = t.trip_patterns@[t.trips@[trip.0 as int].pattern.0 as int].stops@;
                    let next = if is_arrival {
                        stops[alighting_p.0 as int]
                    } else {
                        stops[boarding_p.0 as int]
                    };
                    seq![leg] + chain_legs(state, t, is_arrival, next, (round - 1) as nat, (fuel - 1) as nat)
                }
            },
            Some(Parent::Transfer { from_stop, departure_time, arrival_time }) => seq![
                parent_leg(t, Parent::Transfer { from_stop, departure_time, arrival_time }, stop, is_arrival),
            ] + chain_legs(state, t, is_arrival, from_stop, round, (fuel - 1) as nat),
            Some(Parent::Walk { from_stop, departure_time, arrival_time }) => seq![
                parent_leg(t, Parent::Walk { from_stop, departure_time, arrival_time }, stop, is_arrival),
            ] + chain_legs(state, t, is_arrival, from_stop, round, (fuel - 1) as nat),
            Some(Parent::Origin) => Seq::empty(),
        }
    }
}

/// The stop where following the recorded parents back from `stop` in
/// `round` ends (see [`chain_legs`]).
pub open spec fn chain_end(state: &State, t: &Timetable, is_arrival: bool, stop: StopIdx, round: nat, fuel: nat) -> StopIdx
    decreases fuel,
{
    let n = state.num_stops();
    if fuel == 0 {
        stop
    } else if state.parents@[parent_slot(n, 0, stop)] == Some(Parent::Origin) {
        stop
    } else {
        match state.parents@[parent_slot(n, round, stop)] {
            Some(Parent::Transit { boarding_p, alighting_p, trip, .. }) => {
                let stops = t.trip_patterns@[t.trips@[trip.0 as int].pattern.0 as int].stops@;
                let next = if is_arrival {
                    stops[alighting_p.0 as int]
                } else {
                    stops[boarding_p.0 as int]
                };
                if round == 0 {
                    next
                } else {
                    chain_end(state, t, is_arrival, next, (round - 1) as nat, (fuel - 1) as nat)
                }
            },
            Some(Parent::Transfer { from_stop, .. }) => chain_end(state, t, is_arrival, from_stop, round, (fuel - 1) as nat),
            Some(Parent::Walk { from_stop, .. }) => chain_end(state, t, is_arrival, from_stop, round, (fuel - 1) as nat),
            _ => stop,
        }
    }
}

/// The walk at the target end of the journey: from the best stop to the
/// destination (forward), from the origin to the best stop (backward); see
/// [`stop_label_time`] and [`target_label_time`] for its times.
pub open spec fn outer_walk(state: &State, query: &RaptorQuery) -> LegView {
    let b = state.target_best_stop.unwrap();
    if query.is_arrival() {
        LegView {
            from: query.origin.spec_resolve(b),
            to: Location::Stop(b),
            departure_time: LiveTime::scheduled_only_spec(target_label_time(state, b)),
            arrival_time: LiveTime::scheduled_only_spec(stop_label_time(state, b)),
            stops: Seq::empty(),
            leg_type: LegType::Walk,
        }
    } else {
        LegView {
            from: Location::Stop(b),
            to: query.destination.spec_resolve(b),
            departure_time: LiveTime::scheduled_only_spec(stop_label_time(state, b)),
            arrival_time: LiveTime::scheduled_only_spec(target_label_time(state, b)),
            stops: Seq::empty(),
            leg_type: LegType::Walk,
        }
    }
}

/// The walk at the start end of the journey, at stop `c` where following
/// the parents ended: from the origin to `c` leaving at the query's time
/// (forward), from `c` to the destination arriving at it (backward).
pub open spec fn inner_walk(state: &State, query: &RaptorQuery, c: StopIdx) -> LegView {
    if query.is_arrival() {
        LegView {
            from: Location::Stop(c),
            to: query.destination.spec_resolve(c),
            departure_time: LiveTime::scheduled_only_spec(stop_label_time(state, c)),
            arrival_time: LiveTime::scheduled_only_spec(query_time(query)),
            stops: Seq::empty(),
            leg_type: LegType::Walk,
        }
    } else {
        LegView {
            from: query.origin.spec_resolve(c),
            to: Location::Stop(c),
            departure_time: LiveTime::scheduled_only_spec(query_time(query)),
            arrival_time: LiveTime::scheduled_only_spec(stop_label_time(state, c)),
            stops: Seq::empty(),
            leg_type: LegType::Walk,
        }
    }
}

/// A walk, where it goes somewhere.
pub open spec fn walk_if_moving(leg: LegView) -> Seq<LegView> {
    if leg.from != leg.to {
        seq![leg]
    } else {
        Seq::empty()
    }
}

/// The stop where the journey the search recorded starts (forward) or ends
/// (backward): where following the parents back from the best stop ends.
pub open spec fn journey_end_stop(state: &State, t: &Timetable, query: &RaptorQuery) -> StopIdx {
    chain_end(
        state,
        t,
        query.is_arrival(),
        state.target_best_stop.unwrap(),
        state.target_best_round.unwrap() as nat,
        state.parents@.len(),
    )
}

/// The legs of the journey the search recorded, in travel order: the walk
/// at the target end, the legs of the recorded parents from the best stop
/// back, and the walk at the start end, reversed for a forward search, with
/// consecutive walks merged.
pub open spec fn journey_legs(state: &State, t: &Timetable, query: &RaptorQuery) -> Seq<LegView> {
    let gathered = walk_if_moving(outer_walk(state, query)) + chain_legs(
        state,
        t,
        query.is_arrival(),
        state.target_best_stop.unwrap(),
        state.target_best_round.unwrap() as nat,
        state.parents@.len(),
    ) + walk_if_moving(inner_walk(state, query, journey_end_stop(state, t, query)));
    merge_views(
        if query.is_arrival() {
            gathered
        } else {
            gathered.reverse()
        },
    )
}

/// Where the journey the search recorded starts.
pub open spec fn journey_from(state: &State, t: &Timetable, query: &RaptorQuery) -> Location {
    if query.is_arrival() {
        query.origin.spec_resolve(state.target_best_stop.unwrap())
    } else {
        query.origin.spec_resolve(journey_end_stop(state, t, query))
    }
}

/// Where the journey the search recorded ends.
pub open spec fn journey_to(state: &State, t: &Timetable, query: &RaptorQuery) -> Location {
    if query.is_arrival() {
        query.destination.spec_resolve(journey_end_stop(state, t, query))
    } else {
        query.destination.spec_resolve(state.target_best_stop.unwrap())
    }
}

/// `it` is the journey the search recorded (see [`journey_legs`]).
pub open spec fn is_recorded_journey(it: &Itinerary, state: &State, t: &Timetable, query: &RaptorQuery) -> bool {
    &&& legs_view(it.legs@) == journey_legs(state, t, query)
    &&& it.from == journey_from(state, t, query)
    &&& it.to == journey_to(state, t, query)
}

impl Itinerary {
    /// Rebuilds the journey that reaches the target at the best stop found,
    /// following the recorded parents from that stop back to the query's
    /// other end. Fails with [`Error::NoRoute`] where no stop reached the
    /// target, and where the chain of parents breaks off or runs longer
    /// than the state has slots for parents.
    #[verifier::rlimit(100)]
    pub fn new(query: &RaptorQuery, state: &State, t: &Timetable) -> (r: Result<Itinerary, Error>)
        requires
            t.wf(),
            state.wf(t),
        ensures
            (state.target_best_stop is None || state.target_best_round is None) ==> r == Err::<Itinerary, Error>(Error::NoRoute),
            r is Ok <==> search_found(state, t, query.is_arrival()),
            r is Err ==> r == Err::<Itinerary, Error>(Error::NoRoute),
            r is Ok ==> state.target_best_stop is Some && state.target_best_round is Some,
            r matches Ok(it) ==> is_recorded_journey(&it, state, t, query),
            r matches Ok(it) ==> no_walk_pairs(it.legs@),
            r matches Ok(it) ==> query.origin.ends_at(t, it.from) && query.destination.ends_at(t, it.to),
            r matches Ok(it) ==> if query.is_arrival() {
                it.from == query.origin.spec_resolve(state.target_best_stop.unwrap())
            } else {
                it.to == query.destination.spec_resolve(state.target_best_stop.unwrap())
            },
            state.parents_consistent(t, query.is_arrival()) ==> (r matches Ok(it) ==> is_journey(&it)),
            state.starts_from(&query.start()) && state.ends_in(&query.target()) ==> (r matches Ok(it)
                ==> query.origin.holds(it.from) && query.destination.holds(it.to)),
            r matches Ok(it) ==> rides_recorded(state, t, it.legs@, query.is_arrival()),
            r matches Ok(it) ==> (it.legs@.len() == 0 <==> legless(state, query)),
            r matches Ok(it) ==> (it.legs@.len() == 0 ==> it.from == query.origin.spec_resolve(state.target_best_stop.unwrap())
                && it.to == query.destination.spec_resolve(state.target_best_stop.unwrap())),
            r matches Ok(it) ==> transit_count(it.legs@) <= state.target_best_round.unwrap() + 1,
            state.starts_from(&query.start()) && state.ends_in(&query.target()) ==> (r matches Ok(it)
                ==> transit_count(it.legs@) <= state.target_best_round.unwrap()),
            state.starts_from(&query.start()) && state.ends_in(&query.target()) ==> (r matches Ok(it) ==> ((if query.is_arrival() {
                it.to
            } else {
                it.from
            }) matches Location::Stop(c) ==> state.parents@[parent_slot(state.num_stops(), 0, c)] == Some(Parent::Origin))),
            r matches Ok(it) ==> forall|i: int| 0 <= i < it.legs@.len() ==> bare_leg(#[trigger] it.legs@[i]),
            state.parents_consistent(t, query.is_arrival()) ==> (r matches Ok(it) ==> forall|i: int|
                0 <= i < it.legs@.len() ==> short_of_start(state, #[trigger] it.legs@[i], query.is_arrival())),
            query.is_arrival() ==> (r matches Ok(it) ==> (it.legs@.len() > 0 ==> it.legs@[0].departure_time.scheduled
                == first_departure(state, query))),
            query.is_arrival() ==> (r matches Ok(it) ==> (query.origin is Coordinate && !walk_before_end(state, query)
                ==> it.legs@.len() > 0 && it.legs@[0].arrival_time == LiveTime::scheduled_only_spec(
                stop_label_time(state, state.target_best_stop.unwrap()),
            ))),
            !query.is_arrival() ==> (r matches Ok(it) ==> (query.destination is Coordinate && !walk_before_end(state, query)
                ==> it.legs@.len() > 0 && it.legs@.last().departure_time == LiveTime::scheduled_only_spec(
                stop_label_time(state, state.target_best_stop.unwrap()),
            ))),
            !query.is_arrival() ==> (r matches Ok(it) ==> (query.destination is Coordinate ==> it.legs@.len() > 0
                && it.legs@.last().arrival_time == LiveTime::scheduled_only_spec(
                target_label_time(state, state.target_best_stop.unwrap()),
            ))),
            r matches Ok(it) ==> match query.time_direction {
                TimeDirection::Departure(d) => query.origin is Coordinate ==> it.legs@.len() > 0
                    && it.legs@[0].departure_time == LiveTime::scheduled_only_spec(d),
                TimeDirection::Arrival(a) => query.destination is Coordinate ==> it.legs@.len() > 0
                    && it.legs@.last().arrival_time == LiveTime::scheduled_only_spec(a),
            },
    {
        let (best_stop, best_round) = match (state.target_best_stop, state.target_best_round) {
            (Some(s), Some(r)) => (s, r),
            _ => {
                return Err(Error::NoRoute);
            },
        };
        let is_departure = matches!(query.time_direction, TimeDirection::Departure(_));
        let ghost ok = state.parents_consistent(t, query.is_arrival());
        let ghost ends = state.starts_from(&query.start()) && state.ends_in(&query.target());
        let ghost dest_end = query.destination.spec_resolve(best_stop);
        let ghost goal = search_found(state, t, query.is_arrival());
        let ghost origin_end = query.origin.spec_resolve(best_stop);
        let mut legs: Vec<Leg> = Vec::new();
        let mut current_stop = best_stop;
        let mut current_round = best_round;

        // The outer end: from the best stop to the target.
        let (first_leg_from, first_leg_to) = if is_departure {
            (Location::Stop(best_stop), query.destination.resolve(best_stop))
        } else {
            (query.origin.resolve(best_stop), Location::Stop(best_stop))
        };
        let ghost outer = first_leg_from != first_leg_to;
        let ghost outer_dep = if is_departure {
            stop_label_time(state, best_stop)
        } else {
            target_label_time(state, best_stop)
        };
        let ghost outer_arr = if is_departure {
            target_label_time(state, best_stop)
        } else {
            stop_label_time(state, best_stop)
        };
        let ghost n = state.num_stops();
        if first_leg_from != first_leg_to {
            let stop_time = match cheapest_label(&state.tau_star[best_stop.as_usize()]) {
                Some(l) => l,
                None => ParetoLabel::min_label(),
            };
            let target_time = match cheapest_label(&state.target_tau_star) {
                Some(l) => l,
                None => stop_time,
            };
            let (dep_t, arr_t) = if is_departure {
                (stop_time, target_time)
            } else {
                (target_time, stop_time)
            };
            legs.push(
                Leg {
                    from: first_leg_from,
                    to: first_leg_to,
                    departure_time: LiveTime::scheduled_only(dep_t.time),
                    arrival_time: LiveTime::scheduled_only(arr_t.time),
                    stops: Vec::new(),
                    leg_type: LegType::Walk,
                },
            );
        }

        proof {
            assert(outer <==> (if is_departure { query.destination is Coordinate } else { query.origin is Coordinate }));
            assert(transit_count(Seq::<Leg>::empty()) == 0);
            if legs@.len() > 0 {
                assert(legs@.drop_last() =~= Seq::<Leg>::empty());
            }
            assert(transit_count(legs@) == 0);
        }
        // Follow the parents.
        let fuel = state.parents.len();
        let ghost ia = query.is_arrival();
        let ghost outer_views = legs_view(legs@);
        let ghost chain_all = chain_legs(state, t, ia, best_stop, best_round as nat, fuel as nat);
        let ghost end_stop = chain_end(state, t, ia, best_stop, best_round as nat, fuel as nat);
        proof {
            if legs@.len() > 0 {
                assert(legs@ =~= seq![legs@[0]]);
                assert(legs_view(legs@) =~= seq![outer_walk(state, query)]);
            } else {
                assert(legs_view(legs@) =~= Seq::<LegView>::empty());
            }
            assert(outer_views == walk_if_moving(outer_walk(state, query)));
            assert(legs_view(legs@) + chain_all =~= outer_views + chain_all);
        }
        let mut steps: usize = 0;
        loop
            invariant_except_break
                chain_closes(state, t, query.is_arrival(), current_stop, current_round as nat, (fuel - steps) as nat) == goal,
                legs_view(legs@) + chain_legs(state, t, ia, current_stop, current_round as nat, (fuel - steps) as nat)
                    == outer_views + chain_all,
                chain_end(state, t, ia, current_stop, current_round as nat, (fuel - steps) as nat) == end_stop,
                transit_count(legs@) + current_round == best_round,
            invariant
                t.wf(),
                state.wf(t),
                stop_ok(t, current_stop),
                current_round < MAX_ROUNDS,
                steps <= fuel,
                fuel == state.parents@.len(),
                is_departure == !query.is_arrival(),
                ok == state.parents_consistent(t, query.is_arrival()),
                dest_end == query.destination.spec_resolve(best_stop),
                origin_end == query.origin.spec_resolve(best_stop),
                ends == (state.starts_from(&query.start()) && state.ends_in(&query.target())),
                rides_recorded(state, t, legs@, query.is_arrival()),
                best_stop == state.target_best_stop.unwrap(),
                best_round == state.target_best_round.unwrap(),
                state.target_best_stop is Some && state.target_best_round is Some,
                goal == search_found(state, t, query.is_arrival()),
                n == state.num_stops(),
                ia == query.is_arrival(),
                outer_views == walk_if_moving(outer_walk(state, query)),
                chain_all == chain_legs(state, t, ia, best_stop, best_round as nat, fuel as nat),
                end_stop == chain_end(state, t, ia, best_stop, best_round as nat, fuel as nat),
                outer <==> (if is_departure { query.destination is Coordinate } else { query.origin is Coordinate }),
                legs@.len() == 0 ==> !outer && current_stop == best_stop && current_round == best_round,
                outer ==> legs@.len() > 0 && legs@[0].departure_time == LiveTime::scheduled_only_spec(outer_dep)
                    && legs@[0].arrival_time == LiveTime::scheduled_only_spec(outer_arr),
                outer_dep == (if is_departure {
                    stop_label_time(state, best_stop)
                } else {
                    target_label_time(state, best_stop)
                }),
                outer_arr == (if is_departure {
                    target_label_time(state, best_stop)
                } else {
                    stop_label_time(state, best_stop)
                }),
                !is_departure && legs@.len() > 0 ==> legs@[0].departure_time.scheduled == first_departure(state, query),
                legs@.len() > 0 && !outer ==> !(state.parents@[parent_slot(n, 0, best_stop)] == Some(Parent::Origin)
                    || state.parents@[parent_slot(n, best_round as nat, best_stop)] == Some(Parent::Origin)),
                forall|i: int| 0 <= i < legs@.len() ==> bare_leg(#[trigger] legs@[i]),
                outer && legs@.len() >= 2 ==> (legs@[1].leg_type is Walk <==> walk_before_end(state, query)),
                outer && legs@.len() == 1 ==> current_stop == best_stop && current_round == best_round,
                ok ==> forall|i: int| 0 <= i < legs@.len() ==> short_of_start(state, #[trigger] legs@[i], query.is_arrival()),
                ok && is_departure ==> {
                    &&& back_connected(legs@)
                    &&& legs@.len() > 0 ==> legs@.last().from == Location::Stop(current_stop)
                    &&& legs@.len() > 0 ==> legs@[0].to == dest_end
                    &&& legs@.len() == 0 ==> current_stop == best_stop && Location::Stop(best_stop) == dest_end
                },
                ok && !is_departure ==> {
                    &&& connected(legs@)
                    &&& legs@.len() > 0 ==> legs@.last().to == Location::Stop(current_stop)
                    &&& legs@.len() > 0 ==> legs@[0].from == origin_end
                    &&& legs@.len() == 0 ==> current_stop == best_stop && Location::Stop(best_stop) == origin_end
                },
            ensures
                legs_view(legs@) == outer_views + chain_all,
                current_stop == end_stop,
                ends ==> query.start().reaches(current_stop),
                ends ==> state.parents@[parent_slot(n, 0, current_stop)] == Some(Parent::Origin),
                transit_count(legs@) <= best_round + 1,
                ends ==> transit_count(legs@) <= best_round,
                goal,
                legs@.len() == 0 ==> (state.parents@[parent_slot(n, 0, best_stop)] == Some(Parent::Origin)
                    || state.parents@[parent_slot(n, best_round as nat, best_stop)] == Some(Parent::Origin)),
                outer && legs@.len() == 1 ==> (state.parents@[parent_slot(n, 0, best_stop)] == Some(Parent::Origin)
                    || state.parents@[parent_slot(n, best_round as nat, best_stop)] == Some(Parent::Origin)),
            decreases fuel - steps,
        {
            if steps == fuel {
                return Err(Error::NoRoute);
            }
            let ghost here_stop = current_stop;
            let ghost here_round = current_round as nat;
            let ghost here_fuel = (fuel - steps) as nat;
            steps += 1;
            let origin_idx = state.calc_parent_idx(0, current_stop);
            if matches!(state.parents[origin_idx], Some(Parent::Origin)) {
                proof {
                    assert(origin_idx == current_stop.0);
                    assert(StopIdx(origin_idx as u32) == current_stop);
                    assert(chain_legs(state, t, ia, here_stop, here_round, here_fuel) =~= Seq::<LegView>::empty());
                    assert(legs_view(legs@) =~= outer_views + chain_all);
                }
                break;
            }
            let parent_idx = state.calc_parent_idx(current_round, current_stop);
            let parent = match state.parents[parent_idx] {
                Some(p) => p,
                None => {
                    proof {
                        assert(!chain_closes(state, t, query.is_arrival(), here_stop, here_round, here_fuel));
                    }
                    return Err(Error::NoRoute);
                },
            };
            proof {
                assert(state.parents@[parent_slot(state.num_stops(), here_round, here_stop)] == Some(parent));
                assert(state.parents@[parent_slot(state.num_stops(), 0, here_stop)] != Some(Parent::Origin));
            }
            let ghost before = legs@;
            proof {
                assert(state.parents@[parent_idx as int] matches Some(p) ==> parent_wf(t, p));
                if ok {
                    assert(parent_idx == slot(state.num_stops() as int, current_round as int, current_stop.0 as int));
                    assert(state.parents@[slot(state.num_stops() as int, current_round as int, current_stop.0 as int)] matches Some(p)
                        ==> transit_reaches(t, p, current_stop.0 as int, query.is_arrival()));
                }
            }
            match parent {
                Parent::Transit { boarding_p, alighting_p, trip, departure_time, arrival_time } => {
                    proof {
                        assert(t.trip_wf(trip.0 as int));
                    }
                    let pattern = t.trips[trip.as_usize()].pattern;
                    let boarding_stop = t.pattern_stop(pattern, boarding_p.as_usize());
                    let alighting_stop = t.pattern_stop(pattern, alighting_p.as_usize());
                    let stop_times = &t.trips[trip.as_usize()].stop_times;
                    let mut leg_stops: Vec<LegStop> = Vec::new();
                    proof {
                        assert(t.pattern_wf(pattern.0 as int));
                    }
                    let mut idx = boarding_p.as_usize();
                    while idx <= alighting_p.as_usize()
                        invariant
                            t.wf(),
                            trip_ok(t, trip),
                            t.trip_wf(trip.0 as int),
                            pattern == t.trips@[trip.0 as int].pattern,
                            stop_times == &t.trips@[trip.0 as int].stop_times,
                            alighting_p.0 < stop_times@.len(),
                            stop_times@.len() < u32::MAX,
                            boarding_p.0 <= idx,
                            idx <= alighting_p.0 + 1 || idx == boarding_p.0,
                            leg_stops@ =~= ride_stops(t, trip, boarding_p.0 as int, idx - 1),
                        decreases alighting_p.0 + 1 - idx,
                    {
                        let st = stop_times[idx];
                        leg_stops.push(
                            LegStop {
                                location: Location::Stop(t.pattern_stop(pattern, idx)),
                                departure_time: LiveTime::scheduled_only(
                                    match st.departure_time {
                                        Some(d) => d,
                                        None => Time(0),
                                    },
                                ),
                                arrival_time: LiveTime::scheduled_only(
                                    match st.arrival_time {
                                        Some(a) => a,
                                        None => Time(0),
                                    },
                                ),
                                distance_traveled: st.distance_traveled,
                            },
                        );
                        proof {
                            assert(leg_stops@ =~= ride_stops(t, trip, boarding_p.0 as int, idx as int));
                        }
                        idx += 1;
                    }
                    proof {
                        assert(leg_stops@ =~= ride_stops(t, trip, boarding_p.0 as int, alighting_p.0 as int));
                    }
                    legs.push(
                        Leg {
                            from: Location::Stop(boarding_stop),
                            to: Location::Stop(alighting_stop),
                            departure_time,
                            arrival_time,
                            stops: leg_stops,
                            leg_type: LegType::Transit(trip),
                        },
                    );
                    proof {
                        if ok {
                            if is_departure {
                                assert(alighting_stop == current_stop);
                            } else {
                                assert(boarding_stop == current_stop);
                            }
                            assert(legs@.drop_last() == before);
                        }
                        let n = state.num_stops() as int;
                        assert(parent_idx == slot(n, current_round as int, current_stop.0 as int));
                        assert(leg_of(t, legs@.last(), parent, StopIdx((current_stop.0 as int) as u32), query.is_arrival()));
                        assert(recorded_leg(state, t, legs@.last(), query.is_arrival()));
                        lemma_push_recorded(state, t, before, legs@.last(), query.is_arrival());
                        assert(legs@.drop_last() =~= before);
                        assert(legs@ == before.push(legs@.last()));
                    }
                    current_stop = if is_departure {
                        boarding_stop
                    } else {
                        alighting_stop
                    };
                    if current_round > 0 {
                        current_round -= 1;
                    } else {
                        proof {
                            if ends {
                                assert(parent_idx < state.num_stops());
                                assert(state.parents@[parent_idx as int] matches Some(Parent::Transit { .. }));
                                assert(false);
                            }
                            assert(legs@.last()@ == parent_leg(t, parent, here_stop, ia));
                            assert(chain_legs(state, t, ia, here_stop, here_round, here_fuel) =~= seq![legs@.last()@]);
                            assert(legs_view(legs@) =~= legs_view(before).push(legs@.last()@));
                            assert(legs_view(legs@) =~= outer_views + chain_all);
                        }
                        break;
                    }
                },
                Parent::Transfer { from_stop, departure_time, arrival_time } => {
                    let (from_loc, to_loc) = if is_departure {
                        (from_stop, current_stop)
                    } else {
                        (current_stop, from_stop)
                    };
                    legs.push(
                        Leg {
                            from: Location::Stop(from_loc),
                            to: Location::Stop(to_loc),
                            departure_time,
                            arrival_time,
                            stops: Vec::new(),
                            leg_type: LegType::Transfer,
                        },
                    );
                    proof {
                        assert(legs@.drop_last() == before);
                        let n = state.num_stops() as int;
                        assert(parent_idx == slot(n, current_round as int, current_stop.0 as int));
                        assert(leg_of(t, legs@.last(), parent, StopIdx((current_stop.0 as int) as u32), query.is_arrival()));
                        assert(recorded_leg(state, t, legs@.last(), query.is_arrival()));
                        lemma_push_recorded(state, t, before, legs@.last(), query.is_arrival());
                        assert(legs@.drop_last() =~= before);
                        assert(legs@ == before.push(legs@.last()));
                    }
                    current_stop = from_stop;
                },
                Parent::Walk { from_stop, departure_time, arrival_time } => {
                    let (from_loc, to_loc) = if is_departure {
                        (from_stop, current_stop)
                    } else {
                        (current_stop, from_stop)
                    };
                    legs.push(
                        Leg {
                            from: Location::Stop(from_loc),
                            to: Location::Stop(to_loc),
                            departure_time,
                            arrival_time,
                            stops: Vec::new(),
                            leg_type: LegType::Walk,
                        },
                    );
                    proof {
                        assert(legs@.drop_last() == before);
                        lemma_push_recorded(state, t, before, legs@.last(), query.is_arrival());
                        assert(legs@.drop_last() =~= before);
                        assert(legs@ == before.push(legs@.last()));
                    }
                    current_stop = from_stop;
                },
                Parent::Origin => {
                    proof {
                        if ends {
                            let n = state.num_stops() as int;
                            assert(parent_idx < n);
                            if current_round > 0 {
                                assert(parent_idx >= n) by (nonlinear_arith)
                                    requires
                                        parent_idx == current_round * n + current_stop.0,
                                        current_round >= 1,
                                ;
                            }
                            assert(StopIdx(parent_idx as u32) == current_stop);
                        }
                        assert(chain_legs(state, t, ia, here_stop, here_round, here_fuel) =~= Seq::<LegView>::empty());
                        assert(legs_view(legs@) =~= outer_views + chain_all);
                    }
                    break;
                },
            }
            proof {
                assert(legs@.last()@ == parent_leg(t, parent, here_stop, ia));
                assert(legs_view(legs@) =~= legs_view(before).push(legs@.last()@));
                assert(chain_legs(state, t, ia, here_stop, here_round, here_fuel) =~= seq![legs@.last()@] + chain_legs(
                    state,
                    t,
                    ia,
                    current_stop,
                    current_round as nat,
                    (fuel - steps) as nat,
                ));
                assert(legs_view(legs@) + chain_legs(state, t, ia, current_stop, current_round as nat, (fuel - steps) as nat)
                    =~= outer_views + chain_all);
                assert(chain_end(state, t, ia, here_stop, here_round, here_fuel) == chain_end(
                    state,
                    t,
                    ia,
                    current_stop,
                    current_round as nat,
                    (fuel - steps) as nat,
                ));
            }
        }

        // The inner end: from the query's other end to the last stop reached.
        let last_label = match cheapest_label(&state.tau_star[current_stop.as_usize()]) {
            Some(l) => l,
            None => ParetoLabel::min_label(),
        };
        let (last_leg_from, last_leg_to, last_dep, last_arr) = match query.time_direction {
            TimeDirection::Departure(dep_t) => (
                query.origin.resolve(current_stop),
                Location::Stop(current_stop),
                dep_t,
                last_label.time,
            ),
            TimeDirection::Arrival(arr_t) => (
                Location::Stop(current_stop),
                query.destination.resolve(current_stop),
                last_label.time,
                arr_t,
            ),
        };
        let ghost before_last = legs@;
        if last_leg_from != last_leg_to {
            legs.push(
                Leg {
                    from: last_leg_from,
                    to: last_leg_to,
                    departure_time: LiveTime::scheduled_only(last_dep),
                    arrival_time: LiveTime::scheduled_only(last_arr),
                    stops: Vec::new(),
                    leg_type: LegType::Walk,
                },
            );
        }

        let ghost gathered = legs@;
        let ghost inner_views = walk_if_moving(inner_walk(state, query, journey_end_stop(state, t, query)));
        proof {
            assert(current_stop == journey_end_stop(state, t, query));
            if legs@.len() > before_last.len() {
                assert(legs@.last()@ == inner_walk(state, query, current_stop));
                assert(legs_view(legs@) =~= legs_view(before_last).push(legs@.last()@));
                assert(inner_views =~= seq![legs@.last()@]);
            } else {
                assert(inner_views =~= Seq::<LegView>::empty());
            }
            assert(legs_view(gathered) =~= outer_views + chain_all + inner_views);
            assert forall|i: int| 0 <= i < legs@.len() implies bare_leg(#[trigger] legs@[i]) by {
                if i < before_last.len() {
                    assert(legs@[i] == before_last[i]);
                }
            }
            if ok {
                assert forall|i: int| 0 <= i < legs@.len() implies short_of_start(state, #[trigger] legs@[i], query.is_arrival()) by {
                    if i < before_last.len() {
                        assert(legs@[i] == before_last[i]);
                    }
                }
            }
            if legs@.len() > before_last.len() {
                assert(legs@.drop_last() =~= before_last);
            }
            assert(transit_count(legs@) == transit_count(before_last));
            if legs@.len() > before_last.len() && before_last.len() == 0 {
                assert(legs@[0] == legs@.last());
            }
            if before_last.len() > 0 {
                assert(legs@[0] == before_last[0]);
            }
            assert(legs@.len() == 0 <==> legless(state, query));
            if outer && legs@.len() >= 2 {
                if before_last.len() >= 2 {
                    assert(legs@[1] == before_last[1]);
                } else {
                    assert(legs@[1] == legs@.last());
                }
            }
            assert(outer && legs@.len() >= 2 ==> (legs@[1].leg_type is Walk <==> walk_before_end(state, query)));
            assert(!is_departure && legs@.len() > 0 ==> legs@[0].departure_time.scheduled == first_departure(state, query));
            if legs@.len() > before_last.len() {
                assert(legs@ == before_last.push(legs@.last()));
                lemma_push_recorded(state, t, before_last, legs@.last(), query.is_arrival());
            }
            if ok {
                if legs@.len() > before_last.len() {
                    assert(legs@.drop_last() == before_last);
                }
                if is_departure {
                    assert(back_connected(legs@));
                    assert(legs@.len() > 0 ==> legs@.last().from == query.origin.spec_resolve(current_stop));
                } else {
                    assert(connected(legs@));
                    assert(legs@.len() > 0 ==> legs@.last().to == query.destination.spec_resolve(current_stop));
                }
            }
        }
        // Put the legs in the order they are travelled.
        if is_departure {
            legs = reverse_legs(legs);
            proof {
                assert forall|i: int| 0 <= i < legs@.len() implies bare_leg(#[trigger] legs@[i]) by {
                    assert(legs@[i] == gathered[gathered.len() - 1 - i]);
                }
                if ok {
                    assert forall|i: int| 0 <= i < legs@.len() implies short_of_start(state, #[trigger] legs@[i], query.is_arrival()) by {
                        assert(legs@[i] == gathered[gathered.len() - 1 - i]);
                    }
                }
                if gathered.len() > 0 {
                    assert(legs@.last() == gathered[0]);
                }
                lemma_transit_count_reverse(gathered);
                lemma_reverse_view(gathered);
                if ok {
                    lemma_reverse_back_connected(gathered);
                }
                lemma_reverse_recorded(state, t, gathered, query.is_arrival());
            }
        }
        // Merge consecutive walks.
        let ghost ordered = legs@;
        let legs = merge_walk_legs(legs);
        proof {
            let bare = |l: Leg| bare_leg(l);
            assert forall|i: int| 0 <= i < ordered.len() implies #[trigger] bare(ordered[i]) by {}
            lemma_merge_walks_keeps(ordered, bare);
            lemma_merge_walks_view(ordered);
            assert(legs_view(ordered) == (if ia {
                legs_view(gathered)
            } else {
                legs_view(gathered).reverse()
            }));
            assert(legs_view(legs@) == journey_legs(state, t, query));
            if !is_departure && outer && !walk_before_end(state, query) {
                lemma_merge_walks_first(ordered);
            }
            if is_departure && outer && !walk_before_end(state, query) {
                assert(ordered.last() == gathered[0]);
                if ordered.len() >= 2 {
                    assert(ordered[ordered.len() - 2] == gathered[1]);
                }
                lemma_merge_walks_last(ordered);
            }
            lemma_transit_count_merge(ordered);
            assert forall|i: int| 0 <= i < legs@.len() implies bare_leg(#[trigger] legs@[i]) by {
                assert(bare(legs@[i]));
            }
            if ok {
                let short = |l: Leg| short_of_start(state, l, query.is_arrival());
                assert forall|i: int| 0 <= i < ordered.len() implies #[trigger] short(ordered[i]) by {}
                lemma_merge_walks_keeps(ordered, short);
                assert forall|i: int| 0 <= i < legs@.len() implies short_of_start(state, #[trigger] legs@[i], query.is_arrival()) by {
                    assert(short(legs@[i]));
                }
            }
            lemma_merge_walks_times(ordered);
            if is_departure {
                assert(gathered.len() > 0 ==> ordered[0] == gathered.last());
            }
            lemma_merge_walks_no_pairs(ordered);
            lemma_merge_walks_recorded(state, t, ordered, query.is_arrival());
            if ok {
                if is_departure {
                    assert(connected(ordered));
                    assert(ordered.len() > 0 ==> ordered[0].from == query.origin.spec_resolve(current_stop)
                        && ordered.last().to == dest_end);
                } else {
                    assert(ordered.len() > 0 ==> ordered[0].from == origin_end
                        && ordered.last().to == query.destination.spec_resolve(current_stop));
                }
                lemma_merge_walks_connected(ordered);
            }
        }

        let overall_from = if is_departure {
            query.origin.resolve(current_stop)
        } else {
            query.origin.resolve(best_stop)
        };
        let overall_to = if is_departure {
            query.destination.resolve(best_stop)
        } else {
            query.destination.resolve(current_stop)
        };
        proof {
            if ends {
                lemma_reaches_holds(&query.start(), current_stop);
                lemma_reaches_holds(&query.target(), best_stop);
            }
            assert(query.origin.spec_resolve(current_stop) == overall_from || query.origin.spec_resolve(best_stop) == overall_from);
            assert(query.destination.spec_resolve(current_stop) == overall_to || query.destination.spec_resolve(best_stop) == overall_to);
        }
        Ok(Itinerary { from: overall_from, to: overall_to, legs })
    }
}

/// Reversing legs gathered from the end puts them in travel order.
pub proof fn lemma_reverse_back_connected(legs: Seq<Leg>)
    requires
        back_connected(legs),
    ensures
        connected(legs.reverse()),
        legs.len() > 0 ==> legs.reverse()[0] == legs.last() && legs.reverse().last() == legs[0],
{
    let r = legs.reverse();
    assert forall|i: int| 0 <= i < r.len() - 1 implies (#[trigger] r[i]).to == r[i + 1].from by {
        let j = legs.len() - 1 - i;
        assert(r[i] == legs[j]);
        assert(r[i + 1] == legs[j - 1]);
        assert(legs[(j - 1) + 1] == legs[j]);
    }
}

/// Merging keeps the legs connected, and keeps where they start and end.
pub proof fn lemma_merge_walks_connected(legs: Seq<Leg>)
    requires
        connected(legs),
    ensures
        connected(merge_walks(legs)),
        legs.len() == 0 <==> merge_walks(legs).len() == 0,
        legs.len() > 0 ==> merge_walks(legs)[0].from == legs[0].from && merge_walks(legs).last().to == legs.last().to,
    decreases legs.len(),
{
    if legs.len() > 0 {
        let rest = legs.drop_last();
        assert(connected(rest)) by {
            assert forall|i: int| 0 <= i < rest.len() - 1 implies (#[trigger] rest[i]).to == rest[i + 1].from by {
                assert(rest[i] == legs[i] && rest[i + 1] == legs[i + 1]);
            }
        }
        lemma_merge_walks_connected(rest);
        let prev = merge_walks(rest);
        let out = merge_walks(legs);
        let leg = legs.last();
        if rest.len() > 0 {
            assert(legs[legs.len() - 2].to == legs[legs.len() - 1].from);
            assert(prev.last().to == leg.from);
        }
        if prev.len() > 0 && prev.last().leg_type is Walk && leg.leg_type is Walk {
            assert forall|i: int| 0 <= i < out.len() - 1 implies (#[trigger] out[i]).to == out[i + 1].from by {
                assert(out[i] == prev[i]);
                if i + 1 < out.len() - 1 {
                    assert(out[i + 1] == prev[i + 1]);
                } else {
                    assert(out[i + 1].from == prev.last().from);
                    assert(prev[i + 1] == prev.last());
                }
            }
            if out.len() > 1 {
                assert(out[0] == prev[0]);
            }
        } else {
            assert forall|i: int| 0 <= i < out.len() - 1 implies (#[trigger] out[i]).to == out[i + 1].from by {
                assert(out[i] == prev[i]);
                if i + 1 < out.len() - 1 {
                    assert(out[i + 1] == prev[i + 1]);
                }
            }
            if prev.len() > 0 {
                assert(out[0] == prev[0]);
            }
        }
    }
}

/// Merging leaves no walk directly after another walk.
pub proof fn lemma_merge_walks_no_pairs(legs: Seq<Leg>)
    ensures
        no_walk_pairs(merge_walks(legs)),
    decreases legs.len(),
{
    if legs.len() > 0 {
        lemma_merge_walks_no_pairs(legs.drop_last());
        let prev = merge_walks(legs.drop_last());
        let out = merge_walks(legs);
        let leg = legs.last();
        if prev.len() > 0 && prev.last().leg_type is Walk && leg.leg_type is Walk {
            assert forall|i: int| 0 <= i < out.len() - 1 implies !((#[trigger] out[i]).leg_type is Walk
                && out[i + 1].leg_type is Walk) by {
                assert(out[i] == prev[i]);
                if i + 1 < out.len() - 1 {
                    assert(out[i + 1] == prev[i + 1]);
                } else {
                    assert(out[i + 1].leg_type == prev.last().leg_type);
                    assert(prev[i + 1] == prev.last());
                }
            }
        } else {
            assert forall|i: int| 0 <= i < out.len() - 1 implies !((#[trigger] out[i]).leg_type is Walk
                && out[i + 1].leg_type is Walk) by {
                assert(out[i] == prev[i]);
                if i + 1 < out.len() - 1 {
                    assert(out[i + 1] == prev[i + 1]);
                }
            }
        }
    }
}


/// Merging walks keeps when the journey leaves and when it arrives.
pub proof fn lemma_merge_walks_times(legs: Seq<Leg>)
    ensures
        legs.len() > 0 ==> merge_walks(legs).len() > 0 && merge_walks(legs)[0].departure_time == legs[0].departure_time
            && merge_walks(legs).last().arrival_time == legs.last().arrival_time,
    decreases legs.len(),
{
    if legs.len() > 0 {
        let rest = legs.drop_last();
        lemma_merge_walks_times(rest);
        let prev = merge_walks(rest);
        let out = merge_walks(legs);
        if rest.len() > 0 {
            assert(rest[0] == legs[0]);
            if prev.last().leg_type is Walk && legs.last().leg_type is Walk {
                if prev.len() > 1 {
                    assert(out[0] == prev[0]);
                }
            } else {
                assert(out[0] == prev[0]);
            }
        }
    }
}

/// Pushing a walk, or a recorded ride or transfer, keeps the rides and
/// transfers recorded.
pub proof fn lemma_push_recorded(state: &State, t: &Timetable, legs: Seq<Leg>, leg: Leg, is_arrival: bool)
    requires
        rides_recorded(state, t, legs, is_arrival),
        leg.leg_type is Walk || recorded_leg(state, t, leg, is_arrival),
    ensures
        rides_recorded(state, t, legs.push(leg), is_arrival),
{
    let out = legs.push(leg);
    assert forall|i: int| 0 <= i < out.len() && !(out[i].leg_type is Walk) implies recorded_leg(
        state,
        t,
        #[trigger] out[i],
        is_arrival,
    ) by {
        if i < legs.len() {
            assert(out[i] == legs[i]);
        }
    }
}

/// Merging walks keeps the recorded rides and transfers: it only joins
/// walks.
pub proof fn lemma_merge_walks_recorded(state: &State, t: &Timetable, legs: Seq<Leg>, is_arrival: bool)
    requires
        rides_recorded(state, t, legs, is_arrival),
    ensures
        rides_recorded(state, t, merge_walks(legs), is_arrival),
    decreases legs.len(),
{
    if legs.len() > 0 {
        let rest = legs.drop_last();
        assert forall|i: int| 0 <= i < rest.len() && !(rest[i].leg_type is Walk) implies recorded_leg(
            state,
            t,
            #[trigger] rest[i],
            is_arrival,
        ) by {
            assert(rest[i] == legs[i]);
        }
        lemma_merge_walks_recorded(state, t, rest, is_arrival);
        let prev = merge_walks(rest);
        let out = merge_walks(legs);
        let leg = legs.last();
        assert(leg == legs[legs.len() - 1]);
        assert forall|i: int| 0 <= i < out.len() && !(out[i].leg_type is Walk) implies recorded_leg(
            state,
            t,
            #[trigger] out[i],
            is_arrival,
        ) by {
            if prev.len() > 0 && prev.last().leg_type is Walk && leg.leg_type is Walk {
                if i < out.len() - 1 {
                    assert(out[i] == prev[i]);
                }
            } else {
                if i < out.len() - 1 {
                    assert(out[i] == prev[i]);
                } else {
                    assert(out[i] == leg);
                }
            }
        }
    }
}

/// Reversing keeps the recorded rides and transfers.
pub proof fn lemma_reverse_recorded(state: &State, t: &Timetable, legs: Seq<Leg>, is_arrival: bool)
    requires
        rides_recorded(state, t, legs, is_arrival),
    ensures
        rides_recorded(state, t, legs.reverse(), is_arrival),
{
    let r = legs.reverse();
    assert forall|i: int| 0 <= i < r.len() && !(r[i].leg_type is Walk) implies recorded_leg(
        state,
        t,
        #[trigger] r[i],
        is_arrival,
    ) by {
        assert(r[i] == legs[legs.len() - 1 - i]);
    }
}

} // verus!
