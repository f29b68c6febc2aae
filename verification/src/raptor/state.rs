//! The working state of a search, reused from one query to the next.

use vstd::prelude::*;

use crate::network::{Duration, StopIdx, Timetable, stop_ok};
use crate::raptor::front::{
    ParetoFront, ParetoLabel, dominated_in, is_antichain, lemma_add_keeps_antichain,
    lemma_add_monotone, spec_add,
};
use crate::raptor::query::QueryLocation;
use crate::raptor::{MAX_ROUNDS, Parent, SequnceIdx, Update, parent_wf};

verus! {

/// The labels of a vector of fronts.
pub open spec fn fronts(v: Seq<ParetoFront>) -> Seq<Seq<ParetoLabel>> {
    Seq::new(v.len(), |i: int| v[i]@)
}

/// The part of a [`State`] that applying updates changes.
#[verifier::ext_equal]
pub struct SearchView {
    pub tau: Seq<Seq<ParetoLabel>>,
    pub cur: Seq<Seq<ParetoLabel>>,
    pub marked: Seq<bool>,
    pub parents: Seq<Option<Parent>>,
}

/// Where the parent of stop `s` in round `r` is kept, for `n` stops.
pub open spec fn slot(n: int, r: int, s: int) -> int {
    r * n + s
}

/// Where the parent of `stop` in `round` is kept, for `n` stops.
pub open spec fn parent_slot(n: nat, round: nat, stop: StopIdx) -> int {
    slot(n as int, round as int, stop.0 as int)
}

/// Distinct rounds and stops have distinct slots.
pub proof fn lemma_slot_injective(n: int, r1: int, s1: int, r2: int, s2: int)
    requires
        0 <= s1 < n,
        0 <= s2 < n,
        0 <= r1,
        0 <= r2,
        slot(n, r1, s1) == slot(n, r2, s2),
    ensures
        r1 == r2,
        s1 == s2,
{
    assert(r1 == r2 && s1 == s2) by (nonlinear_arith)
        requires
            0 <= s1 < n,
            0 <= s2 < n,
            0 <= r1,
            0 <= r2,
            r1 * n + s1 == r2 * n + s2,
    ;
}

/// A ride recorded as the parent of stop `s` ends at `s` (forward) or
/// starts there (backward); other parents say nothing of `s`.
pub open spec fn transit_reaches(t: &Timetable, p: Parent, s: int, is_arrival: bool) -> bool {
    match p {
        Parent::Transit { boarding_p, alighting_p, trip, .. } => {
            let stops = t.trip_patterns@[t.trips@[trip.0 as int].pattern.0 as int].stops@;
            stops[(if is_arrival {
                boarding_p.0
            } else {
                alighting_p.0
            }) as int].0 == s
        },
        _ => true,
    }
}

/// Every ride recorded as a parent reaches the stop it is recorded for.
pub open spec fn consistent_parents(ps: Seq<Option<Parent>>, n: int, t: &Timetable, is_arrival: bool) -> bool {
    forall|r: int, s: int|
        0 <= r < MAX_ROUNDS && 0 <= s < n ==> (#[trigger] ps[slot(n, r, s)] matches Some(p)
            ==> transit_reaches(t, p, s, is_arrival))
}

/// A search from `start` records its start in `ps` (for `n` stops): an
/// origin parent sits only in the first round's slot of a stop that `start`
/// reaches, and no ride is recorded in the first round.
pub open spec fn starts_at(ps: Seq<Option<Parent>>, n: int, start: &QueryLocation) -> bool {
    &&& forall|k: int|
        0 <= k < ps.len() ==> (#[trigger] ps[k] matches Some(Parent::Origin) ==> k < n && start.reaches(StopIdx(k as u32)))
    &&& forall|k: int| 0 <= k < n && k < ps.len() ==> !(#[trigger] ps[k] matches Some(Parent::Transit { .. }))
}

/// The label of an update.
pub open spec fn label_of(u: Update) -> ParetoLabel {
    ParetoLabel { time: u.time, cost: u.cost }
}

/// An update improves a stop when neither the best labels found for the
/// target nor those found for the stop dominate it.
pub open spec fn improves(v: SearchView, target: Seq<ParetoLabel>, is_arrival: bool, u: Update) -> bool {
    &&& !dominated_in(target, label_of(u), is_arrival)
    &&& !dominated_in(v.tau[u.stop.0 as int], label_of(u), is_arrival)
}

/// Applying one update: where it improves its stop, its label joins the
/// stop's best and current fronts, the stop is marked, and its parent is
/// recorded for the round; otherwise nothing changes.
pub open spec fn apply_one(
    v: SearchView,
    target: Seq<ParetoLabel>,
    n: nat,
    round: nat,
    is_arrival: bool,
    u: Update,
) -> SearchView {
    let s = u.stop.0 as int;
    if improves(v, target, is_arrival, u) {
        SearchView {
            tau: v.tau.update(s, spec_add(v.tau[s], label_of(u), is_arrival)),
            cur: v.cur.update(s, spec_add(v.cur[s], label_of(u), is_arrival)),
            marked: v.marked.update(s, true),
            parents: v.parents.update(parent_slot(n, round, u.stop), Some(u.parent)),
        }
    } else {
        v
    }
}

/// Applying a sequence of updates in order.
pub open spec fn apply_all(
    v: SearchView,
    target: Seq<ParetoLabel>,
    n: nat,
    round: nat,
    is_arrival: bool,
    us: Seq<Update>,
) -> SearchView
    decreases us.len(),
{
    if us.len() == 0 {
        v
    } else {
        apply_one(
            apply_all(v, target, n, round, is_arrival, us.drop_last()),
            target,
            n,
            round,
            is_arrival,
            us.last(),
        )
    }
}

/// Every update names a stop of the network and a parent within it.
pub open spec fn updates_wf(t: &Timetable, us: Seq<Update>) -> bool {
    forall|k: int|
        0 <= k < us.len() ==> stop_ok(t, (#[trigger] us[k]).stop) && parent_wf(t, us[k].parent)
}

pub struct State {
    /// The best labels found so far for each stop, over all rounds.
    pub tau_star: Vec<ParetoFront>,
    /// The labels found in the current round.
    pub current_labels: Vec<ParetoFront>,
    /// The labels found in the previous round.
    pub previous_labels: Vec<ParetoFront>,
    /// The stops whose labels improved in the current round.
    pub marked_stops: Vec<bool>,
    /// For each trip pattern, the first position (last, for backward
    /// searches) at which it is to be scanned in this round.
    pub active_trip_patterns: Vec<Option<SequnceIdx>>,
    /// The best labels found for the destination (origin, backward).
    pub target_tau_star: ParetoFront,
    /// The stops from which the target is reached, with the walk to it.
    pub target_stops: Vec<(StopIdx, Duration)>,
    pub target_best_stop: Option<StopIdx>,
    pub target_best_round: Option<usize>,
    /// The parent of each stop in each round, at `round * stops + stop`.
    pub parents: Vec<Option<Parent>>,
    /// The number of stops the state was made for.
    pub stop_count: usize,
}

impl State {
    pub open spec fn num_stops(&self) -> nat {
        self.stop_count as nat
    }

    /// The per-stop vectors have one entry per stop, and the parents one
    /// slot per stop and round (and one more).
    pub open spec fn dims_ok(&self) -> bool {
        let n = self.num_stops();
        &&& n * MAX_ROUNDS + 1 <= usize::MAX
        &&& self.tau_star@.len() == n
        &&& self.current_labels@.len() == n
        &&& self.previous_labels@.len() == n
        &&& self.marked_stops@.len() == n
        &&& self.parents@.len() == n * MAX_ROUNDS + 1
    }

    /// The sizes of the state match the network, and everything it records
    /// lies in the network.
    pub open spec fn wf(&self, t: &Timetable) -> bool {
        &&& self.dims_ok()
        &&& self.num_stops() == t.stops@.len()
        &&& self.active_trip_patterns@.len() == t.trip_patterns@.len()
        &&& forall|k: int|
            0 <= k < self.active_trip_patterns@.len() ==> (#[trigger] self.active_trip_patterns@[k] matches Some(p) ==> p.0 < t.trip_patterns@[k].stops@.len())
        &&& forall|k: int|
            0 <= k < self.target_stops@.len() ==> stop_ok(t, (#[trigger] self.target_stops@[k]).0)
        &&& (self.target_best_stop matches Some(s) ==> stop_ok(t, s))
        &&& (self.target_best_round matches Some(r) ==> r < MAX_ROUNDS)
        &&& forall|k: int|
            0 <= k < self.parents@.len() ==> (#[trigger] self.parents@[k] matches Some(p) ==> parent_wf(t, p))
    }

    /// Nothing has been found: the state of a fresh search.
    pub open spec fn is_clear(&self) -> bool {
        &&& forall|i: int| 0 <= i < self.tau_star@.len() ==> (#[trigger] self.tau_star@[i])@.len() == 0
        &&& forall|i: int| 0 <= i < self.current_labels@.len() ==> (#[trigger] self.current_labels@[i])@.len() == 0
        &&& forall|i: int| 0 <= i < self.previous_labels@.len() ==> (#[trigger] self.previous_labels@[i])@.len() == 0
        &&& forall|i: int| 0 <= i < self.marked_stops@.len() ==> !#[trigger] self.marked_stops@[i]
        &&& forall|i: int|
            0 <= i < self.active_trip_patterns@.len() ==> #[trigger] self.active_trip_patterns@[i] is None
        &&& self.target_tau_star@.len() == 0
        &&& self.target_stops@.len() == 0
        &&& self.target_best_stop is None
        &&& self.target_best_round is None
        &&& forall|i: int| 0 <= i < self.parents@.len() ==> #[trigger] self.parents@[i] is None
    }

    /// The search starts from `start` (see [`starts_at`]).
    pub open spec fn starts_from(&self, start: &QueryLocation) -> bool {
        starts_at(self.parents@, self.num_stops() as int, start)
    }

    /// The search ends at `target`: each target stop, and the best one
    /// found, is a stop that `target` reaches.
    pub open spec fn ends_in(&self, target: &QueryLocation) -> bool {
        &&& forall|k: int| 0 <= k < self.target_stops@.len() ==> target.reaches((#[trigger] self.target_stops@[k]).0)
        &&& self.target_best_stop matches Some(s) ==> target.reaches(s)
    }

    pub open spec fn parents_consistent(&self, t: &Timetable, is_arrival: bool) -> bool {
        consistent_parents(self.parents@, self.num_stops() as int, t, is_arrival)
    }

    pub open spec fn search_view(&self) -> SearchView {
        SearchView {
            tau: fronts(self.tau_star@),
            cur: fronts(self.current_labels@),
            marked: self.marked_stops@,
            parents: self.parents@,
        }
    }

    pub fn new(t: &Timetable) -> (s: State)
        requires
            t.stops@.len() * MAX_ROUNDS + 1 <= usize::MAX,
        ensures
            s.wf(t),
            s.is_clear(),
    {
        let n = t.stops.len();
        let np = t.trip_patterns.len();
        State {
            tau_star: empty_fronts(n),
            current_labels: empty_fronts(n),
            previous_labels: empty_fronts(n),
            marked_stops: filled(n, false),
            active_trip_patterns: nones(np),
            target_tau_star: ParetoFront::new(),
            target_stops: Vec::new(),
            target_best_stop: None,
            target_best_round: None,
            parents: nones(n * MAX_ROUNDS + 1),
            stop_count: n,
        }
    }

    /// Clears everything found, keeping the sizes.
    pub fn reset(&mut self)
        ensures
            forall|t: &Timetable| old(self).wf(t) ==> final(self).wf(t),
            final(self).dims_ok() == old(self).dims_ok(),
            final(self).is_clear(),
            final(self).num_stops() == old(self).num_stops(),
            final(self).active_trip_patterns@.len() == old(self).active_trip_patterns@.len(),
    {
        clear_fronts(&mut self.tau_star);
        clear_fronts(&mut self.current_labels);
        clear_fronts(&mut self.previous_labels);
        fill_false(&mut self.marked_stops);
        fill_none(&mut self.active_trip_patterns);
        self.target_tau_star.clear();
        self.target_stops.clear();
        self.target_best_stop = None;
        self.target_best_round = None;
        fill_none(&mut self.parents);
    }

    /// Offers each update, in order, to its stop (see [`apply_one`]).
    pub fn apply_updates(&mut self, round: usize, is_arrival: bool, updates: &Vec<Update>)
        requires
            round < MAX_ROUNDS,
            old(self).dims_ok(),
            forall|k: int| 0 <= k < updates@.len() ==> (#[trigger] updates@[k]).stop.0 < old(self).num_stops(),
        ensures
            final(self).dims_ok(),
            forall|t: &Timetable| old(self).wf(t) && updates_wf(t, updates@) ==> final(self).wf(t),
            final(self).parents@.len() == old(self).parents@.len(),
            final(self).search_view() == apply_all(
                old(self).search_view(),
                old(self).target_tau_star@,
                old(self).num_stops(),
                round as nat,
                is_arrival,
                updates@,
            ),
            final(self).num_stops() == old(self).num_stops(),
            final(self).previous_labels == old(self).previous_labels,
            final(self).active_trip_patterns == old(self).active_trip_patterns,
            final(self).target_tau_star == old(self).target_tau_star,
            final(self).target_stops == old(self).target_stops,
            final(self).target_best_stop == old(self).target_best_stop,
            final(self).target_best_round == old(self).target_best_round,
    {
        let ghost v0 = self.search_view();
        let n = updates.len();
        let mut i: usize = 0;
        while i < n
            invariant
                i <= n,
                n == updates@.len(),
                round < MAX_ROUNDS,
                self.dims_ok(),
                forall|k: int| 0 <= k < updates@.len() ==> (#[trigger] updates@[k]).stop.0 < self.num_stops(),
                forall|t: &Timetable| old(self).wf(t) && updates_wf(t, updates@) ==> self.wf(t),
                self.search_view() == apply_all(
                    v0,
                    self.target_tau_star@,
                    self.num_stops(),
                    round as nat,
                    is_arrival,
                    updates@.subrange(0, i as int),
                ),
                self.num_stops() == old(self).num_stops(),
                self.previous_labels == old(self).previous_labels,
                self.active_trip_patterns == old(self).active_trip_patterns,
                self.target_tau_star == old(self).target_tau_star,
                self.target_stops == old(self).target_stops,
                self.target_best_stop == old(self).target_best_stop,
                self.target_best_round == old(self).target_best_round,
            decreases n - i,
        {
            let update = updates[i];
            let ghost before = self.search_view();
            proof {
                assert(updates@.subrange(0, i + 1).drop_last() =~= updates@.subrange(0, i as int));
                assert(updates@.subrange(0, i + 1).last() == update);
                assert(updates@[i as int].stop.0 < self.num_stops());
            }
            let ghost pre = *self;
            let s = update.stop.as_usize();
            let label = ParetoLabel::new(update.time, update.cost);
            if !self.target_tau_star.is_dominated(update.time, update.cost, is_arrival)
                && !self.tau_star[s].is_dominated(update.time, update.cost, is_arrival) {
                self.tau_star[s].add(label, is_arrival);
                self.current_labels[s].add(label, is_arrival);
                let parent_idx = self.calc_parent_idx(round, update.stop);
                self.parents.set(parent_idx, Some(update.parent));
                self.marked_stops.set(s, true);
                proof {
                    assert forall|t: &Timetable| old(self).wf(t) && updates_wf(t, updates@) implies self.wf(t) by {
                        assert(pre.wf(t));
                        assert(parent_wf(t, updates@[i as int].parent));
                        assert forall|k: int| 0 <= k < self.parents@.len() implies (#[trigger] self.parents@[k] matches Some(p) ==> parent_wf(t, p)) by {
                            if k != parent_idx {
                                assert(self.parents@[k] == pre.parents@[k]);
                            }
                        }
                    }
                    assert(self.search_view() =~= apply_one(
                        before,
                        self.target_tau_star@,
                        self.num_stops(),
                        round as nat,
                        is_arrival,
                        update,
                    ));
                    assert(self.search_view().tau =~= apply_one(
                        before,
                        self.target_tau_star@,
                        self.num_stops(),
                        round as nat,
                        is_arrival,
                        update,
                    ).tau);
                }
            }
            i += 1;
        }
        proof {
            assert(updates@.subrange(0, n as int) =~= updates@);
        }
    }

    /// Where the parent of `stop` in `round` is kept.
    pub fn calc_parent_idx(&self, round: usize, stop: StopIdx) -> (r: usize)
        requires
            round < MAX_ROUNDS,
            stop.0 < self.num_stops(),
            self.num_stops() * MAX_ROUNDS + 1 <= usize::MAX,
        ensures
            r == parent_slot(self.num_stops(), round as nat, stop),
            r < self.num_stops() * MAX_ROUNDS,
    {
        proof {
            lemma_slot_bound(self.num_stops(), round as nat, stop.0 as nat);
        }
        (round * self.stop_count) + stop.as_usize()
    }
}

/// A slot of a round and a stop lies below `rounds * n`.
/// A clear state records no parent, so its parents are consistent in
/// either direction.
pub proof fn lemma_clear_consistent(s: &State, t: &Timetable, is_arrival: bool)
    requires
        s.dims_ok(),
        s.is_clear(),
    ensures
        s.parents_consistent(t, is_arrival),
{
    let n = s.num_stops() as int;
    assert forall|r: int, st: int| 0 <= r < MAX_ROUNDS && 0 <= st < n implies
        !(#[trigger] s.parents@[slot(n, r, st)] is Some) by {
        lemma_slot_bound(n as nat, r as nat, st as nat);
    }
}

pub proof fn lemma_slot_bound(n: nat, round: nat, stop: nat)
    requires
        round < MAX_ROUNDS,
        stop < n,
    ensures
        round * n + stop < n * MAX_ROUNDS,
{
    assert(round * n + stop < n * MAX_ROUNDS) by (nonlinear_arith)
        requires
            round < MAX_ROUNDS,
            stop < n,
    ;
}

/// `n` empty fronts.
fn empty_fronts(n: usize) -> (v: Vec<ParetoFront>)
    ensures
        v@.len() == n,
        forall|i: int| 0 <= i < n ==> (#[trigger] v@[i])@.len() == 0,
{
    let mut v: Vec<ParetoFront> = Vec::new();
    let mut i: usize = 0;
    while i < n
        invariant
            i <= n,
            v@.len() == i,
            forall|j: int| 0 <= j < i ==> (#[trigger] v@[j])@.len() == 0,
        decreases n - i,
    {
        v.push(ParetoFront::new());
        i += 1;
    }
    v
}

/// `n` copies of `x`.
fn filled(n: usize, x: bool) -> (v: Vec<bool>)
    ensures
        v@ == Seq::new(n as nat, |i: int| x),
{
    let mut v: Vec<bool> = Vec::new();
    let mut i: usize = 0;
    while i < n
        invariant
            i <= n,
            v@ == Seq::new(i as nat, |j: int| x),
        decreases n - i,
    {
        v.push(x);
        i += 1;
        proof {
            assert(v@ =~= Seq::new(i as nat, |j: int| x));
        }
    }
    v
}

/// `n` times `None`.
fn nones<T>(n: usize) -> (v: Vec<Option<T>>)
    ensures
        v@.len() == n,
        forall|i: int| 0 <= i < n ==> #[trigger] v@[i] is None,
{
    let mut v: Vec<Option<T>> = Vec::new();
    let mut i: usize = 0;
    while i < n
        invariant
            i <= n,
            v@.len() == i,
            forall|j: int| 0 <= j < i ==> #[trigger] v@[j] is None,
        decreases n - i,
    {
        v.push(None);
        i += 1;
    }
    v
}

/// Sets every entry to `false`.
fn fill_false(v: &mut Vec<bool>)
    ensures
        final(v)@ == Seq::new(old(v)@.len(), |i: int| false),
{
    let n = v.len();
    let mut i: usize = 0;
    while i < n
        invariant
            i <= n,
            v@.len() == n,
            forall|j: int| 0 <= j < i ==> !#[trigger] v@[j],
        decreases n - i,
    {
        v.set(i, false);
        i += 1;
    }
    proof {
        assert(v@ =~= Seq::new(n as nat, |i: int| false));
    }
}

/// Sets every entry to `None`.
fn fill_none<T>(v: &mut Vec<Option<T>>)
    ensures
        final(v)@.len() == old(v)@.len(),
        forall|i: int| 0 <= i < final(v)@.len() ==> #[trigger] final(v)@[i] is None,
{
    let n = v.len();
    let mut i: usize = 0;
    while i < n
        invariant
            i <= n,
            v@.len() == n,
            forall|j: int| 0 <= j < i ==> #[trigger] v@[j] is None,
        decreases n - i,
    {
        v.set(i, None);
        i += 1;
    }
}

/// Empties every front of a vector.
fn clear_fronts(v: &mut Vec<ParetoFront>)
    ensures
        final(v)@.len() == old(v)@.len(),
        forall|i: int| 0 <= i < final(v)@.len() ==> (#[trigger] final(v)@[i])@.len() == 0,
{
    let n = v.len();
    let mut i: usize = 0;
    while i < n
        invariant
            i <= n,
            v@.len() == n,
            forall|j: int| 0 <= j < i ==> (#[trigger] v@[j])@.len() == 0,
        decreases n - i,
    {
        v.set(i, ParetoFront::new());
        i += 1;
    }
}

/// Every front of a sequence of fronts holds no dominated label.
pub open spec fn all_antichains(fs: Seq<Seq<ParetoLabel>>, is_arrival: bool) -> bool {
    forall|i: int| 0 <= i < fs.len() ==> is_antichain(#[trigger] fs[i], is_arrival)
}

/// Applying updates keeps the sizes of the view and keeps every best and
/// current front free of dominated labels.
pub proof fn lemma_apply_all_antichains(
    v: SearchView,
    target: Seq<ParetoLabel>,
    n: nat,
    round: nat,
    is_arrival: bool,
    us: Seq<Update>,
)
    requires
        all_antichains(v.tau, is_arrival),
        all_antichains(v.cur, is_arrival),
        v.tau.len() == n,
        v.cur.len() == n,
        v.marked.len() == n,
        forall|k: int| 0 <= k < us.len() ==> (#[trigger] us[k]).stop.0 < n,
    ensures
        all_antichains(apply_all(v, target, n, round, is_arrival, us).tau, is_arrival),
        all_antichains(apply_all(v, target, n, round, is_arrival, us).cur, is_arrival),
        apply_all(v, target, n, round, is_arrival, us).tau.len() == n,
        apply_all(v, target, n, round, is_arrival, us).cur.len() == n,
        apply_all(v, target, n, round, is_arrival, us).marked.len() == n,
    decreases us.len(),
{
    if us.len() > 0 {
        let rest = us.drop_last();
        assert forall|k: int| 0 <= k < rest.len() implies (#[trigger] rest[k]).stop.0 < n by {
            assert(rest[k] == us[k]);
        }
        lemma_apply_all_antichains(v, target, n, round, is_arrival, rest);
        let w = apply_all(v, target, n, round, is_arrival, rest);
        let u = us.last();
        assert(u == us[us.len() - 1]);
        let s = u.stop.0 as int;
        if improves(w, target, is_arrival, u) {
            lemma_add_keeps_antichain(w.tau[s], label_of(u), is_arrival);
            lemma_add_keeps_antichain(w.cur[s], label_of(u), is_arrival);
            let r = apply_one(w, target, n, round, is_arrival, u);
            assert forall|i: int| 0 <= i < r.tau.len() implies is_antichain(#[trigger] r.tau[i], is_arrival) by {
                if i != s {
                    assert(r.tau[i] == w.tau[i]);
                }
            }
            assert forall|i: int| 0 <= i < r.cur.len() implies is_antichain(#[trigger] r.cur[i], is_arrival) by {
                if i != s {
                    assert(r.cur[i] == w.cur[i]);
                }
            }
        }
    }
}

/// Applying updates never loses a label's dominance: whatever a best front
/// dominates before, it still dominates after.
pub proof fn lemma_apply_all_monotone(
    v: SearchView,
    target: Seq<ParetoLabel>,
    n: nat,
    round: nat,
    is_arrival: bool,
    us: Seq<Update>,
    stop: int,
    x: ParetoLabel,
)
    requires
        0 <= stop < v.tau.len(),
        dominated_in(v.tau[stop], x, is_arrival),
        forall|k: int| 0 <= k < us.len() ==> (#[trigger] us[k]).stop.0 < v.tau.len(),
    ensures
        apply_all(v, target, n, round, is_arrival, us).tau.len() == v.tau.len(),
        dominated_in(apply_all(v, target, n, round, is_arrival, us).tau[stop], x, is_arrival),
    decreases us.len(),
{
    if us.len() > 0 {
        let rest = us.drop_last();
        assert forall|k: int| 0 <= k < rest.len() implies (#[trigger] rest[k]).stop.0 < v.tau.len() by {
            assert(rest[k] == us[k]);
        }
        lemma_apply_all_monotone(v, target, n, round, is_arrival, rest, stop, x);
        let w = apply_all(v, target, n, round, is_arrival, rest);
        let u = us.last();
        assert(u == us[us.len() - 1]);
        if improves(w, target, is_arrival, u) && u.stop.0 == stop {
            lemma_add_monotone(w.tau[stop], label_of(u), x, is_arrival);
        }
    }
}

/// Applying updates whose rides reach their stops keeps every recorded
/// ride reaching the stop it is recorded for.
/// Applying updates that record no origin, and no ride in the first round,
/// keeps where the search starts.
pub proof fn lemma_apply_all_starts(
    v: SearchView,
    target: Seq<ParetoLabel>,
    n: nat,
    round: nat,
    is_arrival: bool,
    us: Seq<Update>,
    start: &QueryLocation,
)
    requires
        round < MAX_ROUNDS,
        v.parents.len() == n * MAX_ROUNDS + 1,
        starts_at(v.parents, n as int, start),
        forall|k: int|
            0 <= k < us.len() ==> (#[trigger] us[k]).stop.0 < n && !(us[k].parent is Origin) && (round == 0
                ==> !(us[k].parent is Transit)),
    ensures
        starts_at(apply_all(v, target, n, round, is_arrival, us).parents, n as int, start),
        apply_all(v, target, n, round, is_arrival, us).parents.len() == n * MAX_ROUNDS + 1,
    decreases us.len(),
{
    if us.len() > 0 {
        let rest = us.drop_last();
        assert forall|k: int| 0 <= k < rest.len() implies (#[trigger] rest[k]).stop.0 < n && !(rest[k].parent is Origin)
            && (round == 0 ==> !(rest[k].parent is Transit)) by {
            assert(rest[k] == us[k]);
        }
        lemma_apply_all_starts(v, target, n, round, is_arrival, rest, start);
        let w = apply_all(v, target, n, round, is_arrival, rest);
        let u = us.last();
        assert(u == us[us.len() - 1]);
        if improves(w, target, is_arrival, u) {
            let out = apply_one(w, target, n, round, is_arrival, u);
            let k0 = parent_slot(n, round, u.stop);
            lemma_slot_bound(n, round, u.stop.0 as nat);
            if round > 0 {
                assert(k0 >= n) by (nonlinear_arith)
                    requires
                        k0 == round * n + u.stop.0,
                        round >= 1,
                        u.stop.0 >= 0,
                ;
            }
            assert forall|k: int| 0 <= k < out.parents.len() implies (#[trigger] out.parents[k] matches Some(Parent::Origin)
                ==> k < n && start.reaches(StopIdx(k as u32))) by {
                if k != k0 {
                    assert(out.parents[k] == w.parents[k]);
                }
            }
            assert forall|k: int| 0 <= k < n && k < out.parents.len() implies !(#[trigger] out.parents[k] matches Some(
                Parent::Transit { .. },
            )) by {
                if k != k0 {
                    assert(out.parents[k] == w.parents[k]);
                }
            }
        }
    }
}

/// A clear state starts from and ends in anywhere.
pub proof fn lemma_clear_ends(s: &State, start: &QueryLocation, target: &QueryLocation)
    requires
        s.is_clear(),
    ensures
        s.starts_from(start),
        s.ends_in(target),
{
}

pub proof fn lemma_apply_all_consistent(
    v: SearchView,
    target: Seq<ParetoLabel>,
    n: nat,
    round: nat,
    is_arrival: bool,
    us: Seq<Update>,
    t: &Timetable,
)
    requires
        round < MAX_ROUNDS,
        v.parents.len() == n * MAX_ROUNDS + 1,
        consistent_parents(v.parents, n as int, t, is_arrival),
        forall|k: int|
            0 <= k < us.len() ==> (#[trigger] us[k]).stop.0 < n && transit_reaches(
                t,
                us[k].parent,
                us[k].stop.0 as int,
                is_arrival,
            ),
    ensures
        consistent_parents(apply_all(v, target, n, round, is_arrival, us).parents, n as int, t, is_arrival),
        apply_all(v, target, n, round, is_arrival, us).parents.len() == n * MAX_ROUNDS + 1,
    decreases us.len(),
{
    if us.len() > 0 {
        let rest = us.drop_last();
        assert forall|k: int| 0 <= k < rest.len() implies (#[trigger] rest[k]).stop.0 < n && transit_reaches(
            t,
            rest[k].parent,
            rest[k].stop.0 as int,
            is_arrival,
        ) by {
            assert(rest[k] == us[k]);
        }
        lemma_apply_all_consistent(v, target, n, round, is_arrival, rest, t);
        let w = apply_all(v, target, n, round, is_arrival, rest);
        let u = us.last();
        assert(u == us[us.len() - 1]);
        if improves(w, target, is_arrival, u) {
            let out = apply_one(w, target, n, round, is_arrival, u);
            let k0 = parent_slot(n, round, u.stop);
            lemma_slot_bound(n, round, u.stop.0 as nat);
            assert forall|r: int, s: int|
                0 <= r < MAX_ROUNDS && 0 <= s < n implies (#[trigger] out.parents[slot(n as int, r, s)] matches Some(p)
                    ==> transit_reaches(t, p, s, is_arrival)) by {
                if slot(n as int, r, s) == k0 {
                    lemma_slot_injective(n as int, r, s, round as int, u.stop.0 as int);
                } else {
                    lemma_slot_bound(n, r as nat, s as nat);
                    assert(out.parents[slot(n as int, r, s)] == w.parents[slot(n as int, r, s)]);
                }
            }
        }
    }
}

} // verus!
