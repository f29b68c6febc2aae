//! A search whose origin and destination are one stop: it finds that stop
//! in its first round and rebuilds a journey without legs.

use vstd::prelude::*;

use crate::network::{Duration, StopIdx, Timetable};
use crate::raptor::explorer::{
    hop_list, hops_out, label_hops, merged, stop_hops, transfer_hop, transfer_hops, walk_hop,
    walk_hops,
};
use crate::raptor::front::{ParetoLabel, dominated_in, dominates, min_cost, spec_add};
use crate::raptor::query::{QueryLocation, RaptorQuery};
use crate::raptor::state::{State, SearchView, apply_all, fronts, label_of, lemma_slot_bound, parent_slot};
use crate::raptor::{
    MAX_ROUNDS, Parent, Update, Walks, offer_stop, offer_targets, query_time, round_ok, seed_one,
    target_view, trace_ok, trace_rounds, walked_label,
};

verus! {

/// `l0` dominates the label of every update of `us`.
pub open spec fn covers(l0: ParetoLabel, us: Seq<Update>, is_arrival: bool) -> bool {
    forall|k: int| 0 <= k < us.len() ==> dominates(l0, label_of(#[trigger] us[k]), is_arrival)
}

/// Covering survives joining.
proof fn lemma_covers_join(l0: ParetoLabel, a: Seq<Update>, b: Seq<Update>, is_arrival: bool)
    requires
        covers(l0, a, is_arrival),
        covers(l0, b, is_arrival),
    ensures
        covers(l0, a + b, is_arrival),
        covers(l0, merged(a, b), is_arrival),
{
    assert forall|k: int| 0 <= k < (a + b).len() implies dominates(l0, label_of(#[trigger] (a + b)[k]), is_arrival) by {
        if k < a.len() {
            assert((a + b)[k] == a[k]);
        } else {
            assert((a + b)[k] == b[k - a.len()]);
        }
    }
    assert forall|k: int| 0 <= k < (b + a).len() implies dominates(l0, label_of(#[trigger] (b + a)[k]), is_arrival) by {
        if k < b.len() {
            assert((b + a)[k] == b[k]);
        } else {
            assert((b + a)[k] == a[k - b.len()]);
        }
    }
}

/// Covering survives pushing a covered update.
proof fn lemma_covers_push(l0: ParetoLabel, a: Seq<Update>, u: Update, is_arrival: bool)
    requires
        covers(l0, a, is_arrival),
        dominates(l0, label_of(u), is_arrival),
    ensures
        covers(l0, a.push(u), is_arrival),
{
    assert forall|k: int| 0 <= k < a.push(u).len() implies dominates(l0, label_of(#[trigger] a.push(u)[k]), is_arrival) by {
        if k < a.len() {
            assert(a.push(u)[k] == a[k]);
        }
    }
}

/// `l0` dominates every current label of every marked stop.
pub open spec fn covers_marked(l0: ParetoLabel, state: &State, is_arrival: bool) -> bool {
    forall|m: int, li: int|
        0 <= m < state.marked_stops@.len() && state.marked_stops@[m] && 0 <= li < state.current_labels@[m]@.len()
            ==> dominates(l0, #[trigger] state.current_labels@[m]@[li], is_arrival)
}

/// The transfers from a covered label are covered: a transfer takes time
/// and costs.
proof fn lemma_transfer_hops_covered(
    l0: ParetoLabel,
    state: &State,
    t: &Timetable,
    query: &RaptorQuery,
    m: int,
    li: int,
    x: int,
    is_arrival: bool,
)
    requires
        dominates(l0, state.current_labels@[m]@[li], is_arrival),
    ensures
        covers(l0, transfer_hops(state, t, query, m, li, x, is_arrival), is_arrival),
    decreases x,
{
    if x > 0 {
        lemma_transfer_hops_covered(l0, state, t, query, m, li, x - 1, is_arrival);
        let u = transfer_hop(state, t, query, m, li, x - 1, is_arrival);
        assert(dominates(l0, label_of(u), is_arrival));
        lemma_covers_push(l0, transfer_hops(state, t, query, m, li, x - 1, is_arrival), u, is_arrival);
    }
}

/// The walks from a covered label are covered: a walk takes time and
/// costs.
proof fn lemma_walk_hops_covered(
    l0: ParetoLabel,
    state: &State,
    t: &Timetable,
    walks: &Walks,
    query: &RaptorQuery,
    m: int,
    li: int,
    w: int,
    is_arrival: bool,
)
    requires
        dominates(l0, state.current_labels@[m]@[li], is_arrival),
    ensures
        covers(l0, walk_hops(state, t, walks, query, m, li, w, is_arrival), is_arrival),
    decreases w,
{
    if w > 0 {
        lemma_walk_hops_covered(l0, state, t, walks, query, m, li, w - 1, is_arrival);
        let u = walk_hop(state, t, walks, query, m, li, w - 1, is_arrival);
        assert(dominates(l0, label_of(u), is_arrival));
        lemma_covers_push(l0, walk_hops(state, t, walks, query, m, li, w - 1, is_arrival), u, is_arrival);
    }
}

/// The hops from covered labels of a stop are covered.
proof fn lemma_stop_hops_covered(
    l0: ParetoLabel,
    state: &State,
    t: &Timetable,
    walks: &Walks,
    query: &RaptorQuery,
    m: int,
    li: int,
    is_arrival: bool,
)
    requires
        li <= state.current_labels@[m]@.len(),
        forall|j: int| 0 <= j < li ==> dominates(l0, #[trigger] state.current_labels@[m]@[j], is_arrival),
    ensures
        covers(l0, stop_hops(state, t, walks, query, m, li, is_arrival), is_arrival),
    decreases li,
{
    if li > 0 {
        lemma_stop_hops_covered(l0, state, t, walks, query, m, li - 1, is_arrival);
        assert(dominates(l0, state.current_labels@[m]@[li - 1], is_arrival));
        lemma_transfer_hops_covered(l0, state, t, query, m, li - 1, hop_list(t, m, is_arrival).len() as int, is_arrival);
        lemma_walk_hops_covered(l0, state, t, walks, query, m, li - 1, walks.by_stop@[m]@.len() as int, is_arrival);
        lemma_covers_join(
            l0,
            transfer_hops(state, t, query, m, li - 1, hop_list(t, m, is_arrival).len() as int, is_arrival),
            walk_hops(state, t, walks, query, m, li - 1, walks.by_stop@[m]@.len() as int, is_arrival),
            is_arrival,
        );
        lemma_covers_join(
            l0,
            stop_hops(state, t, walks, query, m, li - 1, is_arrival),
            label_hops(state, t, walks, query, m, li - 1, is_arrival),
            is_arrival,
        );
    }
}

/// Where `l0` dominates the current labels of the marked stops, it
/// dominates every hop the search offers.
pub proof fn lemma_hops_covered(
    l0: ParetoLabel,
    state: &State,
    t: &Timetable,
    walks: &Walks,
    query: &RaptorQuery,
    is_arrival: bool,
    i: int,
)
    requires
        covers_marked(l0, state, is_arrival),
        i <= state.marked_stops@.len(),
    ensures
        covers(l0, hops_out(state, t, walks, query, is_arrival, i), is_arrival),
    decreases i,
{
    if i > 0 {
        lemma_hops_covered(l0, state, t, walks, query, is_arrival, i - 1);
        if state.marked_stops@[i - 1] {
            let m = i - 1;
            assert forall|j: int| 0 <= j < state.current_labels@[m]@.len() implies dominates(
                l0,
                #[trigger] state.current_labels@[m]@[j],
                is_arrival,
            ) by {}
            lemma_stop_hops_covered(l0, state, t, walks, query, m, state.current_labels@[m]@.len() as int, is_arrival);
            lemma_covers_join(
                l0,
                hops_out(state, t, walks, query, is_arrival, i - 1),
                stop_hops(state, t, walks, query, m, state.current_labels@[m]@.len() as int, is_arrival),
                is_arrival,
            );
        }
    }
}

/// A label of a stop's best front that dominates every update to the stop
/// keeps the stop as it is: its fronts and its parent in the round.
pub proof fn lemma_apply_all_keeps_stop(
    v: SearchView,
    target: Seq<ParetoLabel>,
    n: nat,
    round: nat,
    is_arrival: bool,
    us: Seq<Update>,
    s: StopIdx,
    l0: ParetoLabel,
)
    requires
        s.0 < n,
        v.tau.len() == n,
        v.cur.len() == n,
        v.tau[s.0 as int].contains(l0),
        round < MAX_ROUNDS,
        n * MAX_ROUNDS < v.parents.len(),
        forall|k: int| 0 <= k < us.len() ==> (#[trigger] us[k]).stop.0 < n,
        forall|k: int| 0 <= k < us.len() && (#[trigger] us[k]).stop == s ==> dominates(l0, label_of(us[k]), is_arrival),
    ensures
        apply_all(v, target, n, round, is_arrival, us).tau.len() == n,
        apply_all(v, target, n, round, is_arrival, us).cur.len() == n,
        apply_all(v, target, n, round, is_arrival, us).parents.len() == v.parents.len(),
        apply_all(v, target, n, round, is_arrival, us).tau[s.0 as int] == v.tau[s.0 as int],
        apply_all(v, target, n, round, is_arrival, us).cur[s.0 as int] == v.cur[s.0 as int],
        apply_all(v, target, n, round, is_arrival, us).parents[parent_slot(n, round, s)]
            == v.parents[parent_slot(n, round, s)],
    decreases us.len(),
{
    if us.len() > 0 {
        let rest = us.drop_last();
        lemma_apply_all_keeps_stop(v, target, n, round, is_arrival, rest, s, l0);
        let w = apply_all(v, target, n, round, is_arrival, rest);
        let u = us.last();
        assert(u == us[us.len() - 1]);
        lemma_slot_bound(n, round, u.stop.0 as nat);
        lemma_slot_bound(n, round, s.0 as nat);
        let si = s.0 as int;
        if u.stop == s {
            let i = choose|i: int| 0 <= i < w.tau[si].len() && w.tau[si][i] == l0;
            assert(dominates(w.tau[si][i], label_of(u), is_arrival));
            assert(dominated_in(w.tau[si], label_of(u), is_arrival));
        }
    }
}

/// Updates in a round after the first leave the first round's parents as
/// they are.
pub proof fn lemma_apply_all_keeps_first_round(
    v: SearchView,
    target: Seq<ParetoLabel>,
    n: nat,
    round: nat,
    is_arrival: bool,
    us: Seq<Update>,
    k: int,
)
    requires
        1 <= round < MAX_ROUNDS,
        0 <= k < n,
        n * MAX_ROUNDS < v.parents.len(),
        forall|i: int| 0 <= i < us.len() ==> (#[trigger] us[i]).stop.0 < n,
    ensures
        apply_all(v, target, n, round, is_arrival, us).parents.len() == v.parents.len(),
        apply_all(v, target, n, round, is_arrival, us).parents[k] == v.parents[k],
    decreases us.len(),
{
    if us.len() > 0 {
        lemma_apply_all_keeps_first_round(v, target, n, round, is_arrival, us.drop_last(), k);
        let u = us.last();
        assert(u == us[us.len() - 1]);
        lemma_slot_bound(n, round, u.stop.0 as nat);
        assert(round * n + u.stop.0 >= n) by (nonlinear_arith)
            requires
                round >= 1,
        ;
    }
}

/// Offering labels to a target whose best stop is `stop`, or that has none
/// and whose front is empty, leaves `stop` the best one.
pub proof fn lemma_offer_stop_keeps(
    tv: (Seq<ParetoLabel>, Option<StopIdx>, Option<usize>),
    labels: Seq<ParetoLabel>,
    stop: StopIdx,
    walk: Duration,
    walk_penalty: u32,
    round: usize,
    is_arrival: bool,
    j: int,
)
    requires
        0 <= j <= labels.len(),
        (tv.1 == Some(stop) && tv.2 is Some) || (j >= 1 && tv.0.len() == 0),
    ensures
        offer_stop(tv, labels, stop, walk, walk_penalty, round, is_arrival, j).1 == Some(stop),
        offer_stop(tv, labels, stop, walk, walk_penalty, round, is_arrival, j).2 is Some,
    decreases j,
{
    if j > 0 {
        let prev = offer_stop(tv, labels, stop, walk, walk_penalty, round, is_arrival, j - 1);
        let l = walked_label(labels[j - 1], walk, walk_penalty, is_arrival);
        if tv.1 == Some(stop) && tv.2 is Some {
            lemma_offer_stop_keeps(tv, labels, stop, walk, walk_penalty, round, is_arrival, j - 1);
        } else if j >= 2 {
            lemma_offer_stop_keeps(tv, labels, stop, walk, walk_penalty, round, is_arrival, j - 1);
        } else {
            assert(prev == tv);
            assert(!dominated_in(tv.0, l, is_arrival));
            let front = spec_add(tv.0, l, is_arrival);
            assert(front =~= seq![l]);
            assert(front.drop_last() =~= Seq::<ParetoLabel>::empty());
            assert(min_cost(Seq::<ParetoLabel>::empty()) == u64::MAX);
            assert(min_cost(front) == l.cost);
        }
    }
}

/// A target with the single target stop `stop`, whose best stop is `stop`
/// (or that has none yet, an empty front, and a reached stop), keeps `stop`
/// the best one.
pub proof fn lemma_offer_targets_keeps(
    tv: (Seq<ParetoLabel>, Option<StopIdx>, Option<usize>),
    cur: Seq<Seq<ParetoLabel>>,
    stop: StopIdx,
    walk_penalty: u32,
    round: usize,
    is_arrival: bool,
)
    requires
        0 <= stop.0 < cur.len(),
        (tv.1 == Some(stop) && tv.2 is Some) || (cur[stop.0 as int].len() >= 1 && tv.0.len() == 0),
    ensures
        offer_targets(tv, cur, seq![(stop, Duration(0))], walk_penalty, round, is_arrival, 1).1 == Some(stop),
        offer_targets(tv, cur, seq![(stop, Duration(0))], walk_penalty, round, is_arrival, 1).2 is Some,
{
    let targets = seq![(stop, Duration(0))];
    assert(offer_targets(tv, cur, targets, walk_penalty, round, is_arrival, 0) == tv);
    lemma_offer_stop_keeps(
        tv,
        cur[stop.0 as int],
        stop,
        Duration(0),
        walk_penalty,
        round,
        is_arrival,
        cur[stop.0 as int].len() as int,
    );
}

/// What holds of a search whose start and target are both the stop `s`,
/// once it has first offered the target what it reached: the stop's first
/// round's parent is the origin, it is the only target stop, and it is the
/// best one.
pub open spec fn stays_at(st: &State, s: StopIdx) -> bool {
    &&& st.parents@[parent_slot(st.num_stops(), 0, s)] == Some(Parent::Origin)
    &&& st.target_stops@ == seq![(s, Duration(0))]
    &&& st.target_best_stop == Some(s)
    &&& st.target_best_round is Some
}

/// A search from a clear state whose start and target are both the stop
/// `s` keeps to `s` (see [`stays_at`]) from its first offer to the target
/// on: its label there dominates whatever the first round's transfers and
/// walks bring back to it, and later rounds write no first round's parent.
pub proof fn lemma_same_stop_trace(
    s0: &State,
    trace: Seq<State>,
    t: &Timetable,
    walks: &Walks,
    query: &RaptorQuery,
    s: StopIdx,
    i: int,
)
    requires
        trace_ok(s0, trace, t, walks, query),
        trace_rounds(trace) < MAX_ROUNDS,
        s0.is_clear(),
        s0.dims_ok(),
        s0.num_stops() == t.stops@.len(),
        s.0 < s0.num_stops(),
        query.start() == QueryLocation::Stop(s),
        query.target() == QueryLocation::Stop(s),
        2 <= i < trace.len(),
    ensures
        stays_at(&trace[i], s),
    decreases i,
{
    let is_arrival = query.is_arrival();
    let n = s0.num_stops();
    let si = s.0 as int;
    if i == 2 {
        let l0 = ParetoLabel { time: query_time(query), cost: 0 };
        let t0 = trace[0];
        let t1 = trace[1];
        let t2 = trace[2];
        assert(t0.dims_ok() && t1.dims_ok() && t2.dims_ok());
        assert(s0.tau_star@[si]@.len() == 0);
        assert(s0.current_labels@[si]@.len() == 0);
        assert(s0.search_view().tau[si] =~= Seq::<ParetoLabel>::empty());
        assert(s0.search_view().cur[si] =~= Seq::<ParetoLabel>::empty());
        assert(t0.search_view() == seed_one(s0.search_view(), n, s, l0, is_arrival));
        assert(!dominated_in(Seq::<ParetoLabel>::empty(), l0, is_arrival));
        assert(spec_add(Seq::<ParetoLabel>::empty(), l0, is_arrival) =~= seq![l0]);
        assert(t0.search_view().tau[si] == spec_add(s0.search_view().tau[si], l0, is_arrival));
        assert(t0.search_view().cur[si] == spec_add(s0.search_view().cur[si], l0, is_arrival));
        assert(t0.search_view().tau[si] == seq![l0]);
        assert(t0.search_view().cur[si] == seq![l0]);
        assert(fronts(t0.current_labels@)[si] == t0.current_labels@[si]@);
        assert(t0.current_labels@[si]@ == seq![l0]);
        assert(seq![l0][0] == l0);
        assert(t0.search_view().tau[si].contains(l0));
        assert forall|m: int, li: int|
            0 <= m < t0.marked_stops@.len() && t0.marked_stops@[m] && 0 <= li < t0.current_labels@[m]@.len()
                implies dominates(l0, #[trigger] t0.current_labels@[m]@[li], is_arrival) by {
            if m != si {
                assert(t0.marked_stops@[m] == s0.marked_stops@[m]);
            }
        }
        lemma_hops_covered(l0, &t0, t, walks, query, is_arrival, t.stops@.len() as int);
        let us = hops_out(&t0, t, walks, query, is_arrival, t.stops@.len() as int);
        lemma_apply_all_keeps_stop(t0.search_view(), t0.target_tau_star@, n, 0, is_arrival, us, s, l0);
        assert(t1.current_labels@[si]@ == t0.current_labels@[si]@);
        assert(t0.target_stops@ =~= seq![(s, Duration(0))]);
        assert(fronts(t1.current_labels@)[si] == t1.current_labels@[si]@);
        lemma_offer_targets_keeps(target_view(&t1), fronts(t1.current_labels@), s, query.walk_penalty, 0, is_arrival);
        assert(t2.parents@ == t1.parents@);
    } else {
        lemma_same_stop_trace(s0, trace, t, walks, query, s, i - 1);
        let r = (i + 1) / 4;
        assert(4 * r - 1 <= i <= 4 * r + 2);
        assert(1 <= r <= trace_rounds(trace));
        assert(round_ok(trace, r, t, walks, query));
        let a = trace[i - 1];
        let b = trace[i];
        assert(a.dims_ok() && b.dims_ok() && a.num_stops() == n && b.num_stops() == n);
        if i == 4 * r + 2 {
            lemma_offer_targets_keeps(target_view(&a), fronts(a.current_labels@), s, query.walk_penalty, r as usize, is_arrival);
            assert(b.parents@ == a.parents@);
        } else if i == 4 * r || i == 4 * r + 1 {
            let us = if i == 4 * r {
                crate::raptor::explorer::patterns_out(&a, t, query, is_arrival, t.trip_patterns@.len() as int)
            } else {
                hops_out(&a, t, walks, query, is_arrival, t.stops@.len() as int)
            };
            lemma_apply_all_keeps_first_round(a.search_view(), a.target_tau_star@, n, r as nat, is_arrival, us, si);
            assert(b.parents@ == b.search_view().parents);
        }
    }
}

} // verus!
