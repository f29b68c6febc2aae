//! Pareto fronts of (time, cost) labels, kept in a `smallvec::SmallVec`.

use vstd::prelude::*;

use crate::network::Time;

verus! {

/// How many labels a front holds before it spills to the heap.
pub const FRONT_SIZE: usize = 4;

/// A label: the time at which a stop is reached (or left, for searches that
/// run backwards from an arrival time) and the accumulated cost of getting there.
///
/// Costs are weighted seconds in thousandths (a weight of 1000 counts a second
/// once); `u64::MAX` stands for an unbounded cost.
#[derive(Debug, Clone, Copy, PartialEq, Eq, Structural)]
pub struct ParetoLabel {
    pub time: Time,
    pub cost: u64,
}

impl ParetoLabel {
    /// The worst label of a forward search.
    pub open spec fn spec_max() -> ParetoLabel {
        ParetoLabel { time: Time(u32::MAX), cost: u64::MAX }
    }

    /// The worst label of a backward search.
    pub open spec fn spec_min() -> ParetoLabel {
        ParetoLabel { time: Time(0), cost: u64::MAX }
    }

    pub fn max_label() -> (r: ParetoLabel)
        ensures
            r == Self::spec_max(),
    {
        ParetoLabel { time: Time(u32::MAX), cost: u64::MAX }
    }

    pub fn min_label() -> (r: ParetoLabel)
        ensures
            r == Self::spec_min(),
    {
        ParetoLabel { time: Time(0), cost: u64::MAX }
    }

    pub fn new(time: Time, cost: u64) -> (r: ParetoLabel)
        ensures
            r.time == time,
            r.cost == cost,
    {
        ParetoLabel { time, cost }
    }
}

/// `a` is at least as good as `b`: no later (forward) or no earlier
/// (backward, `is_arrival`) and no more costly.
pub open spec fn dominates(a: ParetoLabel, b: ParetoLabel, is_arrival: bool) -> bool {
    &&& if is_arrival {
        a.time.0 >= b.time.0
    } else {
        a.time.0 <= b.time.0
    }
    &&& a.cost <= b.cost
}

/// Some label of `s` dominates `l`.
pub open spec fn dominated_in(s: Seq<ParetoLabel>, l: ParetoLabel, is_arrival: bool) -> bool {
    exists|i: int| 0 <= i < s.len() && dominates(#[trigger] s[i], l, is_arrival)
}

/// No label of `s` dominates another one of `s`.
pub open spec fn is_antichain(s: Seq<ParetoLabel>, is_arrival: bool) -> bool {
    forall|i: int, j: int|
        0 <= i < s.len() && 0 <= j < s.len() && i != j ==> !dominates(
            #[trigger] s[i],
            #[trigger] s[j],
            is_arrival,
        )
}

/// The labels of `s` that `l` does not dominate, in their order.
pub open spec fn survivors(s: Seq<ParetoLabel>, l: ParetoLabel, is_arrival: bool) -> Seq<
    ParetoLabel,
> {
    s.filter(|x: ParetoLabel| !dominates(l, x, is_arrival))
}

/// The front after offering `l`: unchanged where `l` is dominated, else the
/// survivors followed by `l`.
pub open spec fn spec_add(s: Seq<ParetoLabel>, l: ParetoLabel, is_arrival: bool) -> Seq<
    ParetoLabel,
> {
    if dominated_in(s, l, is_arrival) {
        s
    } else {
        survivors(s, l, is_arrival).push(l)
    }
}

/// The smallest cost of `s`, `u64::MAX` for an empty front.
pub open spec fn min_cost(s: Seq<ParetoLabel>) -> u64
    decreases s.len(),
{
    if s.len() == 0 {
        u64::MAX
    } else {
        let rest = min_cost(s.drop_last());
        if s.last().cost < rest {
            s.last().cost
        } else {
            rest
        }
    }
}

/// The latest time of `s` (`is_arrival`) or the earliest, `None` when empty.
pub open spec fn best_time_of(s: Seq<ParetoLabel>, is_arrival: bool) -> Option<Time>
    decreases s.len(),
{
    if s.len() == 0 {
        None
    } else {
        let t = s.last().time;
        match best_time_of(s.drop_last(), is_arrival) {
            None => Some(t),
            Some(b) => if (is_arrival && t.0 >= b.0) || (!is_arrival && t.0 <= b.0) {
                Some(t)
            } else {
                Some(b)
            },
        }
    }
}

/// Dominance is transitive.
pub proof fn lemma_dominates_transitive(a: ParetoLabel, b: ParetoLabel, c: ParetoLabel, is_arrival: bool)
    requires
        dominates(a, b, is_arrival),
        dominates(b, c, is_arrival),
    ensures
        dominates(a, c, is_arrival),
{
}

proof fn lemma_survivors_antichain(s: Seq<ParetoLabel>, l: ParetoLabel, is_arrival: bool)
    requires
        is_antichain(s, is_arrival),
    ensures
        is_antichain(survivors(s, l, is_arrival), is_arrival),
        forall|i: int|
            0 <= i < survivors(s, l, is_arrival).len() ==> s.contains(
                #[trigger] survivors(s, l, is_arrival)[i],
            ) && !dominates(l, survivors(s, l, is_arrival)[i], is_arrival),
    decreases s.len(),
{
    let pred = |x: ParetoLabel| !dominates(l, x, is_arrival);
    reveal(Seq::filter);
    if s.len() > 0 {
        let rest = s.drop_last();
        assert(is_antichain(rest, is_arrival)) by {
            assert forall|i: int, j: int|
                0 <= i < rest.len() && 0 <= j < rest.len() && i != j implies !dominates(
                    #[trigger] rest[i],
                    #[trigger] rest[j],
                    is_arrival,
                ) by {
                assert(rest[i] == s[i] && rest[j] == s[j]);
            }
        }
        lemma_survivors_antichain(rest, l, is_arrival);
        let sub = survivors(rest, l, is_arrival);
        assert(sub == rest.filter(pred));
        if pred(s.last()) {
            let out = sub.push(s.last());
            assert(survivors(s, l, is_arrival) == out);
            assert forall|i: int, j: int|
                0 <= i < out.len() && 0 <= j < out.len() && i != j implies !dominates(
                    #[trigger] out[i],
                    #[trigger] out[j],
                    is_arrival,
                ) by {
                if i < sub.len() && j < sub.len() {
                    assert(out[i] == sub[i] && out[j] == sub[j]);
                } else if i < sub.len() {
                    assert(rest.contains(sub[i]));
                    let k = choose|k: int| 0 <= k < rest.len() && rest[k] == sub[i];
                    assert(s[k] == out[i] && s[s.len() - 1] == out[j]);
                } else {
                    assert(rest.contains(sub[j]));
                    let k = choose|k: int| 0 <= k < rest.len() && rest[k] == sub[j];
                    assert(s[k] == out[j] && s[s.len() - 1] == out[i]);
                }
            }
            assert forall|i: int| 0 <= i < out.len() implies s.contains(#[trigger] out[i])
                && !dominates(l, out[i], is_arrival) by {
                if i < sub.len() {
                    assert(out[i] == sub[i]);
                    assert(rest.contains(sub[i]));
                    let k = choose|k: int| 0 <= k < rest.len() && rest[k] == sub[i];
                    assert(s[k] == out[i]);
                } else {
                    assert(out[i] == s[s.len() - 1]);
                }
            }
        } else {
            assert(survivors(s, l, is_arrival) == sub);
            assert forall|i: int| 0 <= i < sub.len() implies s.contains(#[trigger] sub[i]) by {
                assert(rest.contains(sub[i]));
                let k = choose|k: int| 0 <= k < rest.len() && rest[k] == sub[i];
                assert(s[k] == sub[i]);
            }
        }
    }
}

/// Adding a label to a front keeps it free of dominated labels.
pub proof fn lemma_add_keeps_antichain(s: Seq<ParetoLabel>, l: ParetoLabel, is_arrival: bool)
    requires
        is_antichain(s, is_arrival),
    ensures
        is_antichain(spec_add(s, l, is_arrival), is_arrival),
{
    if !dominated_in(s, l, is_arrival) {
        lemma_survivors_antichain(s, l, is_arrival);
        let sub = survivors(s, l, is_arrival);
        let out = sub.push(l);
        assert forall|i: int, j: int|
            0 <= i < out.len() && 0 <= j < out.len() && i != j implies !dominates(
                #[trigger] out[i],
                #[trigger] out[j],
                is_arrival,
            ) by {
            if i < sub.len() && j < sub.len() {
                assert(out[i] == sub[i] && out[j] == sub[j]);
            } else if i < sub.len() {
                assert(out[i] == sub[i] && out[j] == l);
                assert(s.contains(sub[i]));
            } else {
                assert(out[j] == sub[j] && out[i] == l);
                assert(!dominates(l, sub[j], is_arrival));
            }
        }
    }
}

/// After a label is offered, the front dominates it: it was either
/// dominated already or it is now on the front.
pub proof fn lemma_add_covers_label(s: Seq<ParetoLabel>, l: ParetoLabel, is_arrival: bool)
    ensures
        dominated_in(spec_add(s, l, is_arrival), l, is_arrival),
{
    if !dominated_in(s, l, is_arrival) {
        let out = spec_add(s, l, is_arrival);
        assert(out[out.len() - 1] == l);
        assert(dominates(out[out.len() - 1], l, is_arrival));
    }
}

/// Whatever a front dominates, it still dominates after a label is offered.
pub proof fn lemma_add_monotone(s: Seq<ParetoLabel>, l: ParetoLabel, x: ParetoLabel, is_arrival: bool)
    requires
        dominated_in(s, x, is_arrival),
    ensures
        dominated_in(spec_add(s, l, is_arrival), x, is_arrival),
{
    if !dominated_in(s, l, is_arrival) {
        let pred = |y: ParetoLabel| !dominates(l, y, is_arrival);
        let i = choose|i: int| 0 <= i < s.len() && dominates(#[trigger] s[i], x, is_arrival);
        let out = spec_add(s, l, is_arrival);
        let sub = survivors(s, l, is_arrival);
        if dominates(l, s[i], is_arrival) {
            lemma_dominates_transitive(l, s[i], x, is_arrival);
            assert(out[out.len() - 1] == l);
        } else {
            s.lemma_filter_contains(pred, i);
            assert(sub.contains(s[i]));
            let k = choose|k: int| 0 <= k < sub.len() && sub[k] == s[i];
            assert(out[k] == s[i]);
        }
    }
}

/// The `smallvec::SmallVec` that stores the labels of a front; Verus sees
/// its contents only through `labels_of` and the functions below.
#[verifier::external_body]
pub struct LabelVec {
    inner: smallvec::SmallVec<[ParetoLabel; 4]>,
}

/// The labels held by a small vector of labels, in order.
pub uninterp spec fn labels_of(v: LabelVec) -> Seq<ParetoLabel>;

/// `SmallVec::new`: an empty vector.
#[verifier::external_body]
fn labels_new() -> (v: LabelVec)
    ensures
        labels_of(v) == Seq::<ParetoLabel>::empty(),
{
    LabelVec { inner: smallvec::SmallVec::new() }
}

/// `SmallVec::len`: the number of labels held.
#[verifier::external_body]
fn labels_len(v: &LabelVec) -> (n: usize)
    ensures
        n == labels_of(*v).len(),
{
    v.inner.len()
}

/// `SmallVec` indexing: the label at position `i`.
#[verifier::external_body]
fn labels_get(v: &LabelVec, i: usize) -> (l: ParetoLabel)
    requires
        i < labels_of(*v).len(),
    ensures
        l == labels_of(*v)[i as int],
{
    v.inner[i]
}

/// `SmallVec::push`: appends a label at the end. Growing past `isize::MAX`
/// bytes of labels panics ("capacity overflow"); allocation fails long
/// before, and the contract leaves it unsaid, as vstd's does for `Vec::push`.
#[verifier::external_body]
fn labels_push(v: &mut LabelVec, l: ParetoLabel)
    ensures
        labels_of(*final(v)) == labels_of(*old(v)).push(l),
{
    v.inner.push(l)
}

/// `SmallVec::clear`: removes every label.
#[verifier::external_body]
fn labels_clear(v: &mut LabelVec)
    ensures
        labels_of(*final(v)) == Seq::<ParetoLabel>::empty(),
{
    v.inner.clear()
}

/// `SmallVec::retain` with a predicate that keeps the labels that `label`
/// does not dominate; `retain` keeps the order of the retained labels.
#[verifier::external_body]
fn labels_retain_undominated(
    v: &mut LabelVec,
    label: ParetoLabel,
    is_arrival: bool,
)
    ensures
        labels_of(*final(v)) == survivors(labels_of(*old(v)), label, is_arrival),
{
    v.inner.retain(|l| !label_dominates(&label, l, is_arrival))
}

/// Whether `a` dominates `b`.
pub fn label_dominates(a: &ParetoLabel, b: &ParetoLabel, is_arrival: bool) -> (r: bool)
    ensures
        r == dominates(*a, *b, is_arrival),
{
    let time_ok = if is_arrival {
        a.time.0 >= b.time.0
    } else {
        a.time.0 <= b.time.0
    };
    time_ok && a.cost <= b.cost
}

/// A set of mutually non-dominating labels.
pub struct ParetoFront(LabelVec);

impl View for ParetoFront {
    type V = Seq<ParetoLabel>;

    closed spec fn view(&self) -> Seq<ParetoLabel> {
        labels_of(self.0)
    }
}

impl ParetoFront {
    pub fn new() -> (f: ParetoFront)
        ensures
            f@ == Seq::<ParetoLabel>::empty(),
    {
        ParetoFront(labels_new())
    }

    /// The number of labels on the front.
    pub fn len(&self) -> (n: usize)
        ensures
            n == self@.len(),
    {
        labels_len(&self.0)
    }

    /// The label at position `i`.
    pub fn get(&self, i: usize) -> (l: ParetoLabel)
        requires
            i < self@.len(),
        ensures
            l == self@[i as int],
    {
        labels_get(&self.0, i)
    }

    /// Returns `true` if `(time, cost)` is dominated by any label already on the front.
    pub fn is_dominated(&self, time: Time, cost: u64, is_arrival: bool) -> (r: bool)
        ensures
            r == dominated_in(self@, (ParetoLabel { time, cost }), is_arrival),
    {
        let candidate = ParetoLabel { time, cost };
        let n = labels_len(&self.0);
        let mut i: usize = 0;
        while i < n
            invariant
                n == self@.len(),
                i <= n,
                candidate == (ParetoLabel { time, cost }),
                forall|j: int| 0 <= j < i ==> !dominates(#[trigger] self@[j], candidate, is_arrival),
            decreases n - i,
        {
            let l = labels_get(&self.0, i);
            if label_dominates(&l, &candidate, is_arrival) {
                assert(dominates(self@[i as int], candidate, is_arrival));
                return true;
            }
            i += 1;
        }
        false
    }

    /// Add a label if it is not dominated. Remove any labels the new one dominates.
    /// Returns `true` if the label was accepted.
    pub fn add(&mut self, label: ParetoLabel, is_arrival: bool) -> (accepted: bool)
        ensures
            accepted == !dominated_in(old(self)@, label, is_arrival),
            final(self)@ == spec_add(old(self)@, label, is_arrival),
    {
        if self.is_dominated(label.time, label.cost, is_arrival) {
            return false;
        }
        labels_retain_undominated(&mut self.0, label, is_arrival);
        labels_push(&mut self.0, label);
        true
    }

    /// Minimum cost across all labels. `u64::MAX` if empty.
    pub fn best_cost(&self) -> (c: u64)
        ensures
            c == min_cost(self@),
    {
        let n = labels_len(&self.0);
        let mut acc: u64 = u64::MAX;
        let mut i: usize = 0;
        while i < n
            invariant
                n == self@.len(),
                i <= n,
                acc == min_cost(self@.subrange(0, i as int)),
            decreases n - i,
        {
            let l = labels_get(&self.0, i);
            proof {
                assert(self@.subrange(0, i + 1).drop_last() =~= self@.subrange(0, i as int));
            }
            if l.cost < acc {
                acc = l.cost;
            }
            i += 1;
        }
        proof {
            assert(self@.subrange(0, n as int) =~= self@);
        }
        acc
    }

    /// Best time: the latest for a backward search, the earliest for a forward
    /// one. `None` if empty.
    pub fn best_time(&self, is_arrival: bool) -> (t: Option<Time>)
        ensures
            t == best_time_of(self@, is_arrival),
    {
        let n = labels_len(&self.0);
        let mut best: Option<Time> = None;
        let mut i: usize = 0;
        while i < n
            invariant
                n == self@.len(),
                i <= n,
                best == best_time_of(self@.subrange(0, i as int), is_arrival),
            decreases n - i,
        {
            let l = labels_get(&self.0, i);
            proof {
                assert(self@.subrange(0, i + 1).drop_last() =~= self@.subrange(0, i as int));
            }
            best = match best {
                None => Some(l.time),
                Some(b) => if (is_arrival && l.time.0 >= b.0) || (!is_arrival && l.time.0 <= b.0) {
                    Some(l.time)
                } else {
                    Some(b)
                },
            };
            i += 1;
        }
        proof {
            assert(self@.subrange(0, n as int) =~= self@);
        }
        best
    }

    pub fn is_empty(&self) -> (r: bool)
        ensures
            r == (self@.len() == 0),
    {
        labels_len(&self.0) == 0
    }

    pub fn clear(&mut self)
        ensures
            final(self)@ == Seq::<ParetoLabel>::empty(),
    {
        labels_clear(&mut self.0)
    }

    /// The labels of the front, in order.
    pub fn iter(&self) -> (v: Vec<ParetoLabel>)
        ensures
            v@ == self@,
    {
        let n = labels_len(&self.0);
        let mut v: Vec<ParetoLabel> = Vec::new();
        let mut i: usize = 0;
        while i < n
            invariant
                n == self@.len(),
                i <= n,
                v@ == self@.subrange(0, i as int),
            decreases n - i,
        {
            v.push(labels_get(&self.0, i));
            i += 1;
        }
        proof {
            assert(self@.subrange(0, n as int) =~= self@);
        }
        v
    }
}

} // verus!
