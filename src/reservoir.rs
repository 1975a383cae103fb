//! Bounded-memory streaming sampling of one time series.
//!
//! A `StageReservoir` is owned by the writer alone. It keeps at most
//! `capacity` of the points offered to it: the newest point always, and in
//! the other `capacity - 1` slots a uniform sample (Algorithm R) of every
//! point that is no longer the newest. Its slots are kept in ascending order
//! of step, the newest last. A commit publishes the slots into a `Basin`,
//! which readers see.

use vstd::prelude::*;
use crate::types::Step;

verus! {

/// Steps strictly ascending along the sequence.
pub open spec fn strictly_ascending<T>(s: Seq<(Step, T)>) -> bool {
    forall|i: int, j: int| 0 <= i < j < s.len() ==> s[i].0.0 < s[j].0.0
}

/// What one offer does to the slots. `seen` counts the earlier offers. While
/// fewer than `cap` points have been seen, the point is appended. After that
/// the previous newest point is itself sampled: with a draw in `1..=seen` it
/// replaces the non-newest slot `draw` if there is one (`draw < cap`), and is
/// dropped otherwise. Either way the new point becomes the newest slot.
pub open spec fn offered<T>(s: Seq<(Step, T)>, cap: nat, seen: nat, item: (Step, T), draw: int) -> Seq<(Step, T)> {
    if seen < cap {
        s.push(item)
    } else if draw < cap {
        s.remove(draw - 1).push(item)
    } else {
        s.drop_last().push(item)
    }
}

/// Draws valid for a stream: from the point on which the reservoir is full,
/// the draw made for the `k`-th offer (counting from zero) lies in `1..=k`.
pub open spec fn valid_draws(cap: nat, n: nat, draws: Seq<int>) -> bool {
    &&& draws.len() >= n
    &&& forall|k: int| cap <= k < n ==> 1 <= #[trigger] draws[k] <= k
}

/// The slots after offering `items` in order to an empty reservoir of
/// capacity `cap`, the `k`-th offer drawing `draws[k]`.
pub open spec fn sampled<T>(cap: nat, items: Seq<(Step, T)>, draws: Seq<int>) -> Seq<(Step, T)>
    decreases items.len(),
{
    if items.len() == 0 {
        Seq::empty()
    } else {
        let k = (items.len() - 1) as nat;
        offered(sampled(cap, items.drop_last(), draws), cap, k, items.last(), draws[k as int])
    }
}

/// Writer-private sampling state of one time series.
pub struct StageReservoir<T> {
    staged: Vec<(Step, T)>,
    capacity: usize,
    seen: u64,
    offered: Ghost<Seq<(Step, T)>>,
    drawn: Ghost<Seq<int>>,
}

impl<T> StageReservoir<T> {
    /// The occupied slots, in ascending order of step.
    pub closed spec fn slots(&self) -> Seq<(Step, T)> {
        self.staged@
    }

    /// Most points that the reservoir keeps.
    pub closed spec fn cap(&self) -> nat {
        self.capacity as nat
    }

    /// How many points have been offered so far.
    pub closed spec fn seen(&self) -> nat {
        self.seen as nat
    }

    /// Every point offered so far, in order.
    pub closed spec fn history(&self) -> Seq<(Step, T)> {
        self.offered@
    }

    /// The draw made for each offer so far (meaningful once full).
    pub closed spec fn draws(&self) -> Seq<int> {
        self.drawn@
    }

    /// The slots are what sampling the history with the recorded draws
    /// leaves: `min(seen, cap)` points in ascending order of step,
    /// and capacity is positive.
    pub closed spec fn wf(&self) -> bool {
        &&& self.capacity >= 1
        &&& self.staged@.len() <= self.capacity
        &&& self.staged@.len() == if self.seen <= self.capacity { self.seen as int } else { self.capacity as int }
        &&& strictly_ascending(self.staged@)
        &&& self.offered@.len() == self.seen
        &&& strictly_ascending(self.offered@)
        &&& valid_draws(self.capacity as nat, self.seen as nat, self.drawn@)
        &&& self.drawn@.len() == self.seen
        &&& self.staged@ == sampled(self.capacity as nat, self.offered@, self.drawn@)
    }

    /// What a well-formed reservoir holds: the sample of its history.
    pub proof fn lemma_wf(&self)
        requires
            self.wf(),
        ensures
            self.cap() >= 1,
            self.history().len() == self.seen(),
            strictly_ascending(self.history()),
            valid_draws(self.cap(), self.seen(), self.draws()),
            self.slots() == sampled(self.cap(), self.history(), self.draws()),
            self.slots().len() == if self.seen() <= self.cap() { self.seen() } else { self.cap() },
            strictly_ascending(self.slots()),
    {
    }

    /// Whether `step` may be offered next: it is greater than every step
    /// offered so far, which is the step of the newest slot.
    pub open spec fn may_offer(&self, step: Step) -> bool {
        self.slots().len() == 0 || self.slots().last().0.0 < step.0
    }

    /// Creates an empty reservoir that keeps at most `capacity` points.
    pub fn new(capacity: usize) -> (r: Self)
        requires
            capacity >= 1,
        ensures
            r.wf(),
            r.slots() == Seq::<(Step, T)>::empty(),
            r.cap() == capacity,
            r.seen() == 0,
            r.history() == Seq::<(Step, T)>::empty(),
            r.draws() == Seq::<int>::empty(),
    {
        StageReservoir { staged: Vec::new(), capacity, seen: 0, offered: Ghost(Seq::empty()), drawn: Ghost(Seq::empty()) }
    }

    /// Most points that the reservoir keeps.
    pub fn capacity(&self) -> (r: usize)
        ensures
            r == self.cap(),
    {
        self.capacity
    }

    /// How many points have been offered so far.
    pub fn offers(&self) -> (r: u64)
        ensures
            r == self.seen(),
    {
        self.seen
    }

    /// How many slots are occupied.
    pub fn len(&self) -> (r: usize)
        ensures
            r == self.slots().len(),
    {
        self.staged.len()
    }

    /// Step of the newest point offered so far, if any; a point may be
    /// offered next only with a greater step.
    pub fn latest_step(&self) -> (r: Option<Step>)
        requires
            self.wf(),
        ensures
            r.is_none() <==> self.slots().len() == 0,
            r.is_some() ==> r.unwrap() == self.slots().last().0,
    {
        let n = self.staged.len();
        if n == 0 {
            None
        } else {
            Some(self.staged[n - 1].0)
        }
    }

    /// Offers a point with the draw already made: `draw` must lie in
    /// `1..=seen` once the reservoir is full, and is ignored before that.
    pub fn offer_with_draw(&mut self, step: Step, payload: T, draw: u64)
        requires
            old(self).wf(),
            old(self).may_offer(step),
            old(self).seen() < u64::MAX,
            old(self).seen() >= old(self).cap() ==> 1 <= draw <= old(self).seen(),
        ensures
            final(self).wf(),
            final(self).cap() == old(self).cap(),
            final(self).seen() == old(self).seen() + 1,
            final(self).slots() == offered(old(self).slots(), old(self).cap(), old(self).seen(), (step, payload), draw as int),
            final(self).history() == old(self).history().push((step, payload)),
            final(self).draws() == old(self).draws().push(draw as int),
            final(self).slots() == sampled(final(self).cap(), final(self).history(), final(self).draws()),
    {
        proof {
            lemma_sampled(self.capacity as nat, self.offered@, self.drawn@);
        }
        let ghost s0 = self.staged@;
        let ghost item = (step, payload);
        if self.seen < self.capacity as u64 {
            self.staged.push((step, payload));
        } else {
            if draw < self.capacity as u64 {
                self.staged.remove((draw - 1) as usize);
                assert(self.staged@ =~= s0.remove(draw - 1));
            } else {
                self.staged.pop();
                assert(self.staged@ =~= s0.drop_last());
            }
            self.staged.push((step, payload));
        }
        self.seen = self.seen + 1;
        let ghost h0 = self.offered@;
        let ghost d0 = self.drawn@;
        self.offered = Ghost(h0.push(item));
        self.drawn = Ghost(d0.push(draw as int));
        proof {
            lemma_offered_ascending(s0, self.capacity as nat, (self.seen - 1) as nat, item, draw as int);
            let h = self.offered@;
            assert(h.drop_last() =~= h0);
            assert forall|i: int, j: int| 0 <= i < j < h.len() implies h[i].0.0 < h[j].0.0 by {
                if j < h0.len() {
                    assert(h[i] == h0[i] && h[j] == h0[j]);
                } else if h0.len() > 0 {
                    assert(h[i] == h0[i]);
                    assert(h0[i].0.0 <= h0.last().0.0);
                }
            }
            lemma_sampled_draws_agree(self.capacity as nat, h0, d0, self.drawn@);
        }
    }

    /// Offers the next point of the stream. Once the reservoir is full, a
    /// uniform random draw decides which point leaves; the new point is
    /// always kept.
    pub fn offer(&mut self, step: Step, payload: T)
        requires
            old(self).wf(),
            old(self).may_offer(step),
            old(self).seen() < u64::MAX,
        ensures
            final(self).wf(),
            final(self).cap() == old(self).cap(),
            final(self).seen() == old(self).seen() + 1,
            final(self).history() == old(self).history().push((step, payload)),
            final(self).draws().drop_last() == old(self).draws(),
            final(self).slots() == sampled(final(self).cap(), final(self).history(), final(self).draws()),
            old(self).seen() < old(self).cap() ==> final(self).slots() == old(self).slots().push((step, payload)),
            old(self).seen() >= old(self).cap() ==> exists|d: int|
                1 <= d <= old(self).seen() && #[trigger] offered(old(self).slots(), old(self).cap(), old(self).seen(), (step, payload), d)
                    == final(self).slots(),
    {
        let ghost s0 = self.slots();
        let draw: u64 = if self.seen >= self.capacity as u64 {
            draw_index(self.seen)
        } else {
            1
        };
        self.offer_with_draw(step, payload, draw);
        assert(self.draws().drop_last() =~= old(self).draws());
        assert(offered(s0, self.cap(), old(self).seen(), (step, payload), draw as int) == self.slots());
    }

    /// Publishes the slots into `basin`, replacing its content: each slot's
    /// payload goes through `decode`, which runs on the kept slots alone.
    pub fn commit_map<U, F: Fn(Step, &T) -> U>(&self, basin: &mut Basin<U>, decode: F)
        requires
            self.wf(),
            forall|i: int| 0 <= i < self.slots().len() ==> decode.requires((self.slots()[i].0, &self.slots()[i].1)),
        ensures
            final(basin).entries().len() == self.slots().len(),
            strictly_ascending(final(basin).entries()),
            forall|i: int| 0 <= i < self.slots().len() ==> {
                &&& (#[trigger] final(basin).entries()[i]).0 == self.slots()[i].0
                &&& decode.ensures((self.slots()[i].0, &self.slots()[i].1), final(basin).entries()[i].1)
            },
    {
        let mut out: Vec<(Step, U)> = Vec::with_capacity(self.staged.len());
        let mut i: usize = 0;
        while i < self.staged.len()
            invariant
                self.wf(),
                i <= self.staged@.len(),
                out@.len() == i,
                forall|j: int| 0 <= j < self.slots().len() ==> decode.requires((self.slots()[j].0, &self.slots()[j].1)),
                forall|j: int| 0 <= j < i ==> {
                    &&& (#[trigger] out@[j]).0 == self.staged@[j].0
                    &&& decode.ensures((self.staged@[j].0, &self.staged@[j].1), out@[j].1)
                },
            decreases self.staged@.len() - i,
        {
            let step = self.staged[i].0;
            assert(self.slots()[i as int] == self.staged@[i as int]);
            let v = decode(step, &self.staged[i].1);
            out.push((step, v));
            i = i + 1;
        }
        *basin = Basin { entries: out };
    }
}

impl<T: Copy> StageReservoir<T> {
    /// Publishes the slots into `basin` as they are, replacing its content.
    pub fn commit(&self, basin: &mut Basin<T>)
        requires
            self.wf(),
        ensures
            final(basin).entries() == self.slots(),
    {
        let mut out: Vec<(Step, T)> = Vec::with_capacity(self.staged.len());
        let mut i: usize = 0;
        while i < self.staged.len()
            invariant
                self.wf(),
                i <= self.staged@.len(),
                out@ == self.staged@.subrange(0, i as int),
            decreases self.staged@.len() - i,
        {
            let entry = self.staged[i];
            out.push(entry);
            assert(out@ =~= self.staged@.subrange(0, i + 1));
            i = i + 1;
        }
        assert(out@ =~= self.staged@);
        *basin = Basin { entries: out };
    }
}

/// Relies on rand's `thread_rng` and `Rng::gen_range`: a value drawn from
/// the inclusive range `1..=n`, which is not empty.
#[verifier::external_body]
fn draw_index(n: u64) -> (r: u64)
    requires
        n >= 1,
    ensures
        1 <= r <= n,
{
    rand::Rng::gen_range(&mut rand::thread_rng(), 1..=n)
}

/// Read-optimised snapshot of a time series' sample, rebuilt wholesale by
/// each commit, its entries in strictly ascending order of step.
#[derive(Debug)]
pub struct Basin<T> {
    entries: Vec<(Step, T)>,
}

impl<T> Basin<T> {
    #[verifier::type_invariant]
    spec fn ascending(&self) -> bool {
        strictly_ascending(self.entries@)
    }

    /// The entries, in ascending order of step.
    pub closed spec fn entries(&self) -> Seq<(Step, T)> {
        self.entries@
    }

    /// Creates an empty basin.
    pub fn new() -> (r: Self)
        ensures
            r.entries() == Seq::<(Step, T)>::empty(),
    {
        Basin { entries: Vec::new() }
    }

    /// The entries, in ascending order of step.
    pub fn as_slice(&self) -> (r: &[(Step, T)])
        ensures
            r@ == self.entries(),
            strictly_ascending(r@),
    {
        proof {
            use_type_invariant(self);
        }
        self.entries.as_slice()
    }
}

/// One offer keeps the slots strictly ascending, given that the new step
/// exceeds the newest one, and never drops the point just offered.
pub proof fn lemma_offered_ascending<T>(s: Seq<(Step, T)>, cap: nat, seen: nat, item: (Step, T), draw: int)
    requires
        strictly_ascending(s),
        s.len() == 0 || s.last().0.0 < item.0.0,
        seen >= cap ==> 1 <= draw <= seen,
        seen >= cap ==> s.len() == cap,
        cap >= 1,
    ensures
        strictly_ascending(offered(s, cap, seen, item, draw)),
        offered(s, cap, seen, item, draw).last() == item,
        offered(s, cap, seen, item, draw).len() == if seen < cap { s.len() + 1 } else { s.len() + 0 },
{
    let r = offered(s, cap, seen, item, draw);
    let base = if seen < cap { s } else if draw < cap { s.remove(draw - 1) } else { s.drop_last() };
    assert(r == base.push(item));
    let rm = seen >= cap && draw < cap;
    assert forall|i: int, j: int| 0 <= i < j < r.len() implies r[i].0.0 < r[j].0.0 by {
        let ki = if rm && i >= draw - 1 { i + 1 } else { i };
        assert(base[i] == s[ki]);
        if j < base.len() {
            let kj = if rm && j >= draw - 1 { j + 1 } else { j };
            assert(base[j] == s[kj]);
        } else {
            assert(s[ki].0.0 <= s.last().0.0);
        }
    }
}

/// Offering a strictly ascending stream with valid draws keeps the slots
/// strictly ascending, `min(n, cap)` of them, the newest point last.
pub proof fn lemma_sampled<T>(cap: nat, items: Seq<(Step, T)>, draws: Seq<int>)
    requires
        cap >= 1,
        strictly_ascending(items),
        valid_draws(cap, items.len(), draws),
    ensures
        strictly_ascending(sampled(cap, items, draws)),
        sampled(cap, items, draws).len() == if items.len() <= cap { items.len() } else { cap },
        items.len() > 0 ==> sampled(cap, items, draws).last() == items.last(),
    decreases items.len(),
{
    if items.len() > 0 {
        let k = (items.len() - 1) as nat;
        let prev = items.drop_last();
        assert(strictly_ascending(prev));
        assert(valid_draws(cap, prev.len(), draws));
        lemma_sampled(cap, prev, draws);
        if prev.len() > 0 {
            assert(prev.last() == items[k - 1]);
        }
        lemma_offered_ascending(sampled(cap, prev, draws), cap, k, items.last(), draws[k as int]);
    }
}

/// While a stream is no longer than the capacity, every offered point is
/// kept, in the order offered, whatever was drawn.
pub proof fn law_short_stream_kept_whole<T>(cap: nat, items: Seq<(Step, T)>, draws: Seq<int>)
    requires
        items.len() <= cap,
        draws.len() >= items.len(),
    ensures
        sampled(cap, items, draws) == items,
    decreases items.len(),
{
    if items.len() > 0 {
        law_short_stream_kept_whole(cap, items.drop_last(), draws);
        assert(items.drop_last().push(items.last()) =~= items);
    }
}

/// Once a strictly ascending stream is longer than the capacity, exactly
/// `cap` points are kept, the newest among them, in strictly ascending order.
pub proof fn law_long_stream_full_with_newest<T>(cap: nat, items: Seq<(Step, T)>, draws: Seq<int>)
    requires
        cap >= 1,
        items.len() > cap,
        strictly_ascending(items),
        valid_draws(cap, items.len(), draws),
    ensures
        sampled(cap, items, draws).len() == cap,
        sampled(cap, items, draws).last() == items.last(),
        strictly_ascending(sampled(cap, items, draws)),
{
    lemma_sampled(cap, items, draws);
}

/// The sample of a stream depends on the draws made for its own offers
/// alone.
pub proof fn lemma_sampled_draws_agree<T>(cap: nat, items: Seq<(Step, T)>, d1: Seq<int>, d2: Seq<int>)
    requires
        d1.len() >= items.len(),
        d2.len() >= items.len(),
        forall|k: int| 0 <= k < items.len() ==> d1[k] == d2[k],
    ensures
        sampled(cap, items, d1) == sampled(cap, items, d2),
    decreases items.len(),
{
    if items.len() > 0 {
        lemma_sampled_draws_agree(cap, items.drop_last(), d1, d2);
    }
}

/// A reservoir offered no more points than its capacity holds every one of
/// them, in the order offered.
pub proof fn law_reservoir_keeps_short_history<T>(r: &StageReservoir<T>)
    requires
        r.wf(),
        r.seen() <= r.cap(),
    ensures
        r.slots() == r.history(),
{
    r.lemma_wf();
    law_short_stream_kept_whole(r.cap(), r.history(), r.draws());
}

/// A reservoir offered more points than its capacity holds exactly `cap` of
/// them, strictly ascending, the newest offered last.
pub proof fn law_reservoir_full_keeps_newest<T>(r: &StageReservoir<T>)
    requires
        r.wf(),
        r.seen() > r.cap(),
    ensures
        r.slots().len() == r.cap(),
        r.slots().last() == r.history().last(),
        strictly_ascending(r.slots()),
{
    r.lemma_wf();
    law_long_stream_full_with_newest(r.cap(), r.history(), r.draws());
}

} // verus!
