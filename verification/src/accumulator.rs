use vstd::prelude::*;
use crate::strutil::{vec_contains_string, views_of};

verus! {

/// `s` extended by `x` unless `x` is already buffered: one `add` step.
pub open spec fn push_distinct(s: Seq<Seq<char>>, x: Seq<char>) -> Seq<Seq<char>> {
    if s.contains(x) {
        s
    } else {
        s.push(x)
    }
}

/// The distinct paths of `calls`, in first-add order.
pub open spec fn first_adds(calls: Seq<Seq<char>>) -> Seq<Seq<char>>
    decreases calls.len(),
{
    if calls.len() == 0 {
        Seq::empty()
    } else {
        push_distinct(first_adds(calls.drop_last()), calls.last())
    }
}

/// Whether a flush is due: something is pending and the last accepted
/// event is longer ago than the delay.
pub open spec fn ready_at(pending: Seq<Seq<char>>, last_event: u64, delay: u64, now: u64) -> bool {
    pending.len() > 0 && now - last_event > delay
}

/// Buffers the distinct candidate paths observed since the last flush,
/// together with the time of the most recent accepted event.  The batch
/// is flushed only once a full quiet period has passed.
pub struct EventAccumulator {
    pending: Vec<String>,
    last_event_time: u64,
}

impl EventAccumulator {
    /// The buffered paths, in the order first added.
    pub closed spec fn pending_view(&self) -> Seq<Seq<char>> {
        views_of(self.pending@)
    }

    /// The time of the most recent accepted event.
    pub closed spec fn last_event(&self) -> u64 {
        self.last_event_time
    }

    /// The buffer never holds a path twice.
    pub closed spec fn wf(&self) -> bool {
        self.pending_view().no_duplicates()
    }

    /// Creates an empty accumulator.
    pub fn new() -> (r: Self)
        ensures
            r.wf(),
            r.pending_view() == Seq::<Seq<char>>::empty(),
            r.last_event() == 0,
    {
        let r = EventAccumulator { pending: Vec::new(), last_event_time: 0 };
        proof {
            assert(r.pending_view() =~= Seq::<Seq<char>>::empty());
        }
        r
    }

    /// Appends `path` to the batch unless already present, and marks
    /// `now` as the time of the most recent accepted event.
    pub fn add(&mut self, path: &String, now: u64)
        requires
            old(self).wf(),
        ensures
            final(self).wf(),
            final(self).pending_view() == push_distinct(old(self).pending_view(), path@),
            final(self).last_event() == now,
    {
        if !vec_contains_string(&self.pending, path) {
            let ghost v0 = self.pending_view();
            self.pending.push(path.clone());
            proof {
                assert(self.pending_view() =~= v0.push(path@));
                assert forall|i: int, j: int|
                    0 <= i < self.pending_view().len() && 0 <= j < self.pending_view().len() && i
                        != j implies self.pending_view()[i] != self.pending_view()[j] by {
                    if i < v0.len() && j < v0.len() {
                        assert(v0.no_duplicates());
                    }
                }
            }
        }
        self.last_event_time = now;
    }

    /// Whether the batch is due for a flush at time `now`.
    pub fn ready(&self, delay_millis: u64, now: u64) -> (r: bool)
        ensures
            r == ready_at(self.pending_view(), self.last_event(), delay_millis, now),
    {
        if self.pending.len() == 0 {
            return false;
        }
        now >= self.last_event_time && now - self.last_event_time > delay_millis
    }

    /// Returns the buffered paths in first-add order and clears the batch.
    pub fn drain_all(&mut self) -> (r: Vec<String>)
        requires
            old(self).wf(),
        ensures
            final(self).wf(),
            views_of(r@) == old(self).pending_view(),
            final(self).pending_view() == Seq::<Seq<char>>::empty(),
            final(self).last_event() == old(self).last_event(),
    {
        let r = self.pending.split_off(0);
        proof {
            assert(views_of(r@) =~= old(self).pending_view());
            assert(self.pending_view() =~= Seq::<Seq<char>>::empty());
        }
        r
    }
}

/// Law: while events keep arriving no more than the delay apart, the
/// accumulator is never ready; readiness needs a full quiet period after
/// the last accepted event.
pub proof fn lemma_quiet_period(pending: Seq<Seq<char>>, last_event: u64, delay: u64, now: u64)
    requires
        now - last_event <= delay,
    ensures
        !ready_at(pending, last_event, delay, now),
{
}

/// Law: after any sequence of `add` calls the buffer holds each distinct
/// added path exactly once, and nothing else.
pub proof fn lemma_first_add_once(calls: Seq<Seq<char>>)
    ensures
        first_adds(calls).no_duplicates(),
        forall|p: Seq<char>| first_adds(calls).contains(p) <==> calls.contains(p),
    decreases calls.len(),
{
    if calls.len() > 0 {
        lemma_first_add_once(calls.drop_last());
        let fa = first_adds(calls);
        let fad = first_adds(calls.drop_last());
        assert forall|p: Seq<char>| calls.contains(p) implies fa.contains(p) by {
            let i = choose|i: int| 0 <= i < calls.len() && calls[i] == p;
            if i < calls.len() - 1 {
                assert(calls.drop_last()[i] == p);
                assert(calls.drop_last().contains(p));
                assert(fad.contains(p));
                if !fad.contains(calls.last()) {
                    let j = choose|j: int| 0 <= j < fad.len() && fad[j] == p;
                    assert(fa[j] == p);
                }
            } else {
                if fad.contains(p) {
                    let j = choose|j: int| 0 <= j < fad.len() && fad[j] == p;
                    assert(fa[j] == p);
                } else {
                    assert(fa.last() == p);
                }
            }
        }
        assert forall|p: Seq<char>| fa.contains(p) implies calls.contains(p) by {
            let j = choose|j: int| 0 <= j < fa.len() && fa[j] == p;
            if j < fad.len() {
                assert(fad[j] == p);
                assert(calls.drop_last().contains(p));
                let i = choose|i: int| 0 <= i < calls.drop_last().len() && calls.drop_last()[i] == p;
                assert(calls[i] == p);
            } else {
                assert(calls.last() == p);
                assert(calls[calls.len() - 1] == p);
            }
        }
    }
}

/// Law: paths already buffered keep their positions as later adds
/// arrive; a flush therefore returns them in first-add order.
pub proof fn lemma_first_add_order(calls: Seq<Seq<char>>, more: Seq<Seq<char>>)
    ensures
        first_adds(calls).len() <= first_adds(calls + more).len(),
        first_adds(calls + more).take(first_adds(calls).len() as int) == first_adds(calls),
    decreases more.len(),
{
    if more.len() == 0 {
        assert(calls + more =~= calls);
        assert(first_adds(calls).take(first_adds(calls).len() as int) =~= first_adds(calls));
    } else {
        lemma_first_add_order(calls, more.drop_last());
        let prev = calls + more.drop_last();
        assert((calls + more).drop_last() =~= prev);
        let fap = first_adds(prev);
        let fa = first_adds(calls + more);
        let k = first_adds(calls).len() as int;
        if !fap.contains((calls + more).last()) {
            assert(fap.push((calls + more).last()).take(k) =~= fap.take(k));
        }
        assert(fa.take(k) == first_adds(calls));
    }
}

} // verus!
