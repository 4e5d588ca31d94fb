use vstd::prelude::*;
use crate::accumulator::{push_distinct, ready_at, EventAccumulator};
use crate::debounce::{accept_allows, accept_next, RecentlyProcessed};
use crate::strutil::views_of;

verus! {

/// The quiet period after the last accepted event before a pending
/// batch is flushed, in milliseconds.
pub const DELAY_DURATION_MILLIS: u64 = 10_000;

/// What one raw notification leads to.
#[derive(Clone, Copy, Debug, PartialEq, Eq, Structural)]
pub enum NotificationOutcome {
    /// The configuration file itself changed: reload and reconcile.
    ConfigChange,
    /// A data path passed the debounce filter and joined the batch.
    Accepted,
    /// A data path was seen again within the debounce window.
    Suppressed,
}

/// The state the control loop keeps between raw notifications: the
/// debounce filter, the accumulating batch, and the path of the
/// configuration file whose own changes trigger a reload instead of
/// routing.  The loop is `Idle` while no batch is pending and
/// `Accumulating` otherwise.
pub struct RouterLoop {
    pub debounce: RecentlyProcessed,
    pub accumulator: EventAccumulator,
    pub config_path: String,
}

impl RouterLoop {
    pub open spec fn wf(&self) -> bool {
        self.debounce.wf() && self.accumulator.wf()
    }

    /// Whether a batch is pending: the `Accumulating` state.
    pub open spec fn accumulating(&self) -> bool {
        self.accumulator.pending_view().len() > 0
    }

    /// Creates an idle loop state watching for changes of `config_path`.
    pub fn new(config_path: String) -> (r: Self)
        ensures
            r.wf(),
            !r.accumulating(),
            r.config_path@ == config_path@,
            r.debounce@ == Map::<Seq<char>, u64>::empty(),
            r.accumulator.pending_view() == Seq::<Seq<char>>::empty(),
    {
        RouterLoop {
            debounce: RecentlyProcessed::new(),
            accumulator: EventAccumulator::new(),
            config_path,
        }
    }

    /// Handles one raw notification arriving at time `now`.  A
    /// notification for the configuration file touches no routing
    /// state; any other path runs through the debounce filter and, if
    /// accepted, joins the batch.
    pub fn on_notification(&mut self, path: &String, now: u64) -> (o: NotificationOutcome)
        requires
            old(self).wf(),
        ensures
            final(self).wf(),
            final(self).config_path@ == old(self).config_path@,
            path@ == old(self).config_path@ ==> ({
                &&& o == NotificationOutcome::ConfigChange
                &&& final(self).debounce@ == old(self).debounce@
                &&& final(self).accumulator.pending_view() == old(self).accumulator.pending_view()
                &&& final(self).accumulator.last_event() == old(self).accumulator.last_event()
            }),
            path@ != old(self).config_path@ ==> ({
                let allowed = accept_allows(old(self).debounce@, path@, now);
                &&& o == (if allowed {
                    NotificationOutcome::Accepted
                } else {
                    NotificationOutcome::Suppressed
                })
                &&& final(self).debounce@ == accept_next(old(self).debounce@, path@, now)
                &&& final(self).accumulator.pending_view() == (if allowed {
                    push_distinct(old(self).accumulator.pending_view(), path@)
                } else {
                    old(self).accumulator.pending_view()
                })
                &&& final(self).accumulator.last_event() == (if allowed {
                    now
                } else {
                    old(self).accumulator.last_event()
                })
            }),
    {
        if path.eq(&self.config_path) {
            return NotificationOutcome::ConfigChange;
        }
        let allowed = self.debounce.accept(path.as_str(), now);
        if allowed {
            self.accumulator.add(path, now);
            NotificationOutcome::Accepted
        } else {
            NotificationOutcome::Suppressed
        }
    }

    /// At time `now`, drains the batch if a full quiet period has
    /// passed since the last accepted event: the flushed paths come
    /// back in first-observed order and the loop returns to `Idle`.
    /// Otherwise nothing changes.
    pub fn take_ready_batch(&mut self, delay_millis: u64, now: u64) -> (r: Option<Vec<String>>)
        requires
            old(self).wf(),
        ensures
            final(self).wf(),
            final(self).config_path@ == old(self).config_path@,
            final(self).debounce@ == old(self).debounce@,
            r is Some <==> ready_at(
                old(self).accumulator.pending_view(),
                old(self).accumulator.last_event(),
                delay_millis,
                now,
            ),
            r matches Some(batch) ==> views_of(batch@) == old(self).accumulator.pending_view()
                && !final(self).accumulating(),
            r is None ==> ({
                &&& final(self).accumulator.pending_view() == old(self).accumulator.pending_view()
                &&& final(self).accumulator.last_event() == old(self).accumulator.last_event()
            }),
    {
        if self.accumulator.ready(delay_millis, now) {
            Some(self.accumulator.drain_all())
        } else {
            None
        }
    }
}

} // verus!
