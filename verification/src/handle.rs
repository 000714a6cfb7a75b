use vstd::prelude::*;
use crate::errors::EngineError;
use crate::frontier::Frontier;
use crate::stream::Stream;
use crate::value::{Event, EventModel, Record, events_model};

verus! {

/// The caller-facing ingestion point: it buffers records tagged with the
/// round they were sent at and owns the frontier whose advancement is the
/// only way downstream operators learn that a round is complete. Once the
/// handle advances past round `t`, no further record at a round `<= t`
/// can enter through it.
pub struct InputHandle {
    pub frontier: Frontier,
    pub events: Vec<Event>,
    /// How many buffered events the driver has already drained downstream.
    pub taken: usize,
    /// The frontier's lower bound as of the last drain.
    pub low_mark: Ghost<u64>,
}

impl InputHandle {
    /// The model of everything accepted so far, in arrival order.
    pub open spec fn evs(self) -> Seq<EventModel> {
        events_model(self.events@)
    }

    /// Well-formedness: the drain cursor is in range, the low mark never
    /// outruns the frontier, and every event not yet drained arrived at
    /// or after the round the frontier stood at when the driver last
    /// drained — so a drained batch is never late for a downstream
    /// operator whose frontier trails this handle's.
    pub open spec fn wf(self) -> bool {
        &&& self.taken <= self.events@.len()
        &&& self.low_mark@ <= self.frontier.lower
        &&& forall|j: int|
            self.taken <= j < self.events@.len() ==> (#[trigger] self.events@[j]).0
                >= self.low_mark@
    }

    /// A fresh handle: nothing buffered, every round still open.
    pub fn new() -> (r: InputHandle)
        ensures
            r.wf(),
            r.evs() == Seq::<EventModel>::empty(),
            r.frontier == (Frontier { lower: 0, open: true }),
            r.taken == 0,
    {
        let r = InputHandle {
            frontier: Frontier::new(),
            events: Vec::new(),
            taken: 0,
            low_mark: Ghost(0),
        };
        proof {
            assert(r.evs() =~= Seq::<EventModel>::empty());
        }
        r
    }

    /// Append `(time, rec)` to the handle's buffered output. Fails with
    /// `HandleClosed` on a torn-down handle and with
    /// `TimestampOrderViolation` when `time` lies below the frontier's
    /// current lower bound; on failure nothing changes.
    pub fn send(&mut self, rec: Record, time: u64) -> (r: Result<(), EngineError>)
        requires
            old(self).wf(),
        ensures
            final(self).wf(),
            match r {
                Ok(()) => {
                    &&& old(self).frontier.open
                    &&& time >= old(self).frontier.lower
                    &&& final(self).evs() == old(self).evs().push((time, rec@))
                    &&& final(self).frontier == old(self).frontier
                    &&& final(self).taken == old(self).taken
                },
                Err(e) => {
                    &&& *final(self) == *old(self)
                    &&& (e == EngineError::HandleClosed <==> !old(self).frontier.open)
                    &&& (e == EngineError::TimestampOrderViolation <==> (old(self).frontier.open
                        && time < old(self).frontier.lower))
                },
            },
    {
        if !self.frontier.open {
            Err(EngineError::HandleClosed)
        } else if time < self.frontier.lower {
            Err(EngineError::TimestampOrderViolation)
        } else {
            let ghost pre = self.events@;
            self.events.push((time, rec));
            proof {
                assert(self.evs() =~= events_model(pre).push((time, rec@)));
            }
            Ok(())
        }
    }

    /// Raise the frontier so that every round strictly below `time` is
    /// closed. Fails with `HandleClosed` on a torn-down handle and with
    /// `FrontierRegression` when the new bound is not strictly greater
    /// than the current one; on failure nothing changes.
    pub fn advance_to(&mut self, time: u64) -> (r: Result<(), EngineError>)
        requires
            old(self).wf(),
        ensures
            final(self).wf(),
            final(self).evs() == old(self).evs(),
            final(self).taken == old(self).taken,
            old(self).frontier.le(final(self).frontier),
            match r {
                Ok(()) => {
                    &&& old(self).frontier.open
                    &&& time > old(self).frontier.lower
                    &&& final(self).frontier == (Frontier { lower: time, open: true })
                },
                Err(e) => {
                    &&& *final(self) == *old(self)
                    &&& (e == EngineError::HandleClosed <==> !old(self).frontier.open)
                    &&& (e == EngineError::FrontierRegression <==> (old(self).frontier.open
                        && time <= old(self).frontier.lower))
                },
            },
    {
        if !self.frontier.open {
            Err(EngineError::HandleClosed)
        } else if time <= self.frontier.lower {
            Err(EngineError::FrontierRegression)
        } else {
            let _ = self.frontier.advance_to(time);
            Ok(())
        }
    }

    /// Tear the handle down: its frontier empties, so every round is
    /// closed and any further operation on it fails.
    pub fn close(&mut self)
        requires
            old(self).wf(),
        ensures
            final(self).wf(),
            final(self).evs() == old(self).evs(),
            final(self).taken == old(self).taken,
            final(self).frontier.is_empty(),
            old(self).frontier.le(final(self).frontier),
    {
        self.frontier.close();
    }

    /// Drain the events accepted since the last drain, in arrival order.
    /// Every drained event's round is at or above the round the frontier
    /// stood at when the previous drain happened.
    pub fn take_pending(&mut self) -> (r: Vec<Event>)
        requires
            old(self).wf(),
        ensures
            final(self).wf(),
            events_model(r@) == old(self).evs().skip(old(self).taken as int),
            forall|j: int| 0 <= j < r@.len() ==> (#[trigger] r@[j]).0 >= old(self).low_mark@,
            final(self).evs() == old(self).evs(),
            final(self).frontier == old(self).frontier,
            final(self).taken == final(self).events@.len(),
            final(self).low_mark@ == final(self).frontier.lower,
    {
        let mut r: Vec<Event> = Vec::new();
        let mut i: usize = self.taken;
        while i < self.events.len()
            invariant
                old(self).taken <= i <= self.events@.len(),
                *self == *old(self),
                old(self).wf(),
                r@.len() == i - old(self).taken,
                forall|j: int|
                    0 <= j < r@.len() ==> (#[trigger] r@[j]).0 == self.events@[j
                        + old(self).taken].0 && r@[j].1@ == self.events@[j + old(self).taken].1@,
            decreases self.events@.len() - i,
        {
            let e = &self.events[i];
            r.push((e.0, e.1.dup()));
            i = i + 1;
        }
        self.taken = self.events.len();
        proof {
            self.low_mark@ = self.frontier.lower;
        }
        proof {
            let tail = old(self).evs().skip(old(self).taken as int);
            assert forall|j: int| 0 <= j < r@.len() implies events_model(r@)[j] == tail[j] by {
                assert(r@[j].0 == old(self).events@[j + old(self).taken].0);
                assert(r@[j].1@ == old(self).events@[j + old(self).taken].1@);
            }
            assert(events_model(r@) =~= tail);
            assert forall|j: int| 0 <= j < r@.len() implies (#[trigger] r@[j]).0 >= old(
                self,
            ).low_mark@ by {
                assert(old(self).events@[j + old(self).taken].0 >= old(self).low_mark@);
            }
        }
        r
    }

    /// The handle's buffered output as a stream: all accepted events and
    /// the handle's own frontier.
    pub fn output_stream(&self) -> (s: Stream)
        ensures
            s.evs() == self.evs(),
            s.frontier == self.frontier,
    {
        let mut out: Vec<Event> = Vec::new();
        let mut i: usize = 0;
        while i < self.events.len()
            invariant
                i <= self.events@.len(),
                out@.len() == i,
                forall|j: int|
                    0 <= j < i ==> (#[trigger] out@[j]).0 == self.events@[j].0 && out@[j].1@
                        == self.events@[j].1@,
            decreases self.events@.len() - i,
        {
            let e = &self.events[i];
            out.push((e.0, e.1.dup()));
            i = i + 1;
        }
        proof {
            assert forall|j: int| 0 <= j < out@.len() implies events_model(out@)[j] == self.evs()[j]
            by {
                assert(out@[j].0 == self.events@[j].0 && out@[j].1@ == self.events@[j].1@);
            }
            assert(events_model(out@) =~= self.evs());
        }
        Stream { events: out, frontier: self.frontier }
    }
}

} // verus!
