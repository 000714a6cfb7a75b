use vstd::prelude::*;
use crate::errors::EngineError;
use crate::frontier::Frontier;
use crate::join::{Entry, EntryModel, JoinOp, all_bounded, bounded_mult, entries_model, join_bag,
    MULT_BOUND};
use crate::value::Val;

verus! {

/// The insert/retract front end of a collection: updates entered here
/// carry the session's current round, `+1` multiplicity for an
/// insertion and `-1` for a retraction. The session's frontier is its
/// current round; advancing it closes the rounds below.
pub struct InputSession {
    pub time: u64,
    pub active: bool,
    pub updates: Vec<Entry>,
}

impl InputSession {
    /// The model of the collection built so far: its updates in entry
    /// order.
    pub open spec fn coll(self) -> Seq<EntryModel> {
        entries_model(self.updates@)
    }

    /// Every update entered through a session is a unit change.
    pub open spec fn wf(self) -> bool {
        forall|i: int|
            0 <= i < self.coll().len() ==> ((#[trigger] self.coll()[i]).mult == 1
                || self.coll()[i].mult == -1)
    }

    /// A fresh session at round zero with an empty collection.
    pub fn new() -> (r: InputSession)
        ensures
            r.wf(),
            r.coll() == Seq::<EntryModel>::empty(),
            r.time == 0,
            r.active,
    {
        let r = InputSession { time: 0, active: true, updates: Vec::new() };
        proof {
            assert(r.coll() =~= Seq::<EntryModel>::empty());
        }
        r
    }

    /// Register multiplicity `+1` for `(key, val)` at the current round.
    /// Fails with `HandleClosed` on a torn-down session.
    pub fn insert(&mut self, key: u64, val: Val) -> (r: Result<(), EngineError>)
        requires
            old(self).wf(),
        ensures
            final(self).wf(),
            final(self).time == old(self).time,
            final(self).active == old(self).active,
            match r {
                Ok(()) => {
                    &&& old(self).active
                    &&& final(self).coll() == old(self).coll().push(
                        EntryModel { key, val: val@, mult: 1, time: old(self).time },
                    )
                },
                Err(e) => {
                    &&& e == EngineError::HandleClosed
                    &&& !old(self).active
                    &&& *final(self) == *old(self)
                },
            },
    {
        if !self.active {
            return Err(EngineError::HandleClosed);
        }
        let ghost pre = self.coll();
        self.updates.push(Entry { key, val, mult: 1, time: self.time });
        proof {
            assert(self.coll() =~= pre.push(
                EntryModel { key, val: val@, mult: 1, time: self.time },
            ));
        }
        Ok(())
    }

    /// Register multiplicity `-1` for `(key, val)` at the current round.
    /// Fails with `HandleClosed` on a torn-down session.
    pub fn retract(&mut self, key: u64, val: Val) -> (r: Result<(), EngineError>)
        requires
            old(self).wf(),
        ensures
            final(self).wf(),
            final(self).time == old(self).time,
            final(self).active == old(self).active,
            match r {
                Ok(()) => {
                    &&& old(self).active
                    &&& final(self).coll() == old(self).coll().push(
                        EntryModel { key, val: val@, mult: -1, time: old(self).time },
                    )
                },
                Err(e) => {
                    &&& e == EngineError::HandleClosed
                    &&& !old(self).active
                    &&& *final(self) == *old(self)
                },
            },
    {
        if !self.active {
            return Err(EngineError::HandleClosed);
        }
        let ghost pre = self.coll();
        self.updates.push(Entry { key, val, mult: -1, time: self.time });
        proof {
            assert(self.coll() =~= pre.push(
                EntryModel { key, val: val@, mult: -1, time: self.time },
            ));
        }
        Ok(())
    }

    /// Move the session to round `time`; further updates carry the new
    /// round. Fails with `FrontierRegression` when `time` is not
    /// strictly greater than the current round, and with `HandleClosed`
    /// on a torn-down session.
    pub fn advance_to(&mut self, time: u64) -> (r: Result<(), EngineError>)
        requires
            old(self).wf(),
        ensures
            final(self).wf(),
            final(self).coll() == old(self).coll(),
            match r {
                Ok(()) => {
                    &&& old(self).active
                    &&& time > old(self).time
                    &&& final(self).time == time
                    &&& final(self).active
                },
                Err(e) => {
                    &&& *final(self) == *old(self)
                    &&& (e == EngineError::HandleClosed <==> !old(self).active)
                    &&& (e == EngineError::FrontierRegression <==> (old(self).active && time
                        <= old(self).time))
                },
            },
    {
        if !self.active {
            Err(EngineError::HandleClosed)
        } else if time <= self.time {
            Err(EngineError::FrontierRegression)
        } else {
            self.time = time;
            Ok(())
        }
    }

    /// Tear the session down: every further operation on it fails.
    pub fn close(&mut self)
        requires
            old(self).wf(),
        ensures
            final(self).wf(),
            final(self).coll() == old(self).coll(),
            final(self).time == old(self).time,
            !final(self).active,
    {
        self.active = false;
    }

    /// The session's frontier: its current round is the lowest that may
    /// still receive updates; a torn-down session's frontier is empty.
    pub fn frontier(&self) -> (r: Frontier)
        ensures
            r == (Frontier { lower: self.time, open: self.active }),
    {
        Frontier { lower: self.time, open: self.active }
    }
}

/// Check at run time that every update's multiplicity is small enough
/// to enter a join: chained joins multiply multiplicities, so a caller
/// feeding one join's output into another tests it here first.
pub fn within_mult_bound(entries: &Vec<Entry>) -> (r: bool)
    ensures
        r == all_bounded(entries_model(entries@)),
{
    let mut i: usize = 0;
    while i < entries.len()
        invariant
            i <= entries@.len(),
            forall|j: int| 0 <= j < i ==> bounded_mult((#[trigger] entries_model(entries@)[j]).mult),
        decreases entries@.len() - i,
    {
        let e = &entries[i];
        if e.mult > MULT_BOUND || e.mult < -MULT_BOUND {
            proof {
                assert(!bounded_mult(entries_model(entries@)[i as int].mult));
            }
            return false;
        }
        proof {
            assert(bounded_mult(entries_model(entries@)[i as int].mult));
        }
        i = i + 1;
    }
    true
}

/// The two-way equi-join of two collections: for every pair of
/// same-keyed updates, one on each side, exactly one output update with
/// the pair of the two values, the product of the two multiplicities,
/// and the later of the two rounds. Feeding one side first and the
/// other second, update by update, the incremental engine emits exactly
/// that multiset.
pub fn join_collections(a: &Vec<Entry>, b: &Vec<Entry>) -> (out: Vec<Entry>)
    requires
        all_bounded(entries_model(a@)),
        all_bounded(entries_model(b@)),
    ensures
        entries_model(out@).to_multiset() == join_bag(entries_model(a@), entries_model(b@)),
{
    let mut op = JoinOp::new();
    let mut i: usize = 0;
    while i < a.len()
        invariant
            all_bounded(entries_model(a@)),
            all_bounded(entries_model(b@)),
            i <= a@.len(),
            op.wf(),
            op.lefts() == entries_model(a@).take(i as int),
            op.rights() == Seq::<EntryModel>::empty(),
        decreases a@.len() - i,
    {
        proof {
            assert(bounded_mult(entries_model(a@)[i as int].mult));
        }
        op.push_left(a[i].dup());
        proof {
            assert(entries_model(a@).take(i + 1).drop_last() =~= entries_model(a@).take(i as int));
            assert(op.lefts() =~= entries_model(a@).take(i + 1));
        }
        i = i + 1;
    }
    proof {
        assert(entries_model(a@).take(a@.len() as int) =~= entries_model(a@));
    }
    let mut j: usize = 0;
    while j < b.len()
        invariant
            all_bounded(entries_model(a@)),
            all_bounded(entries_model(b@)),
            j <= b@.len(),
            op.wf(),
            op.lefts() == entries_model(a@),
            op.rights() == entries_model(b@).take(j as int),
        decreases b@.len() - j,
    {
        proof {
            assert(bounded_mult(entries_model(b@)[j as int].mult));
        }
        op.push_right(b[j].dup());
        proof {
            assert(entries_model(b@).take(j + 1).drop_last() =~= entries_model(b@).take(j as int));
            assert(op.rights() =~= entries_model(b@).take(j + 1));
        }
        j = j + 1;
    }
    proof {
        assert(entries_model(b@).take(b@.len() as int) =~= entries_model(b@));
    }
    op.output
}

} // verus!
