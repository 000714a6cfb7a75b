use vstd::prelude::*;
use crate::errors::EngineError;
use crate::frontier::Frontier;
use crate::value::{Record, ValModel, records_model, dup_records};

verus! {

/// One emitted snapshot of the accumulator: the round whose boundary
/// triggered it, and the whole buffer as it stood then.
#[derive(Debug, PartialEq, Eq)]
pub struct Snapshot {
    pub time: u64,
    pub vals: Vec<Record>,
}

/// The stateful fold across a stream's entire history. One global
/// buffer — not partitioned by key — collects every record ever
/// received, in arrival order; at each round boundary the records of the
/// closing round are folded in and the cumulative buffer is emitted.
/// The buffer is never reset mid-run.
pub struct AccumulateOp {
    /// The input frontier seen so far.
    pub frontier: Frontier,
    /// Records received since the previous round boundary, in order.
    pub batch: Vec<Record>,
    /// The cumulative buffer: every record folded in so far, in order.
    pub buffer: Vec<Record>,
    /// The snapshots emitted at round boundaries, in emission order.
    pub output: Vec<Snapshot>,
}

impl AccumulateOp {
    /// The model of the cumulative buffer.
    pub open spec fn buf(self) -> Seq<(u64, ValModel)> {
        records_model(self.buffer@)
    }

    /// The model of the records waiting for the next boundary.
    pub open spec fn pend(self) -> Seq<(u64, ValModel)> {
        records_model(self.batch@)
    }

    /// The model of the emitted snapshots, in emission order.
    pub open spec fn outs(self) -> Seq<(u64, Seq<(u64, ValModel)>)> {
        self.output@.map_values(|s: Snapshot| (s.time, records_model(s.vals@)))
    }

    /// Well-formedness: every emitted snapshot is a prefix of the
    /// cumulative buffer, so any earlier snapshot is a prefix of any
    /// later one — the fold only ever extends what it emitted before.
    pub open spec fn wf(self) -> bool {
        &&& forall|i: int|
            0 <= i < self.outs().len() ==> (#[trigger] self.outs()[i]).1.is_prefix_of(self.buf())
        &&& forall|i: int, j: int|
            0 <= i <= j < self.outs().len() ==> (#[trigger] self.outs()[i]).1.len() <= (
            #[trigger] self.outs()[j]).1.len()
    }

    /// A fresh operator: empty buffer, nothing emitted, every round open.
    pub fn new() -> (r: AccumulateOp)
        ensures
            r.wf(),
            r.buf() == Seq::<(u64, ValModel)>::empty(),
            r.pend() == Seq::<(u64, ValModel)>::empty(),
            r.outs() == Seq::<(u64, Seq<(u64, ValModel)>)>::empty(),
            r.frontier == (Frontier { lower: 0, open: true }),
    {
        let r = AccumulateOp {
            frontier: Frontier::new(),
            batch: Vec::new(),
            buffer: Vec::new(),
            output: Vec::new(),
        };
        proof {
            assert(r.buf() =~= Seq::<(u64, ValModel)>::empty());
            assert(r.pend() =~= Seq::<(u64, ValModel)>::empty());
            assert(r.outs() =~= Seq::<(u64, Seq<(u64, ValModel)>)>::empty());
        }
        r
    }

    /// Receive one record for round `time`. It joins the pending batch,
    /// to be folded in at the next round boundary. A record for a round
    /// the frontier has already closed is refused with `LateData` and
    /// changes nothing.
    pub fn push(&mut self, rec: Record, time: u64) -> (r: Result<(), EngineError>)
        requires
            old(self).wf(),
        ensures
            final(self).wf(),
            final(self).frontier == old(self).frontier,
            final(self).buf() == old(self).buf(),
            final(self).outs() == old(self).outs(),
            match r {
                Ok(()) => {
                    &&& !old(self).frontier.is_closed(time)
                    &&& final(self).pend() == old(self).pend().push(rec@)
                },
                Err(e) => {
                    &&& e == EngineError::LateData
                    &&& old(self).frontier.is_closed(time)
                    &&& *final(self) == *old(self)
                },
            },
    {
        if self.frontier.check_closed(time) {
            return Err(EngineError::LateData);
        }
        let ghost oldself = *self;
        self.batch.push(rec);
        proof {
            assert(self.pend() =~= records_model(oldself.batch@).push(rec@));
            assert(self.outs() == oldself.outs());
            assert(self.buf() == oldself.buf());
            assert forall|i: int| 0 <= i < self.outs().len() implies (
            #[trigger] self.outs()[i]).1.is_prefix_of(self.buf()) by {
                assert(oldself.outs()[i].1.is_prefix_of(oldself.buf()));
            }
            assert forall|i: int, j: int| 0 <= i <= j < self.outs().len() implies (
            #[trigger] self.outs()[i]).1.len() <= (#[trigger] self.outs()[j]).1.len() by {
                assert(oldself.outs()[i].1.len() <= oldself.outs()[j].1.len());
            }
        }
        Ok(())
    }

    /// Adopt the advanced input frontier `f`. When `f` moves the
    /// frontier, that is a round boundary: the pending batch is folded
    /// into the cumulative buffer, in arrival order, and the whole
    /// buffer is emitted as the snapshot for the round that stood at the
    /// old lower bound. An `f` equal to the current frontier is no
    /// boundary and changes nothing; one that is not at least as
    /// advanced is refused with `FrontierRegression`.
    pub fn advance(&mut self, f: Frontier) -> (r: Result<(), EngineError>)
        requires
            old(self).wf(),
        ensures
            final(self).wf(),
            match r {
                Ok(()) => {
                    &&& old(self).frontier.le(f)
                    &&& final(self).frontier == f
                    &&& if f == old(self).frontier {
                        *final(self) == *old(self)
                    } else {
                        &&& final(self).buf() == old(self).buf() + old(self).pend()
                        &&& final(self).pend() == Seq::<(u64, ValModel)>::empty()
                        &&& final(self).outs() == old(self).outs().push(
                            (old(self).frontier.lower, final(self).buf()),
                        )
                    }
                },
                Err(e) => {
                    &&& e == EngineError::FrontierRegression
                    &&& !old(self).frontier.le(f)
                    &&& *final(self) == *old(self)
                },
            },
    {
        if !self.frontier.check_le(&f) {
            return Err(EngineError::FrontierRegression);
        }
        if self.frontier.lower == f.lower && self.frontier.open == f.open {
            return Ok(());
        }
        let ghost oldself = *self;
        let boundary = self.frontier.lower;
        self.frontier = f;
        self.buffer.append(&mut self.batch);
        let snapshot = dup_records(&self.buffer);
        self.output.push(Snapshot { time: boundary, vals: snapshot });
        proof {
            assert(self.buf() =~= oldself.buf() + oldself.pend());
            assert(self.pend() =~= Seq::<(u64, ValModel)>::empty());
            assert(self.outs() =~= oldself.outs().push((boundary, self.buf())));
            assert forall|i: int| 0 <= i < self.outs().len() implies (
            #[trigger] self.outs()[i]).1.is_prefix_of(self.buf()) by {
                if i < self.outs().len() - 1 {
                    assert(self.outs()[i] == oldself.outs()[i]);
                    assert(oldself.outs()[i].1.is_prefix_of(oldself.buf()));
                    assert(oldself.outs()[i].1 =~= self.buf().subrange(
                        0,
                        oldself.outs()[i].1.len() as int,
                    ));
                } else {
                    assert(self.outs()[i].1 =~= self.buf().subrange(
                        0,
                        self.outs()[i].1.len() as int,
                    ));
                }
            }
        }
        Ok(())
    }
}

/// The cumulative fold only grows: for any two snapshots the operator
/// ever emitted, the earlier one is a prefix of the later one — round
/// `r`'s output carries everything round `r - 1`'s did, extended by the
/// records of the rounds in between.
pub proof fn lemma_accumulate_extends(op: AccumulateOp, i: int, j: int)
    requires
        op.wf(),
        0 <= i <= j < op.outs().len(),
    ensures
        op.outs()[i].1.is_prefix_of(op.outs()[j].1),
{
    assert(op.outs()[i].1.is_prefix_of(op.buf()));
    assert(op.outs()[j].1.is_prefix_of(op.buf()));
    assert(op.outs()[i].1.len() <= op.outs()[j].1.len());
    assert(op.outs()[i].1 =~= op.outs()[j].1.subrange(0, op.outs()[i].1.len() as int));
}

} // verus!
