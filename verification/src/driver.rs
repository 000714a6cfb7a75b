use vstd::prelude::*;
use crate::aggregate::AggregateOp;
use crate::errors::EngineError;
use crate::frontier::Frontier;
use crate::handle::InputHandle;
use crate::value::{Record, ValModel, events_model};

verus! {

/// The arrival log that draining one handle's undrained events appends
/// downstream: each event (t, (k, v)) becomes the accepted record
/// (k, t, v), in arrival order.
pub open spec fn tail_log(h: InputHandle) -> Seq<(u64, u64, ValModel)> {
    h.evs().skip(h.taken as int).map_values(|e: (u64, (u64, ValModel))| (e.1.0, e.0, e.1.1))
}

/// The arrival log that draining every handle of the batch appends, in
/// handle order.
pub open spec fn drained_log(hs: Seq<InputHandle>) -> Seq<(u64, u64, ValModel)>
    decreases hs.len(),
{
    if hs.len() == 0 {
        Seq::<(u64, u64, ValModel)>::empty()
    } else {
        drained_log(hs.drop_last()) + tail_log(hs.last())
    }
}

/// Every one of the first `n` handles has closed round `t`.
pub open spec fn all_inputs_closed(hs: Seq<InputHandle>, n: int, t: u64) -> bool {
    forall|h: int| 0 <= h < n ==> (#[trigger] hs[h].frontier).is_closed(t)
}

/// One dataflow graph under a single scheduling domain: the caller's
/// input handles feeding, merged, one keyed reduction downstream. Each
/// `step` drains whatever input is available and propagates the
/// frontier — the pointwise minimum of the input frontiers — to the
/// operator, which finalizes every round that minimum has closed.
pub struct Dataflow {
    pub inputs: Vec<InputHandle>,
    pub agg: AggregateOp,
}

impl Dataflow {
    /// Well-formedness: handles and operator are well-formed, the
    /// operator's frontier never outruns any input's frontier, and no
    /// event still waiting in a handle belongs to a round the operator
    /// has already closed — so draining is never late.
    pub open spec fn wf(self) -> bool {
        &&& self.agg.wf()
        &&& forall|h: int| 0 <= h < self.inputs@.len() ==> (#[trigger] self.inputs@[h]).wf()
        &&& forall|h: int|
            0 <= h < self.inputs@.len() ==> self.agg.frontier.le(
                (#[trigger] self.inputs@[h]).frontier,
            )
        &&& forall|h: int, j: int|
            0 <= h < self.inputs@.len() && self.inputs@[h].taken <= j
                < self.inputs@[h].events@.len() ==> !self.agg.frontier.is_closed(
                (#[trigger] self.inputs@[h].events@[j]).0,
            )
    }

    /// A fresh graph with `n` input handles and an empty reduction.
    pub fn new(n: usize) -> (r: Dataflow)
        ensures
            r.wf(),
            r.inputs@.len() == n,
            r.agg.log@ == Seq::<(u64, u64, ValModel)>::empty(),
            r.agg.outs() == Seq::<(u64, u64, Seq<ValModel>)>::empty(),
            forall|h: int| 0 <= h < n ==> (#[trigger] r.inputs@[h]).evs().len() == 0,
    {
        let mut inputs: Vec<InputHandle> = Vec::new();
        let mut i: usize = 0;
        while i < n
            invariant
                i <= n,
                inputs@.len() == i,
                forall|h: int|
                    0 <= h < i ==> {
                        let hd = #[trigger] inputs@[h];
                        &&& hd.wf()
                        &&& hd.evs().len() == 0
                        &&& hd.events@.len() == 0
                        &&& hd.frontier == (Frontier { lower: 0, open: true })
                        &&& hd.taken == 0
                    },
            decreases n - i,
        {
            inputs.push(InputHandle::new());
            i = i + 1;
        }
        Dataflow { inputs, agg: AggregateOp::new() }
    }

    /// Send `(rec, time)` through input `h`, with the handle's own
    /// contract: `HandleClosed` on a closed handle,
    /// `TimestampOrderViolation` below its frontier.
    pub fn send(&mut self, h: usize, rec: Record, time: u64) -> (r: Result<(), EngineError>)
        requires
            old(self).wf(),
            h < old(self).inputs@.len(),
        ensures
            final(self).wf(),
            final(self).agg == old(self).agg,
            final(self).inputs@.len() == old(self).inputs@.len(),
            forall|h2: int|
                0 <= h2 < old(self).inputs@.len() && h2 != h ==> final(self).inputs@[h2] == old(
                    self,
                ).inputs@[h2],
            match r {
                Ok(()) => {
                    &&& old(self).inputs@[h as int].frontier.open
                    &&& time >= old(self).inputs@[h as int].frontier.lower
                    &&& final(self).inputs@[h as int].evs() == old(self).inputs@[h as int].evs()
                        .push((time, rec@))
                    &&& final(self).inputs@[h as int].frontier == old(
                        self,
                    ).inputs@[h as int].frontier
                },
                Err(e) => {
                    &&& final(self).inputs@ == old(self).inputs@
                    &&& (e == EngineError::HandleClosed <==> !old(
                        self,
                    ).inputs@[h as int].frontier.open)
                    &&& (e == EngineError::TimestampOrderViolation <==> (old(
                        self,
                    ).inputs@[h as int].frontier.open && time < old(
                        self,
                    ).inputs@[h as int].frontier.lower))
                },
            },
    {
        let ghost olds = *self;
        let res = self.inputs[h].send(rec, time);
        proof {
            if !(res is Ok) {
                assert(self.inputs@ =~= olds.inputs@);
            }
        }
        proof {
            if res is Ok {
                let hd = self.inputs@[h as int];
                let hp = olds.inputs@[h as int];
                assert(hd.evs() == hp.evs().push((time, rec@)));
                assert(hd.evs().len() == hd.events@.len() && hp.evs().len() == hp.events@.len());
                assert forall|h2: int, j: int|
                    0 <= h2 < self.inputs@.len() && self.inputs@[h2].taken <= j
                        < self.inputs@[h2].events@.len() implies !self.agg.frontier.is_closed(
                    (#[trigger] self.inputs@[h2].events@[j]).0,
                ) by {
                    if h2 == h {
                        assert(hd.events@[j].0 == hd.evs()[j].0);
                        if j < hp.events@.len() {
                            assert(hd.evs()[j] == hp.evs()[j]);
                            assert(hp.evs()[j].0 == hp.events@[j].0);
                            assert(!olds.agg.frontier.is_closed(
                                (olds.inputs@[h as int].events@[j]).0,
                            ));
                        } else {
                            assert(hd.evs()[j].0 == time);
                            assert(hp.frontier.open);
                            assert(olds.agg.frontier.le(hp.frontier));
                            assert(time >= hp.frontier.lower);
                        }
                    } else {
                        assert(self.inputs@[h2] == olds.inputs@[h2]);
                        assert(!olds.agg.frontier.is_closed(
                            (olds.inputs@[h2].events@[j]).0,
                        ));
                    }
                }
            }
        }
        res
    }

    /// Advance input `h`'s frontier to `time`, with the handle's own
    /// contract.
    pub fn advance_input(&mut self, h: usize, time: u64) -> (r: Result<(), EngineError>)
        requires
            old(self).wf(),
            h < old(self).inputs@.len(),
        ensures
            final(self).wf(),
            final(self).agg == old(self).agg,
            final(self).inputs@.len() == old(self).inputs@.len(),
            forall|h2: int|
                0 <= h2 < old(self).inputs@.len() && h2 != h ==> final(self).inputs@[h2] == old(
                    self,
                ).inputs@[h2],
            match r {
                Ok(()) => {
                    &&& final(self).inputs@[h as int].frontier == (Frontier {
                        lower: time,
                        open: true,
                    })
                    &&& final(self).inputs@[h as int].evs() == old(self).inputs@[h as int].evs()
                },
                Err(e) => {
                    &&& final(self).inputs@ == old(self).inputs@
                    &&& (e == EngineError::HandleClosed <==> !old(
                        self,
                    ).inputs@[h as int].frontier.open)
                    &&& (e == EngineError::FrontierRegression <==> (old(
                        self,
                    ).inputs@[h as int].frontier.open && time <= old(
                        self,
                    ).inputs@[h as int].frontier.lower))
                },
            },
    {
        let ghost olds = *self;
        let res = self.inputs[h].advance_to(time);
        proof {
            if !(res is Ok) {
                assert(self.inputs@ =~= olds.inputs@);
            }
        }
        proof {
            let hd = self.inputs@[h as int];
            let hp = olds.inputs@[h as int];
            assert(hd.evs() == hp.evs());
            assert(hd.evs().len() == hd.events@.len() && hp.evs().len() == hp.events@.len());
            assert forall|h2: int, j: int|
                0 <= h2 < self.inputs@.len() && self.inputs@[h2].taken <= j
                    < self.inputs@[h2].events@.len() implies !self.agg.frontier.is_closed(
                (#[trigger] self.inputs@[h2].events@[j]).0,
            ) by {
                if h2 == h {
                    assert(hd.events@[j].0 == hd.evs()[j].0);
                    assert(hp.evs()[j].0 == hp.events@[j].0);
                    assert(!olds.agg.frontier.is_closed((olds.inputs@[h as int].events@[j]).0));
                } else {
                    assert(self.inputs@[h2] == olds.inputs@[h2]);
                    assert(!olds.agg.frontier.is_closed((olds.inputs@[h2].events@[j]).0));
                }
            }
        }
        res
    }

    /// Close input `h`: its frontier empties for good. Anything it
    /// buffered but has not yet handed downstream is still drained by
    /// the next step.
    pub fn close_input(&mut self, h: usize)
        requires
            old(self).wf(),
            h < old(self).inputs@.len(),
        ensures
            final(self).wf(),
            final(self).agg == old(self).agg,
            final(self).inputs@.len() == old(self).inputs@.len(),
            forall|h2: int|
                0 <= h2 < old(self).inputs@.len() && h2 != h ==> final(self).inputs@[h2] == old(
                    self,
                ).inputs@[h2],
            final(self).inputs@[h as int].frontier.is_empty(),
            final(self).inputs@[h as int].evs() == old(self).inputs@[h as int].evs(),
    {
        let ghost olds = *self;
        self.inputs[h].close();
        proof {
            let hd = self.inputs@[h as int];
            let hp = olds.inputs@[h as int];
            assert(hd.evs() == hp.evs());
            assert(hd.evs().len() == hd.events@.len() && hp.evs().len() == hp.events@.len());
            assert forall|h2: int, j: int|
                0 <= h2 < self.inputs@.len() && self.inputs@[h2].taken <= j
                    < self.inputs@[h2].events@.len() implies !self.agg.frontier.is_closed(
                (#[trigger] self.inputs@[h2].events@[j]).0,
            ) by {
                if h2 == h {
                    assert(hd.events@[j].0 == hd.evs()[j].0);
                    assert(hp.evs()[j].0 == hp.events@[j].0);
                    assert(!olds.agg.frontier.is_closed((olds.inputs@[h as int].events@[j]).0));
                } else {
                    assert(self.inputs@[h2] == olds.inputs@[h2]);
                    assert(!olds.agg.frontier.is_closed((olds.inputs@[h2].events@[j]).0));
                }
            }
        }
    }

    /// One cooperative scheduling step over the whole graph: drain every
    /// handle's available input into the reduction — each drained event
    /// joins the operator's arrival log, in handle order — then
    /// propagate the pointwise minimum of the input frontiers to the
    /// operator, which finalizes every (key, round) that minimum just
    /// closed. A step is finite work over available input; with nothing
    /// pending it still propagates frontiers, so newly closed rounds
    /// still finalize.
    #[verifier::rlimit(100)]
    pub fn step(&mut self)
        requires
            old(self).wf(),
        ensures
            final(self).wf(),
            final(self).inputs@.len() == old(self).inputs@.len(),
            final(self).agg.log@ == old(self).agg.log@ + drained_log(old(self).inputs@),
            forall|h: int|
                0 <= h < final(self).inputs@.len() ==> {
                    let hd = #[trigger] final(self).inputs@[h];
                    &&& hd.taken == hd.events@.len()
                    &&& hd.evs() == old(self).inputs@[h].evs()
                    &&& hd.frontier == old(self).inputs@[h].frontier
                },
            forall|t: u64| #![trigger final(self).agg.frontier.is_closed(t)]
                final(self).agg.frontier.is_closed(t) <==> all_inputs_closed(
                    final(self).inputs@,
                    final(self).inputs@.len() as int,
                    t,
                ),
            final(self).agg.outs().len() >= old(self).agg.outs().len(),
            final(self).agg.outs().subrange(0, old(self).agg.outs().len() as int) == old(
                self,
            ).agg.outs(),
    {
        let ghost olds = *self;
        let n = self.inputs.len();
        let mut h: usize = 0;
        while h < n
            invariant
                olds.wf(),
                n == self.inputs@.len(),
                n == olds.inputs@.len(),
                h <= n,
                self.agg.wf(),
                self.agg.frontier == olds.agg.frontier,
                self.agg.outs() == olds.agg.outs(),
                self.agg.log@ == olds.agg.log@ + drained_log(olds.inputs@.take(h as int)),
                forall|h2: int|
                    h <= h2 < n ==> #[trigger] self.inputs@[h2] == olds.inputs@[h2],
                forall|h2: int|
                    0 <= h2 < h ==> {
                        let hd = #[trigger] self.inputs@[h2];
                        &&& hd.wf()
                        &&& hd.taken == hd.events@.len()
                        &&& hd.evs() == olds.inputs@[h2].evs()
                        &&& hd.frontier == olds.inputs@[h2].frontier
                    },
            decreases n - h,
        {
            let ghost hpre = self.inputs@[h as int];
            let batch = self.inputs[h].take_pending();
            let ghost aggpre = self.agg;
            proof {
                assert(hpre == olds.inputs@[h as int]);
                assert(hpre.wf());
                assert(hpre.evs().len() == hpre.events@.len());
                assert(events_model(batch@).len() == batch@.len());
                assert(batch@.len() == hpre.events@.len() - hpre.taken);
                assert forall|p: int| 0 <= p < batch@.len() implies !olds.agg.frontier.is_closed(
                    (#[trigger] batch@[p]).0,
                ) by {
                    assert(events_model(batch@)[p] == hpre.evs().skip(hpre.taken as int)[p]);
                    assert(events_model(batch@)[p].0 == batch@[p].0);
                    assert(hpre.evs()[hpre.taken + p].0 == hpre.events@[hpre.taken + p].0);
                    assert(!olds.agg.frontier.is_closed(
                        (olds.inputs@[h as int].events@[hpre.taken + p]).0,
                    ));
                }
            }
            let mut j: usize = 0;
            while j < batch.len()
                invariant
                    olds.wf(),
                    n == self.inputs@.len(),
                    h < n,
                    hpre == olds.inputs@[h as int],
                    j <= batch@.len(),
                    events_model(batch@) == hpre.evs().skip(hpre.taken as int),
                    forall|p: int|
                        0 <= p < batch@.len() ==> !olds.agg.frontier.is_closed(
                            (#[trigger] batch@[p]).0,
                        ),
                    self.inputs@[h as int].wf(),
                    self.inputs@[h as int].taken == self.inputs@[h as int].events@.len(),
                    self.inputs@[h as int].evs() == hpre.evs(),
                    self.inputs@[h as int].frontier == hpre.frontier,
                    forall|h2: int|
                        h < h2 < n ==> #[trigger] self.inputs@[h2] == olds.inputs@[h2],
                    forall|h2: int|
                        0 <= h2 < h ==> {
                            let hd = #[trigger] self.inputs@[h2];
                            &&& hd.wf()
                            &&& hd.taken == hd.events@.len()
                            &&& hd.evs() == olds.inputs@[h2].evs()
                            &&& hd.frontier == olds.inputs@[h2].frontier
                        },
                    self.agg.wf(),
                    self.agg.frontier == olds.agg.frontier,
                    self.agg.outs() == olds.agg.outs(),
                    self.agg.log@ == olds.agg.log@ + drained_log(olds.inputs@.take(h as int))
                        + tail_log(hpre).take(j as int),
                decreases batch@.len() - j,
            {
                let ev = &batch[j];
                proof {
                    assert(!self.agg.frontier.is_closed(batch@[j as int].0));
                }
                let res = self.agg.push(ev.1.dup(), ev.0);
                proof {
                    assert(res is Ok);
                    assert(events_model(batch@)[j as int] == (
                        batch@[j as int].0,
                        batch@[j as int].1@,
                    ));
                    assert(tail_log(hpre).take(j + 1).drop_last() =~= tail_log(hpre).take(
                        j as int,
                    ));
                    assert(tail_log(hpre).take(j + 1).last() == tail_log(hpre)[j as int]);
                    assert(tail_log(hpre)[j as int] == (
                        batch@[j as int].1@.0,
                        batch@[j as int].0,
                        batch@[j as int].1@.1,
                    ));
                    assert(self.agg.log@ =~= olds.agg.log@ + drained_log(
                        olds.inputs@.take(h as int),
                    ) + tail_log(hpre).take(j + 1));
                }
                j = j + 1;
            }
            proof {
                assert(tail_log(hpre).len() == batch@.len());
                assert(tail_log(hpre).take(tail_log(hpre).len() as int) =~= tail_log(hpre));
                assert(olds.inputs@.take(h + 1).drop_last() =~= olds.inputs@.take(h as int));
                assert(olds.inputs@.take(h + 1).last() == olds.inputs@[h as int]);
                assert(drained_log(olds.inputs@.take(h + 1)) == drained_log(
                    olds.inputs@.take(h as int),
                ) + tail_log(hpre));
                assert(self.agg.log@ =~= olds.agg.log@ + drained_log(olds.inputs@.take(h + 1)));
            }
            h = h + 1;
        }
        proof {
            assert(olds.inputs@.take(n as int) =~= olds.inputs@);
            assert(self.agg.log@ == olds.agg.log@ + drained_log(olds.inputs@));
        }

        // Propagate progress: the operator's new frontier is the
        // pointwise minimum of the input frontiers.
        let mut fmin = Frontier { lower: 0, open: false };
        let mut k: usize = 0;
        while k < n
            invariant
                n == self.inputs@.len(),
                k <= n,
                forall|t: u64| #![trigger fmin.is_closed(t)]
                    fmin.is_closed(t) <==> all_inputs_closed(self.inputs@, k as int, t),
            decreases n - k,
        {
            let ghost fpre = fmin;
            fmin = fmin.meet(&self.inputs[k].frontier);
            proof {
                assert forall|t: u64| #![trigger fmin.is_closed(t)]
                    fmin.is_closed(t) <==> all_inputs_closed(self.inputs@, k + 1, t) by {
                    assert(fmin.is_closed(t) <==> (fpre.is_closed(t)
                        && self.inputs@[k as int].frontier.is_closed(t)));
                    if fpre.is_closed(t) && self.inputs@[k as int].frontier.is_closed(t) {
                        assert forall|h2: int| 0 <= h2 < k + 1 implies (
                        #[trigger] self.inputs@[h2].frontier).is_closed(t) by {}
                    }
                }
            }
            k = k + 1;
        }
        let ghost aggmid = self.agg;
        proof {
            assert(self.agg.frontier.le(fmin)) by {
                Frontier::lemma_le_pointwise(self.agg.frontier, fmin);
                assert forall|t: u64| self.agg.frontier.is_closed(t) implies #[trigger] fmin
                    .is_closed(t) by {
                    assert forall|h2: int| 0 <= h2 < n implies (
                    #[trigger] self.inputs@[h2].frontier).is_closed(t) by {
                        assert(olds.agg.frontier.le(olds.inputs@[h2].frontier));
                        assert(self.inputs@[h2].frontier == olds.inputs@[h2].frontier);
                        Frontier::lemma_le_pointwise(olds.agg.frontier, olds.inputs@[h2].frontier);
                    }
                }
            }
        }
        let res = self.agg.advance(fmin);
        proof {
            assert(res is Ok);
            assert forall|h2: int| 0 <= h2 < n implies self.agg.frontier.le(
                (#[trigger] self.inputs@[h2]).frontier,
            ) by {
                Frontier::lemma_le_pointwise(self.agg.frontier, self.inputs@[h2].frontier);
                assert forall|t: u64| self.agg.frontier.is_closed(t) implies #[trigger] self
                    .inputs@[h2].frontier.is_closed(t) by {
                    assert(all_inputs_closed(self.inputs@, n as int, t));
                }
            }
            assert(self.agg.outs().subrange(0, olds.agg.outs().len() as int) == aggmid
                .outs().subrange(0, olds.agg.outs().len() as int));
        }
    }

    /// The graph is done: the operator's frontier is empty, so no round
    /// remains open anywhere downstream.
    pub fn done(&self) -> (r: bool)
        ensures
            r == self.agg.frontier.is_empty(),
            r ==> forall|t: u64| #[trigger] self.agg.frontier.is_closed(t),
    {
        !self.agg.frontier.open
    }
}

} // verus!
