use vstd::prelude::*;
use crate::errors::EngineError;
use crate::frontier::Frontier;
use crate::value::{Record, Val, ValModel, vals_model, dup_vals};

verus! {

/// The per-key, per-round state of the keyed reduction: the values seen
/// for this key at this round so far, in arrival order.
#[derive(Debug, PartialEq, Eq)]
pub struct Group {
    pub key: u64,
    pub time: u64,
    pub vals: Vec<Val>,
}

/// One finalized result: the key's values for a closed round, folded in
/// arrival order, emitted exactly once.
#[derive(Debug, PartialEq, Eq)]
pub struct Finalized {
    pub time: u64,
    pub key: u64,
    pub vals: Vec<Val>,
}

/// The keyed reduction. Records are folded into per-(key, round) state in
/// arrival order; when the input frontier closes a round, every key with
/// state at that round is finalized exactly once and its state discarded.
/// A record for an already-closed round is refused as late data.
pub struct AggregateOp {
    /// The input frontier seen so far.
    pub frontier: Frontier,
    /// Open (key, round) groups, one per pair.
    pub pending: Vec<Group>,
    /// Finalized results, in finalization order.
    pub output: Vec<Finalized>,
    /// Every accepted record, in arrival order: (key, round, value).
    pub log: Ghost<Seq<(u64, u64, ValModel)>>,
}

/// The arrival-order fold for one key and round out of an arrival log:
/// the values of exactly the accepted records with that key and round.
pub open spec fn log_fold(log: Seq<(u64, u64, ValModel)>, k: u64, t: u64) -> Seq<ValModel> {
    log.filter(|e: (u64, u64, ValModel)| e.0 == k && e.1 == t).map_values(
        |e: (u64, u64, ValModel)| e.2,
    )
}

/// Appending one accepted record extends exactly its own key and round's
/// fold by that record's value, and no other fold.
pub proof fn lemma_log_fold_push(
    log: Seq<(u64, u64, ValModel)>,
    e: (u64, u64, ValModel),
    k: u64,
    t: u64,
)
    ensures
        log_fold(log.push(e), k, t) == if e.0 == k && e.1 == t {
            log_fold(log, k, t).push(e.2)
        } else {
            log_fold(log, k, t)
        },
{
    reveal(Seq::filter);
    assert(log.push(e).drop_last() =~= log);
    assert(log.push(e).last() == e);
    if e.0 == k && e.1 == t {
        assert(log_fold(log.push(e), k, t) =~= log_fold(log, k, t).push(e.2));
    } else {
        assert(log_fold(log.push(e), k, t) =~= log_fold(log, k, t));
    }
}

/// The index of the open group for `(key, time)`, if one exists.
fn find_group(pending: &Vec<Group>, key: u64, time: u64) -> (r: Option<usize>)
    ensures
        match r {
            Some(i) => i < pending@.len() && pending@[i as int].key == key
                && pending@[i as int].time == time,
            None => forall|p: int|
                0 <= p < pending@.len() ==> !((#[trigger] pending@[p]).key == key
                    && pending@[p].time == time),
        },
{
    let mut idx: usize = 0;
    while idx < pending.len()
        invariant
            idx <= pending@.len(),
            forall|p: int|
                0 <= p < idx ==> !((#[trigger] pending@[p]).key == key && pending@[p].time
                    == time),
        decreases pending@.len() - idx,
    {
        let g = &pending[idx];
        if g.key == key && g.time == time {
            return Some(idx);
        }
        idx = idx + 1;
    }
    None
}

impl AggregateOp {
    /// The arrival-order fold for key `k` at round `t`.
    pub open spec fn group_log(self, k: u64, t: u64) -> Seq<ValModel> {
        log_fold(self.log@, k, t)
    }

    /// The model of the finalized output, in emission order:
    /// (round, key, folded values).
    pub open spec fn outs(self) -> Seq<(u64, u64, Seq<ValModel>)> {
        self.output@.map_values(|f: Finalized| (f.time, f.key, vals_model(f.vals@)))
    }

    /// There is a finalized entry for key `k` at round `t` at index `i`.
    pub open spec fn output_at(self, i: int, k: u64, t: u64) -> bool {
        0 <= i < self.output@.len() && self.output@[i].key == k && self.output@[i].time == t
    }

    /// There is an open group for key `k` at round `t` at index `i`.
    pub open spec fn pending_at(self, i: int, k: u64, t: u64) -> bool {
        0 <= i < self.pending@.len() && self.pending@[i].key == k && self.pending@[i].time == t
    }

    /// Well-formedness, the operator's invariant.
    /// Open groups carry rounds the frontier has not closed, hold exactly
    /// the arrival-order fold of their key and round, and there is one
    /// group per (key, round) — likewise one finalized entry per closed
    /// (key, round), holding exactly that fold. Every key and round that
    /// has received records stands in exactly one of the two places:
    /// among the open groups while its round is open, in the output once
    /// it closed.
    pub open spec fn wf(self) -> bool {
        &&& forall|i: int, j: int|
            0 <= i < j < self.pending@.len() ==> !((#[trigger] self.pending@[i]).key == (
            #[trigger] self.pending@[j]).key && self.pending@[i].time == self.pending@[j].time)
        &&& forall|i: int|
            0 <= i < self.pending@.len() ==> {
                let g = #[trigger] self.pending@[i];
                &&& !self.frontier.is_closed(g.time)
                &&& vals_model(g.vals@) == self.group_log(g.key, g.time)
                &&& g.vals@.len() > 0
            }
        &&& forall|i: int, j: int|
            0 <= i < j < self.output@.len() ==> !((#[trigger] self.output@[i]).key == (
            #[trigger] self.output@[j]).key && self.output@[i].time == self.output@[j].time)
        &&& forall|i: int|
            0 <= i < self.output@.len() ==> {
                let f = #[trigger] self.output@[i];
                &&& self.frontier.is_closed(f.time)
                &&& vals_model(f.vals@) == self.group_log(f.key, f.time)
                &&& f.vals@.len() > 0
            }
        &&& forall|k: u64, t: u64|
            #![trigger self.group_log(k, t)]
            self.group_log(k, t).len() > 0 ==> {
                if self.frontier.is_closed(t) {
                    exists|i: int| self.output_at(i, k, t)
                } else {
                    exists|i: int| self.pending_at(i, k, t)
                }
            }
    }

    /// A fresh operator: nothing pending, nothing finalized, every round
    /// still open.
    pub fn new() -> (r: AggregateOp)
        ensures
            r.wf(),
            r.log@ == Seq::<(u64, u64, ValModel)>::empty(),
            r.outs() == Seq::<(u64, u64, Seq<ValModel>)>::empty(),
            r.frontier == (Frontier { lower: 0, open: true }),
    {
        let r = AggregateOp {
            frontier: Frontier::new(),
            pending: Vec::new(),
            output: Vec::new(),
            log: Ghost(Seq::empty()),
        };
        proof {
            assert(r.outs() =~= Seq::<(u64, u64, Seq<ValModel>)>::empty());
            assert forall|k: u64, t: u64| #![trigger r.group_log(k, t)]
                r.group_log(k, t).len() == 0 by {
                r.log@.lemma_filter_len(|e: (u64, u64, ValModel)| e.0 == k && e.1 == t);
            }
        }
        r
    }

    /// Fold one record into its key's state for round `time`, seeding the
    /// state the first time that key is seen at that still-open round.
    /// A record for a round the input frontier has already closed is
    /// refused with `LateData` and changes nothing: its (key, round) pair
    /// is finalized, or will finalize without it.
    pub fn push(&mut self, rec: Record, time: u64) -> (r: Result<(), EngineError>)
        requires
            old(self).wf(),
        ensures
            final(self).wf(),
            final(self).frontier == old(self).frontier,
            match r {
                Ok(()) => {
                    &&& !old(self).frontier.is_closed(time)
                    &&& final(self).log@ == old(self).log@.push((rec@.0, time, rec@.1))
                    &&& final(self).outs() == old(self).outs()
                },
                Err(e) => {
                    &&& e == EngineError::LateData
                    &&& old(self).frontier.is_closed(time)
                    &&& *final(self) == *old(self)
                },
            },
    {
        if self.frontier.check_closed(time) {
            return Err(EngineError::LateData);
        }
        let key = rec.key;
        let ghost e = (rec@.0, time, rec@.1);
        let ghost oldself = *self;

        let slot = find_group(&self.pending, key, time);

        proof {
            self.log@ = oldself.log@.push(e);
        }

        if let Some(idx) = slot {
            let mut g = self.pending.remove(idx);
            g.vals.push(rec.val);
            self.pending.push(g);
            proof {
                let pre = oldself.pending@;
                let post = self.pending@;
                let gi = pre[idx as int];
                assert(post =~= pre.remove(idx as int).push(
                    Group { key: gi.key, time: gi.time, vals: g.vals },
                ));
                assert forall|k2: u64, t2: u64| #![trigger self.group_log(k2, t2)]
                    self.group_log(k2, t2) == if k2 == key && t2 == time {
                        oldself.group_log(k2, t2).push(e.2)
                    } else {
                        oldself.group_log(k2, t2)
                    } by {
                    lemma_log_fold_push(oldself.log@, e, k2, t2);
                }
                // The refreshed group holds the extended fold.
                assert(vals_model(post.last().vals@) =~= vals_model(gi.vals@).push(e.2));
                // Per-element facts for the new pending vector.
                assert forall|i: int| 0 <= i < post.len() implies {
                    let gp = #[trigger] post[i];
                    &&& !self.frontier.is_closed(gp.time)
                    &&& vals_model(gp.vals@) == self.group_log(gp.key, gp.time)
                    &&& gp.vals@.len() > 0
                } by {
                    if i < post.len() - 1 {
                        let p = if i < idx { i } else { i + 1 };
                        assert(post[i] == pre[p]);
                        assert(!(pre[p].key == key && pre[p].time == time));
                    } else {
                        assert(post[i].key == key && post[i].time == time);
                    }
                }
                // Uniqueness is preserved: the same (key, round) pairs.
                assert forall|i: int, j: int| 0 <= i < j < post.len() implies !((
                #[trigger] post[i]).key == (#[trigger] post[j]).key && post[i].time
                    == post[j].time) by {
                    let pi = if i < idx { i } else { i + 1 };
                    if j < post.len() - 1 {
                        let pj = if j < idx { j } else { j + 1 };
                        assert(post[i] == pre[pi] && post[j] == pre[pj]);
                    } else {
                        assert(post[i] == pre[pi]);
                        assert(!(pre[pi].key == key && pre[pi].time == time));
                    }
                }
                // Every populated (key, round) still stands in one place.
                assert forall|k2: u64, t2: u64| #![trigger self.group_log(k2, t2)]
                    self.group_log(k2, t2).len() > 0 implies {
                    if self.frontier.is_closed(t2) {
                        exists|i: int| self.output_at(i, k2, t2)
                    } else {
                        exists|i: int| self.pending_at(i, k2, t2)
                    }
                } by {
                    if k2 == key && t2 == time {
                        assert(self.pending_at(post.len() - 1, k2, t2));
                    } else {
                        assert(oldself.group_log(k2, t2).len() > 0);
                        if self.frontier.is_closed(t2) {
                            let i = choose|i: int| oldself.output_at(i, k2, t2);
                            assert(self.output_at(i, k2, t2));
                        } else {
                            let p = choose|p: int| oldself.pending_at(p, k2, t2);
                            if p == idx {
                                assert(pre[p].key == key && pre[p].time == time);
                            } else {
                                let q = if p < idx { p } else { p - 1 };
                                assert(post[q] == pre[p]);
                                assert(self.pending_at(q, k2, t2));
                            }
                        }
                    }
                }
                assert(self.outs() =~= oldself.outs());
            }
            Ok(())
        } else {
            let mut vals: Vec<Val> = Vec::new();
            vals.push(rec.val);
            self.pending.push(Group { key, time, vals });
            proof {
                let pre = oldself.pending@;
                let post = self.pending@;
                assert forall|k2: u64, t2: u64| #![trigger self.group_log(k2, t2)]
                    self.group_log(k2, t2) == if k2 == key && t2 == time {
                        oldself.group_log(k2, t2).push(e.2)
                    } else {
                        oldself.group_log(k2, t2)
                    } by {
                    lemma_log_fold_push(oldself.log@, e, k2, t2);
                }
                // No group for (key, time) existed, so its fold was empty.
                assert(oldself.group_log(key, time).len() == 0) by {
                    if oldself.group_log(key, time).len() > 0 {
                        let p = choose|p: int| oldself.pending_at(p, key, time);
                        assert(!(pre[p].key == key && pre[p].time == time));
                    }
                }
                assert(vals_model(post.last().vals@) =~= oldself.group_log(key, time).push(e.2));
                assert forall|i: int| 0 <= i < post.len() implies {
                    let gp = #[trigger] post[i];
                    &&& !self.frontier.is_closed(gp.time)
                    &&& vals_model(gp.vals@) == self.group_log(gp.key, gp.time)
                    &&& gp.vals@.len() > 0
                } by {
                    if i < post.len() - 1 {
                        assert(post[i] == pre[i]);
                        assert(!(pre[i].key == key && pre[i].time == time));
                    }
                }
                assert forall|i: int, j: int| 0 <= i < j < post.len() implies !((
                #[trigger] post[i]).key == (#[trigger] post[j]).key && post[i].time
                    == post[j].time) by {
                    if j == post.len() - 1 {
                        assert(post[i] == pre[i]);
                        assert(!(pre[i].key == key && pre[i].time == time));
                    }
                }
                assert forall|k2: u64, t2: u64| #![trigger self.group_log(k2, t2)]
                    self.group_log(k2, t2).len() > 0 implies {
                    if self.frontier.is_closed(t2) {
                        exists|i: int| self.output_at(i, k2, t2)
                    } else {
                        exists|i: int| self.pending_at(i, k2, t2)
                    }
                } by {
                    if k2 == key && t2 == time {
                        assert(self.pending_at(post.len() - 1, k2, t2));
                    } else {
                        assert(oldself.group_log(k2, t2).len() > 0);
                        if self.frontier.is_closed(t2) {
                            let i = choose|i: int| oldself.output_at(i, k2, t2);
                            assert(self.output_at(i, k2, t2));
                        } else {
                            let p = choose|p: int| oldself.pending_at(p, k2, t2);
                            assert(post[p] == pre[p]);
                            assert(self.pending_at(p, k2, t2));
                        }
                    }
                }
                assert(self.outs() =~= oldself.outs());
            }
            Ok(())
        }
    }

    /// Adopt the advanced input frontier `f`. Every open group whose
    /// round `f` closes is finalized — emitted exactly once — and its
    /// state discarded, whether or not any record arrived since the last
    /// advance; groups at still-open rounds are kept untouched. Earlier
    /// output stands unchanged, and every newly emitted entry belongs to
    /// a round that `f` closed just now. A frontier that is not at least
    /// as advanced as the current one is refused with
    /// `FrontierRegression` and changes nothing.
    #[verifier::rlimit(100)]
    pub fn advance(&mut self, f: Frontier) -> (r: Result<(), EngineError>)
        requires
            old(self).wf(),
        ensures
            final(self).wf(),
            match r {
                Ok(()) => {
                    &&& old(self).frontier.le(f)
                    &&& final(self).frontier == f
                    &&& final(self).log@ == old(self).log@
                    &&& final(self).outs().len() >= old(self).outs().len()
                    &&& final(self).outs().subrange(0, old(self).outs().len() as int) == old(
                        self,
                    ).outs()
                    &&& forall|j: int|
                        old(self).outs().len() <= j < final(self).outs().len() ==> f.is_closed(
                            (#[trigger] final(self).outs()[j]).0,
                        ) && !old(self).frontier.is_closed(final(self).outs()[j].0)
                },
                Err(e) => {
                    &&& e == EngineError::FrontierRegression
                    &&& !old(self).frontier.le(f)
                    &&& *final(self) == *old(self)
                },
            },
    {
        if !self.frontier.check_le(&f) {
            return Err(EngineError::FrontierRegression);
        }
        let ghost oldself = *self;
        let ghost on = self.output@.len() as int;

        let mut keep: Vec<Group> = Vec::new();
        let mut i: usize = 0;
        while i < self.pending.len()
            invariant
                oldself.wf(),
                oldself.frontier.le(f),
                i <= oldself.pending@.len(),
                self.pending@ == oldself.pending@,
                self.log == oldself.log,
                self.frontier == oldself.frontier,
                oldself.output@.len() == on,
                self.output@.len() >= on,
                self.output@.subrange(0, on) == oldself.output@,
                forall|j: int|
                    on <= j < self.output@.len() ==> {
                        let o = #[trigger] self.output@[j];
                        &&& f.is_closed(o.time)
                        &&& !oldself.frontier.is_closed(o.time)
                        &&& vals_model(o.vals@) == oldself.group_log(o.key, o.time)
                        &&& o.vals@.len() > 0
                        &&& exists|p: int|
                            0 <= p < i && (#[trigger] oldself.pending@[p]).key == o.key
                                && oldself.pending@[p].time == o.time
                    },
                forall|j1: int, j2: int|
                    on <= j1 < j2 < self.output@.len() ==> !((#[trigger] self.output@[j1]).key
                        == (#[trigger] self.output@[j2]).key && self.output@[j1].time
                        == self.output@[j2].time),
                forall|j: int|
                    0 <= j < keep@.len() ==> {
                        let g = #[trigger] keep@[j];
                        &&& !f.is_closed(g.time)
                        &&& vals_model(g.vals@) == oldself.group_log(g.key, g.time)
                        &&& g.vals@.len() > 0
                        &&& exists|p: int|
                            0 <= p < i && (#[trigger] oldself.pending@[p]).key == g.key
                                && oldself.pending@[p].time == g.time
                    },
                forall|j1: int, j2: int|
                    0 <= j1 < j2 < keep@.len() ==> !((#[trigger] keep@[j1]).key == (
                    #[trigger] keep@[j2]).key && keep@[j1].time == keep@[j2].time),
                forall|p: int|
                    0 <= p < i ==> {
                        let g = #[trigger] oldself.pending@[p];
                        if f.is_closed(g.time) {
                            exists|j: int|
                                on <= j < self.output@.len() && (#[trigger] self.output@[j]).key
                                    == g.key && self.output@[j].time == g.time
                        } else {
                            exists|j: int|
                                0 <= j < keep@.len() && (#[trigger] keep@[j]).key == g.key
                                    && keep@[j].time == g.time
                        }
                    },
            decreases oldself.pending@.len() - i,
        {
            let ghost outpre = self.output@;
            let ghost keeppre = keep@;
            let ghost gi = oldself.pending@[i as int];
            proof {
                // Instantiate the old invariant for this group.
                assert(!oldself.frontier.is_closed(gi.time) && vals_model(gi.vals@)
                    == oldself.group_log(gi.key, gi.time) && gi.vals@.len() > 0);
            }
            let g = &self.pending[i];
            if f.check_closed(g.time) {
                self.output.push(
                    Finalized { time: g.time, key: g.key, vals: dup_vals(&g.vals) },
                );
                proof {
                    assert(self.output@.subrange(0, on) =~= outpre.subrange(0, on));
                    let o = self.output@[self.output@.len() - 1];
                    assert(o.time == gi.time && o.key == gi.key && vals_model(o.vals@)
                        == vals_model(gi.vals@));
                    assert(oldself.pending@[i as int].key == o.key);
                    assert forall|j1: int, j2: int|
                        on <= j1 < j2 < self.output@.len() implies !((
                    #[trigger] self.output@[j1]).key == (#[trigger] self.output@[j2]).key
                        && self.output@[j1].time == self.output@[j2].time) by {
                        if j2 == self.output@.len() - 1 {
                            assert(self.output@[j1] == outpre[j1]);
                            let p1 = choose|p: int|
                                0 <= p < i && (#[trigger] oldself.pending@[p]).key
                                    == outpre[j1].key && oldself.pending@[p].time
                                    == outpre[j1].time;
                            assert(!(oldself.pending@[p1].key == oldself.pending@[i as int].key
                                && oldself.pending@[p1].time
                                == oldself.pending@[i as int].time));
                        }
                    }
                }
            } else {
                keep.push(Group { key: g.key, time: g.time, vals: dup_vals(&g.vals) });
                proof {
                    let o = keep@[keep@.len() - 1];
                    assert(o.time == gi.time && o.key == gi.key && vals_model(o.vals@)
                        == vals_model(gi.vals@));
                    assert(oldself.pending@[i as int].key == o.key);
                    assert forall|j1: int, j2: int|
                        0 <= j1 < j2 < keep@.len() implies !((#[trigger] keep@[j1]).key == (
                    #[trigger] keep@[j2]).key && keep@[j1].time == keep@[j2].time) by {
                        if j2 == keep@.len() - 1 {
                            assert(keep@[j1] == keeppre[j1]);
                            let p1 = choose|p: int|
                                0 <= p < i && (#[trigger] oldself.pending@[p]).key
                                    == keeppre[j1].key && oldself.pending@[p].time
                                    == keeppre[j1].time;
                            assert(!(oldself.pending@[p1].key == oldself.pending@[i as int].key
                                && oldself.pending@[p1].time
                                == oldself.pending@[i as int].time));
                        }
                    }
                }
            }
            proof {
                assert forall|p: int| 0 <= p < i + 1 implies {
                    let g2 = #[trigger] oldself.pending@[p];
                    if f.is_closed(g2.time) {
                        exists|j: int|
                            on <= j < self.output@.len() && (#[trigger] self.output@[j]).key
                                == g2.key && self.output@[j].time == g2.time
                    } else {
                        exists|j: int|
                            0 <= j < keep@.len() && (#[trigger] keep@[j]).key == g2.key
                                && keep@[j].time == g2.time
                    }
                } by {
                    let g2 = oldself.pending@[p];
                    if p == i {
                        if f.is_closed(g2.time) {
                            assert(self.output@[self.output@.len() - 1].key == g2.key
                                && self.output@[self.output@.len() - 1].time == g2.time);
                        } else {
                            assert(keep@[keep@.len() - 1].key == g2.key && keep@[keep@.len()
                                - 1].time == g2.time);
                        }
                    } else {
                        if f.is_closed(g2.time) {
                            let j = choose|j: int|
                                on <= j < outpre.len() && (#[trigger] outpre[j]).key == g2.key
                                    && outpre[j].time == g2.time;
                            assert(self.output@[j] == outpre[j]);
                            assert(self.output@[j].key == g2.key && self.output@[j].time
                                == g2.time);
                        } else {
                            let j = choose|j: int|
                                0 <= j < keeppre.len() && (#[trigger] keeppre[j]).key == g2.key
                                    && keeppre[j].time == g2.time;
                            assert(keep@[j] == keeppre[j]);
                            assert(keep@[j].key == g2.key && keep@[j].time == g2.time);
                        }
                    }
                }
            }
            i = i + 1;
        }
        self.pending = keep;
        self.frontier = f;
        proof {
            let post = *self;
            assert(post.outs().subrange(0, on) =~= oldself.outs());
            assert forall|k: u64, t: u64| #![trigger post.group_log(k, t)]
                post.group_log(k, t).len() > 0 implies {
                if post.frontier.is_closed(t) {
                    exists|i2: int| post.output_at(i2, k, t)
                } else {
                    exists|i2: int| post.pending_at(i2, k, t)
                }
            } by {
                assert(oldself.group_log(k, t) == post.group_log(k, t));
                if f.is_closed(t) {
                    if oldself.frontier.is_closed(t) {
                        let j = choose|j: int| oldself.output_at(j, k, t);
                        assert(post.output@[j] == oldself.output@[j]);
                        assert(post.output_at(j, k, t));
                    } else {
                        let p = choose|p: int| oldself.pending_at(p, k, t);
                        assert(0 <= p < oldself.pending@.len() && oldself.pending@[p].key == k
                            && oldself.pending@[p].time == t);
                        let j = choose|j: int|
                            on <= j < post.output@.len() && (#[trigger] post.output@[j]).key == k
                                && post.output@[j].time == t;
                        assert(post.output_at(j, k, t));
                    }
                } else {
                    assert(!oldself.frontier.is_closed(t));
                    let p = choose|p: int| oldself.pending_at(p, k, t);
                    assert(0 <= p < oldself.pending@.len() && oldself.pending@[p].key == k
                        && oldself.pending@[p].time == t);
                    let j = choose|j: int|
                        0 <= j < keep@.len() && (#[trigger] keep@[j]).key == k && keep@[j].time
                            == t;
                    assert(post.pending@[j] == keep@[j]);
                    assert(post.pending_at(j, k, t));
                }
            }
            assert forall|j: int| 0 <= j < post.output@.len() implies {
                let o = #[trigger] post.output@[j];
                &&& post.frontier.is_closed(o.time)
                &&& vals_model(o.vals@) == post.group_log(o.key, o.time)
                &&& o.vals@.len() > 0
            } by {
                if j < on {
                    assert(post.output@[j] == oldself.output@[j]);
                }
            }
            assert forall|j1: int, j2: int| 0 <= j1 < j2 < post.output@.len() implies !((
            #[trigger] post.output@[j1]).key == (#[trigger] post.output@[j2]).key
                && post.output@[j1].time == post.output@[j2].time) by {
                if j1 < on {
                    assert(post.output@[j1] == oldself.output@[j1]);
                    if j2 < on {
                        assert(post.output@[j2] == oldself.output@[j2]);
                    } else {
                        assert(oldself.frontier.is_closed(post.output@[j1].time));
                        assert(!oldself.frontier.is_closed(post.output@[j2].time));
                    }
                }
            }
            assert forall|j: int|
                oldself.outs().len() <= j < post.outs().len() implies f.is_closed(
                (#[trigger] post.outs()[j]).0,
            ) && !oldself.frontier.is_closed(post.outs()[j].0) by {
                assert(post.outs()[j].0 == post.output@[j].time);
            }
        }
        Ok(())
    }
}

/// For every key `k` and closed round `t` that received records, the
/// operator has finalized exactly one value for `(k, t)`, and that value
/// is the arrival-order fold of every accepted record with that key at
/// that round. Finalization needs no further records: it is driven by
/// the frontier alone, so advancing past `t` with nothing pending still
/// finalizes whatever state `(k, t)` had buffered.
pub proof fn lemma_finalize_exactly_once(op: AggregateOp, k: u64, t: u64)
    requires
        op.wf(),
        op.frontier.is_closed(t),
        op.group_log(k, t).len() > 0,
    ensures
        exists|i: int| op.output_at(i, k, t),
        forall|i: int, j: int| op.output_at(i, k, t) && op.output_at(j, k, t) ==> i == j,
        forall|i: int| #[trigger]
            op.output_at(i, k, t) ==> op.outs()[i] == (t, k, op.group_log(k, t)),
{
    assert forall|i: int, j: int| op.output_at(i, k, t) && op.output_at(j, k, t) implies i == j by {
        if i != j {
            let lo = if i < j { i } else { j };
            let hi = if i < j { j } else { i };
            assert(op.output@[lo].key == op.output@[hi].key && op.output@[lo].time
                == op.output@[hi].time);
        }
    }
    assert forall|i: int| #[trigger] op.output_at(i, k, t) implies op.outs()[i] == (
        t,
        k,
        op.group_log(k, t),
    ) by {
        assert(vals_model(op.output@[i].vals@) == op.group_log(k, t));
    }
}

} // verus!
