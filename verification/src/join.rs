use vstd::prelude::*;
use vstd::multiset::Multiset;
use vstd::seq_lib::lemma_multiset_commutative;
use crate::errors::EngineError;
use crate::frontier::Frontier;
use crate::value::{Val, ValModel};

verus! {

/// The largest multiplicity magnitude a join input entry may carry.
/// It keeps the product of two multiplicities inside the machine range.
pub const MULT_BOUND: i64 = 0x7fff_ffff;

/// One multiset update: at round `time`, the multiplicity of `(key, val)`
/// changed by `mult` — positive for insertion, negative for retraction.
#[derive(Debug, PartialEq, Eq)]
pub struct Entry {
    pub key: u64,
    pub val: Val,
    pub mult: i64,
    pub time: u64,
}

/// The model of one multiset update.
pub struct EntryModel {
    pub key: u64,
    pub val: ValModel,
    pub mult: int,
    pub time: u64,
}

impl View for Entry {
    type V = EntryModel;

    open spec fn view(&self) -> EntryModel {
        EntryModel { key: self.key, val: self.val@, mult: self.mult as int, time: self.time }
    }
}

impl Entry {
    /// An exact copy of the update.
    pub fn dup(&self) -> (r: Entry)
        ensures
            r@ == self@,
    {
        Entry { key: self.key, val: self.val.dup(), mult: self.mult, time: self.time }
    }
}

/// The model of a batch of updates, in order.
pub open spec fn entries_model(s: Seq<Entry>) -> Seq<EntryModel> {
    s.map_values(|e: Entry| e@)
}

/// The multiplicity is within the accepted input range.
pub open spec fn bounded_mult(m: int) -> bool {
    -(MULT_BOUND as int) <= m <= MULT_BOUND as int
}

/// Every update in the batch has a multiplicity in the accepted range.
pub open spec fn all_bounded(s: Seq<EntryModel>) -> bool {
    forall|i: int| 0 <= i < s.len() ==> bounded_mult((#[trigger] s[i]).mult)
}

/// The least upper bound of two rounds in single-dimension time.
pub open spec fn time_join(a: u64, b: u64) -> u64 {
    if a >= b {
        a
    } else {
        b
    }
}

/// The output entry for one matched pair: the shared key, the pair of
/// the two values, the product of the two multiplicities, and the join
/// (the maximum) of the two rounds.
pub open spec fn match_one(a: EntryModel, b: EntryModel) -> EntryModel {
    EntryModel {
        key: a.key,
        val: ValModel::Pair(Box::new(a.val), Box::new(b.val)),
        mult: a.mult * b.mult,
        time: time_join(a.time, b.time),
    }
}

/// The output entries a fresh left-side update `a` produces against the
/// right index `bs` as it stands: one match per same-keyed entry of
/// `bs`, in index order.
pub open spec fn delta_left(a: EntryModel, bs: Seq<EntryModel>) -> Seq<EntryModel>
    decreases bs.len(),
{
    if bs.len() == 0 {
        Seq::<EntryModel>::empty()
    } else {
        let rest = delta_left(a, bs.drop_last());
        if bs.last().key == a.key {
            rest.push(match_one(a, bs.last()))
        } else {
            rest
        }
    }
}

/// The output entries a fresh right-side update `b` produces against the
/// left index `la` as it stands: one match per same-keyed entry of `la`,
/// in index order.
pub open spec fn delta_right(b: EntryModel, la: Seq<EntryModel>) -> Seq<EntryModel>
    decreases la.len(),
{
    if la.len() == 0 {
        Seq::<EntryModel>::empty()
    } else {
        let rest = delta_right(b, la.drop_last());
        if la.last().key == b.key {
            rest.push(match_one(la.last(), b))
        } else {
            rest
        }
    }
}

/// The full equi-join of the two indexes: for every pair of same-keyed
/// entries, one output entry with the product multiplicity, as a
/// multiset — the join's order of emission is not part of its meaning.
pub open spec fn join_bag(la: Seq<EntryModel>, rb: Seq<EntryModel>) -> Multiset<EntryModel>
    decreases la.len(),
{
    if la.len() == 0 {
        Multiset::<EntryModel>::empty()
    } else {
        join_bag(la.drop_last(), rb).add(delta_left(la.last(), rb).to_multiset())
    }
}

/// Extending the left index by `a` extends the full join by exactly the
/// matches of `a` against the right index as it stands.
pub proof fn lemma_join_bag_push_left(la: Seq<EntryModel>, rb: Seq<EntryModel>, a: EntryModel)
    ensures
        join_bag(la.push(a), rb) == join_bag(la, rb).add(delta_left(a, rb).to_multiset()),
{
    assert(la.push(a).drop_last() =~= la);
    assert(la.push(a).last() == a);
    assert(join_bag(la.push(a), rb) =~= join_bag(la, rb).add(delta_left(a, rb).to_multiset()));
}

/// Extending the right index by `b` extends the full join by exactly the
/// matches of `b` against the left index as it stands: the symmetric
/// double dispatch of the incremental join never misses a pair and
/// never produces one twice.
pub proof fn lemma_join_bag_push_right(la: Seq<EntryModel>, rb: Seq<EntryModel>, b: EntryModel)
    ensures
        join_bag(la, rb.push(b)) == join_bag(la, rb).add(delta_right(b, la).to_multiset()),
    decreases la.len(),
{
    broadcast use vstd::seq_lib::group_to_multiset_ensures;
    broadcast use vstd::multiset::group_multiset_axioms;

    if la.len() == 0 {
        assert(delta_right(b, la).to_multiset().len() == 0);
        assert(join_bag(la, rb.push(b)) =~= join_bag(la, rb).add(delta_right(b, la).to_multiset()));
    } else {
        let l0 = la.drop_last();
        let al = la.last();
        lemma_join_bag_push_right(l0, rb, b);
        assert(rb.push(b).drop_last() =~= rb);
        assert(rb.push(b).last() == b);
        if al.key == b.key {
            assert(delta_left(al, rb.push(b)) == delta_left(al, rb).push(match_one(al, b)));
            assert(delta_left(al, rb.push(b)).to_multiset() =~= delta_left(
                al,
                rb,
            ).to_multiset().insert(match_one(al, b)));
            assert(delta_right(b, la) == delta_right(b, l0).push(match_one(al, b)));
            assert(delta_right(b, la).to_multiset() =~= delta_right(b, l0).to_multiset().insert(
                match_one(al, b),
            ));
        } else {
            assert(delta_left(al, rb.push(b)) == delta_left(al, rb));
            assert(delta_right(b, la) == delta_right(b, l0));
        }
        assert(join_bag(la, rb.push(b)) =~= join_bag(la, rb).add(delta_right(b, la).to_multiset()));
    }
}

/// The two-way incremental equi-join. It keeps one index per side —
/// every update ever received, retractions as negative multiplicities,
/// never deleted — and on each arrival emits exactly the matches of the
/// new update against the opposite index as it stood, so the output
/// multiset always equals the full join of the two indexes. The output
/// frontier is the pointwise minimum of the two input frontiers.
pub struct JoinOp {
    pub left: Vec<Entry>,
    pub right: Vec<Entry>,
    pub output: Vec<Entry>,
    pub frontier_left: Frontier,
    pub frontier_right: Frontier,
}

impl JoinOp {
    /// The model of the left index.
    pub open spec fn lefts(self) -> Seq<EntryModel> {
        entries_model(self.left@)
    }

    /// The model of the right index.
    pub open spec fn rights(self) -> Seq<EntryModel> {
        entries_model(self.right@)
    }

    /// The model of the emitted output, in emission order.
    pub open spec fn outs(self) -> Seq<EntryModel> {
        entries_model(self.output@)
    }

    /// Well-formedness: the emitted output is exactly the full join of
    /// the two indexes, and every indexed multiplicity is in range.
    pub open spec fn wf(self) -> bool {
        &&& self.outs().to_multiset() == join_bag(self.lefts(), self.rights())
        &&& all_bounded(self.lefts())
        &&& all_bounded(self.rights())
    }

    /// A fresh join: empty indexes, nothing emitted, both frontiers
    /// fully open.
    pub fn new() -> (r: JoinOp)
        ensures
            r.wf(),
            r.lefts() == Seq::<EntryModel>::empty(),
            r.rights() == Seq::<EntryModel>::empty(),
            r.outs() == Seq::<EntryModel>::empty(),
            r.frontier_left == (Frontier { lower: 0, open: true }),
            r.frontier_right == (Frontier { lower: 0, open: true }),
    {
        let r = JoinOp {
            left: Vec::new(),
            right: Vec::new(),
            output: Vec::new(),
            frontier_left: Frontier::new(),
            frontier_right: Frontier::new(),
        };
        proof {
            broadcast use vstd::seq_lib::group_to_multiset_ensures;
            broadcast use vstd::multiset::lemma_multiset_empty_len;

            assert(r.lefts() =~= Seq::<EntryModel>::empty());
            assert(r.rights() =~= Seq::<EntryModel>::empty());
            assert(r.outs() =~= Seq::<EntryModel>::empty());
            assert(r.outs().to_multiset().len() == 0);
        }
        r
    }

    /// Receive one update on the left side: index it, and emit its
    /// matches against the right index as it stands, in index order.
    #[verifier::rlimit(100)]
    pub fn push_left(&mut self, e: Entry) -> (r: ())
        requires
            old(self).wf(),
            bounded_mult(e@.mult),
        ensures
            final(self).wf(),
            final(self).lefts() == old(self).lefts().push(e@),
            final(self).rights() == old(self).rights(),
            final(self).outs() == old(self).outs() + delta_left(e@, old(self).rights()),
            final(self).frontier_left == old(self).frontier_left,
            final(self).frontier_right == old(self).frontier_right,
    {
        let ghost em = e@;
        let ghost rm = entries_model(self.right@);
        let ghost out0 = entries_model(self.output@);
        let ghost oldself = *self;
        let mut i: usize = 0;
        proof {
            assert(delta_left(em, rm.take(0)) =~= Seq::<EntryModel>::empty());
            assert(entries_model(self.output@) =~= out0 + delta_left(em, rm.take(0)));
        }
        while i < self.right.len()
            invariant
                oldself.wf(),
                em == e@,
                bounded_mult(em.mult),
                i <= self.right@.len(),
                self.left == oldself.left,
                self.right == oldself.right,
                self.frontier_left == oldself.frontier_left,
                self.frontier_right == oldself.frontier_right,
                rm == entries_model(self.right@),
                entries_model(self.output@) == out0 + delta_left(em, rm.take(i as int)),
            decreases self.right@.len() - i,
        {
            let ghost outpre = entries_model(self.output@);
            let b = &self.right[i];
            if b.key == e.key {
                proof {
                    assert(rm[i as int] == self.right@[i as int]@);
                    assert(bounded_mult(rm[i as int].mult));
                    assert(em.mult == e.mult as int);
                    assert(rm[i as int].mult == b.mult as int);
                    assert(-0x4000_0000_0000_0000 <= (e.mult as int) * (b.mult as int) && (
                    e.mult as int) * (b.mult as int) <= 0x4000_0000_0000_0000)
                        by (nonlinear_arith)
                        requires
                            bounded_mult(e.mult as int),
                            bounded_mult(b.mult as int),
                    ;
                }
                let m = e.mult * b.mult;
                let t = if e.time >= b.time {
                    e.time
                } else {
                    b.time
                };
                self.output.push(
                    Entry {
                        key: e.key,
                        val: Val::Pair(Box::new(e.val.dup()), Box::new(b.val.dup())),
                        mult: m,
                        time: t,
                    },
                );
                proof {
                    let nm = self.output@.last()@;
                    assert(nm.key == em.key);
                    assert(nm.val == ValModel::Pair(Box::new(em.val), Box::new(rm[i as int].val)));
                    assert(nm.mult == em.mult * rm[i as int].mult);
                    assert(nm.time == time_join(em.time, rm[i as int].time));
                    assert(nm == match_one(em, rm[i as int]));
                    assert(entries_model(self.output@) =~= outpre.push(match_one(em, rm[i as int])));
                }
            }
            proof {
                assert(rm.take(i + 1).drop_last() =~= rm.take(i as int));
                assert(rm.take(i + 1).last() == rm[i as int]);
                assert(entries_model(self.output@) =~= out0 + delta_left(em, rm.take(i + 1)));
            }
            i = i + 1;
        }
        proof {
            assert(rm.take(rm.len() as int) =~= rm);
        }
        let ghost outdone = entries_model(self.output@);
        self.left.push(e);
        proof {
            assert(entries_model(self.left@) =~= oldself.lefts().push(em));
            assert(entries_model(self.output@) == outdone);
            lemma_join_bag_push_left(oldself.lefts(), rm, em);
            lemma_multiset_commutative(out0, delta_left(em, rm));
            assert(self.outs().to_multiset() == join_bag(self.lefts(), self.rights()));
            assert forall|j: int| 0 <= j < self.lefts().len() implies bounded_mult(
                (#[trigger] self.lefts()[j]).mult,
            ) by {
                if j < self.lefts().len() - 1 {
                    assert(self.lefts()[j] == oldself.lefts()[j]);
                }
            }
        }
    }

    /// Receive one update on the right side: index it, and emit its
    /// matches against the left index as it stands, in index order.
    #[verifier::rlimit(100)]
    pub fn push_right(&mut self, e: Entry) -> (r: ())
        requires
            old(self).wf(),
            bounded_mult(e@.mult),
        ensures
            final(self).wf(),
            final(self).rights() == old(self).rights().push(e@),
            final(self).lefts() == old(self).lefts(),
            final(self).outs() == old(self).outs() + delta_right(e@, old(self).lefts()),
            final(self).frontier_left == old(self).frontier_left,
            final(self).frontier_right == old(self).frontier_right,
    {
        let ghost em = e@;
        let ghost lm = entries_model(self.left@);
        let ghost out0 = entries_model(self.output@);
        let ghost oldself = *self;
        let mut i: usize = 0;
        proof {
            assert(delta_right(em, lm.take(0)) =~= Seq::<EntryModel>::empty());
            assert(entries_model(self.output@) =~= out0 + delta_right(em, lm.take(0)));
        }
        while i < self.left.len()
            invariant
                oldself.wf(),
                em == e@,
                bounded_mult(em.mult),
                i <= self.left@.len(),
                self.left == oldself.left,
                self.right == oldself.right,
                self.frontier_left == oldself.frontier_left,
                self.frontier_right == oldself.frontier_right,
                lm == entries_model(self.left@),
                entries_model(self.output@) == out0 + delta_right(em, lm.take(i as int)),
            decreases self.left@.len() - i,
        {
            let ghost outpre = entries_model(self.output@);
            let a = &self.left[i];
            if a.key == e.key {
                proof {
                    assert(lm[i as int] == self.left@[i as int]@);
                    assert(bounded_mult(lm[i as int].mult));
                    assert(em.mult == e.mult as int);
                    assert(lm[i as int].mult == a.mult as int);
                    assert(-0x4000_0000_0000_0000 <= (a.mult as int) * (e.mult as int) && (
                    a.mult as int) * (e.mult as int) <= 0x4000_0000_0000_0000)
                        by (nonlinear_arith)
                        requires
                            bounded_mult(a.mult as int),
                            bounded_mult(e.mult as int),
                    ;
                }
                let m = a.mult * e.mult;
                let t = if a.time >= e.time {
                    a.time
                } else {
                    e.time
                };
                self.output.push(
                    Entry {
                        key: e.key,
                        val: Val::Pair(Box::new(a.val.dup()), Box::new(e.val.dup())),
                        mult: m,
                        time: t,
                    },
                );
                proof {
                    let nm = self.output@.last()@;
                    assert(nm.key == lm[i as int].key);
                    assert(nm.val == ValModel::Pair(Box::new(lm[i as int].val), Box::new(em.val)));
                    assert(nm.mult == lm[i as int].mult * em.mult);
                    assert(nm.time == time_join(lm[i as int].time, em.time));
                    assert(nm == match_one(lm[i as int], em));
                    assert(entries_model(self.output@) =~= outpre.push(match_one(lm[i as int], em)));
                }
            }
            proof {
                assert(lm.take(i + 1).drop_last() =~= lm.take(i as int));
                assert(lm.take(i + 1).last() == lm[i as int]);
                assert(entries_model(self.output@) =~= out0 + delta_right(em, lm.take(i + 1)));
            }
            i = i + 1;
        }
        proof {
            assert(lm.take(lm.len() as int) =~= lm);
        }
        let ghost outdone = entries_model(self.output@);
        self.right.push(e);
        proof {
            assert(entries_model(self.right@) =~= oldself.rights().push(em));
            assert(entries_model(self.output@) == outdone);
            lemma_join_bag_push_right(lm, oldself.rights(), em);
            lemma_multiset_commutative(out0, delta_right(em, lm));
            assert(self.outs().to_multiset() == join_bag(self.lefts(), self.rights()));
            assert forall|j: int| 0 <= j < self.rights().len() implies bounded_mult(
                (#[trigger] self.rights()[j]).mult,
            ) by {
                if j < self.rights().len() - 1 {
                    assert(self.rights()[j] == oldself.rights()[j]);
                }
            }
        }
    }

    /// The join's output frontier: the pointwise minimum of its two
    /// input frontiers.
    pub fn out_frontier(&self) -> (r: Frontier)
        ensures
            forall|t: u64|
                r.is_closed(t) <==> (self.frontier_left.is_closed(t)
                    && self.frontier_right.is_closed(t)),
    {
        self.frontier_left.meet(&self.frontier_right)
    }

    /// Adopt the advanced frontier of the left input. A frontier that is
    /// not at least as advanced is refused with `FrontierRegression`.
    pub fn advance_left(&mut self, f: Frontier) -> (r: Result<(), EngineError>)
        requires
            old(self).wf(),
        ensures
            final(self).wf(),
            match r {
                Ok(()) => {
                    &&& old(self).frontier_left.le(f)
                    &&& *final(self) == (JoinOp { frontier_left: f, ..*old(self) })
                },
                Err(e) => {
                    &&& e == EngineError::FrontierRegression
                    &&& !old(self).frontier_left.le(f)
                    &&& *final(self) == *old(self)
                },
            },
    {
        if !self.frontier_left.check_le(&f) {
            return Err(EngineError::FrontierRegression);
        }
        self.frontier_left = f;
        Ok(())
    }

    /// Adopt the advanced frontier of the right input. A frontier that
    /// is not at least as advanced is refused with `FrontierRegression`.
    pub fn advance_right(&mut self, f: Frontier) -> (r: Result<(), EngineError>)
        requires
            old(self).wf(),
        ensures
            final(self).wf(),
            match r {
                Ok(()) => {
                    &&& old(self).frontier_right.le(f)
                    &&& *final(self) == (JoinOp { frontier_right: f, ..*old(self) })
                },
                Err(e) => {
                    &&& e == EngineError::FrontierRegression
                    &&& !old(self).frontier_right.le(f)
                    &&& *final(self) == *old(self)
                },
            },
    {
        if !self.frontier_right.check_le(&f) {
            return Err(EngineError::FrontierRegression);
        }
        self.frontier_right = f;
        Ok(())
    }
}

} // verus!
