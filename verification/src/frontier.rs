use vstd::prelude::*;

verus! {

/// The set of rounds not yet known to be complete. In single-dimension
/// time that set is either empty (no more input will ever arrive) or an
/// upward-closed interval: every round at or above `lower` may still see
/// input, every round below it is closed. A frontier only ever advances.
#[derive(Clone, Copy, Debug, PartialEq, Eq, Structural)]
pub struct Frontier {
    pub lower: u64,
    pub open: bool,
}

impl Frontier {
    /// Round `t` is known complete: no record at `t` can arrive any more.
    pub open spec fn is_closed(self, t: u64) -> bool {
        !self.open || t < self.lower
    }

    /// The frontier is empty: every round is closed.
    pub open spec fn is_empty(self) -> bool {
        !self.open
    }

    /// Progress order: `other` is at least as advanced as `self` —
    /// every round closed under `self` is closed under `other`.
    pub open spec fn le(self, other: Frontier) -> bool {
        other.open ==> (self.open && self.lower <= other.lower)
    }

    /// The structural progress order coincides with the pointwise one:
    /// a frontier that is at least as advanced closes at least the same
    /// rounds, and conversely.
    pub proof fn lemma_le_pointwise(a: Frontier, b: Frontier)
        ensures
            a.le(b) <==> (forall|t: u64| a.is_closed(t) ==> #[trigger] b.is_closed(t)),
    {
        if forall|t: u64| a.is_closed(t) ==> #[trigger] b.is_closed(t) {
            if b.open {
                assert(a.is_closed(b.lower) ==> b.is_closed(b.lower));
                if a.open && a.lower > b.lower {
                    assert(a.is_closed(b.lower));
                }
            }
        }
    }

    /// A fresh frontier: every round is still possibly open.
    pub fn new() -> (r: Frontier)
        ensures
            r.open,
            r.lower == 0,
            forall|t: u64| !r.is_closed(t),
    {
        Frontier { lower: 0, open: true }
    }

    /// Raise the lower bound to `t`, closing every round strictly below
    /// it. Succeeds exactly when the frontier is still open and `t` is
    /// strictly greater than the current bound; otherwise nothing changes.
    pub fn advance_to(&mut self, t: u64) -> (ok: bool)
        ensures
            ok <==> (old(self).open && t > old(self).lower),
            ok ==> *final(self) == (Frontier { lower: t, open: true }),
            !ok ==> *final(self) == *old(self),
            old(self).le(*final(self)),
    {
        if self.open && t > self.lower {
            self.lower = t;
            true
        } else {
            false
        }
    }

    /// Empty the frontier: every round becomes closed, for good.
    pub fn close(&mut self)
        ensures
            final(self).is_empty(),
            final(self).lower == old(self).lower,
            old(self).le(*final(self)),
            forall|t: u64| final(self).is_closed(t),
    {
        self.open = false;
    }

    /// Decide at run time whether round `t` is known complete.
    pub fn check_closed(&self, t: u64) -> (r: bool)
        ensures
            r == self.is_closed(t),
    {
        !self.open || t < self.lower
    }

    /// Decide at run time whether `other` is at least as advanced.
    pub fn check_le(&self, other: &Frontier) -> (r: bool)
        ensures
            r == self.le(*other),
    {
        !other.open || (self.open && self.lower <= other.lower)
    }

    /// The pointwise minimum of two frontiers: the slowest of the two.
    /// A round is closed under the meet exactly when both frontiers have
    /// closed it.
    pub fn meet(&self, other: &Frontier) -> (r: Frontier)
        ensures
            forall|t: u64| r.is_closed(t) <==> (self.is_closed(t) && other.is_closed(t)),
            r.le(*self),
            r.le(*other),
    {
        if !self.open {
            *other
        } else if !other.open {
            *self
        } else if self.lower <= other.lower {
            *self
        } else {
            *other
        }
    }
}

} // verus!
