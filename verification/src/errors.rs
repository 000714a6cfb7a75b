use vstd::prelude::*;

verus! {

/// The contract violations that the engine detects synchronously and
/// reports to the caller: a send at a time the handle has already closed,
/// a frontier bound that does not advance, data for an already-finalized
/// key and round, and any operation on a torn-down handle.
#[derive(Clone, Copy, Debug, PartialEq, Eq, Structural)]
pub enum EngineError {
    TimestampOrderViolation,
    FrontierRegression,
    LateData,
    HandleClosed,
}

} // verus!
