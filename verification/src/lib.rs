//! A progress-tracked dataflow engine: operators over timestamped records,
//! advancing logical time in discrete rounds, with an incremental multiset
//! equi-join. Each operator's behaviour is stated in its contract; the
//! frontier model decides when a round is complete and output may be emitted.

pub mod accumulate;
pub mod aggregate;
pub mod collection;
pub mod driver;
pub mod errors;
pub mod frontier;
pub mod handle;
pub mod join;
pub mod stream;
pub mod value;
