use dataflow_engine::accumulate::AccumulateOp;
use dataflow_engine::aggregate::AggregateOp;
use dataflow_engine::driver::Dataflow;
use dataflow_engine::errors::EngineError;
use dataflow_engine::frontier::Frontier;
use dataflow_engine::handle::InputHandle;
use dataflow_engine::stream::{concatenate, inspect, Stream};
use dataflow_engine::value::{Record, Val};

fn tval(s: &str) -> Val {
    Val::Text(s.as_bytes().to_vec())
}

fn rec(key: u64, s: &str) -> Record {
    Record { key, val: tval(s) }
}

fn stream_of(events: Vec<(u64, Record)>, lower: u64) -> Stream {
    Stream { events, frontier: Frontier { lower, open: true } }
}

#[test]
fn concatenate_merges_all_inputs() {
    let s1 = stream_of(vec![(0, rec(1, "M1")), (1, rec(2, "M4"))], 2);
    let s2 = stream_of(vec![(0, rec(1, "M2")), (1, rec(2, "M5"))], 2);
    let s3 = stream_of(vec![(0, rec(1, "M3")), (1, rec(3, "M6"))], 2);
    let out = concatenate(&vec![s1, s2, s3]);
    let expected = vec![
        (0, rec(1, "M1")),
        (1, rec(2, "M4")),
        (0, rec(1, "M2")),
        (1, rec(2, "M5")),
        (0, rec(1, "M3")),
        (1, rec(3, "M6")),
    ];
    assert_eq!(out.events, expected);
    assert_eq!(out.frontier, Frontier { lower: 2, open: true });
}

#[test]
fn concatenate_frontier_is_slowest_input() {
    let s1 = stream_of(vec![], 5);
    let s2 = stream_of(vec![(0, rec(1, "a"))], 1);
    let out = concatenate(&vec![s1, s2]);
    assert_eq!(out.frontier, Frontier { lower: 1, open: true });
}

#[test]
fn concatenate_of_nothing_is_closed() {
    let out = concatenate(&vec![]);
    assert!(out.events.is_empty());
    assert!(!out.frontier.open);
}

#[test]
fn inspect_observes_without_mutating() {
    let s = stream_of(vec![(0, rec(1, "M1")), (0, rec(1, "M2"))], 1);
    let r1 = inspect(&s);
    let r2 = inspect(&s);
    assert_eq!(r1, r2);
    assert_eq!(r1, vec![(0, rec(1, "M1")), (0, rec(1, "M2"))]);
    // The stream itself is untouched by observation.
    assert_eq!(s.events, vec![(0, rec(1, "M1")), (0, rec(1, "M2"))]);
}

#[test]
fn aggregate_folds_per_key_in_arrival_order() {
    let mut op = AggregateOp::new();
    op.push(rec(1, "M1"), 0).unwrap();
    op.push(rec(1, "M2"), 0).unwrap();
    op.push(rec(1, "M3"), 0).unwrap();
    op.push(rec(2, "M4"), 1).unwrap();
    assert!(op.output.is_empty());
    op.advance(Frontier { lower: 1, open: true }).unwrap();
    assert_eq!(op.output.len(), 1);
    assert_eq!(op.output[0].time, 0);
    assert_eq!(op.output[0].key, 1);
    assert_eq!(op.output[0].vals, vec![tval("M1"), tval("M2"), tval("M3")]);
}

#[test]
fn aggregate_finalizes_each_round_exactly_once() {
    let mut op = AggregateOp::new();
    op.push(rec(1, "M1"), 0).unwrap();
    op.push(rec(2, "M4"), 1).unwrap();
    op.push(rec(2, "M5"), 1).unwrap();
    op.advance(Frontier { lower: 1, open: true }).unwrap();
    op.advance(Frontier { lower: 2, open: true }).unwrap();
    // A further advance with nothing newly closed emits nothing more.
    op.advance(Frontier { lower: 3, open: true }).unwrap();
    assert_eq!(op.output.len(), 2);
    assert_eq!((op.output[0].time, op.output[0].key), (0, 1));
    assert_eq!((op.output[1].time, op.output[1].key), (1, 2));
    assert_eq!(op.output[1].vals, vec![tval("M4"), tval("M5")]);
}

#[test]
fn aggregate_rejects_late_data() {
    let mut op = AggregateOp::new();
    op.push(rec(1, "M1"), 0).unwrap();
    op.advance(Frontier { lower: 1, open: true }).unwrap();
    assert_eq!(op.push(rec(1, "late"), 0), Err(EngineError::LateData));
    // The rejected record left no trace.
    assert_eq!(op.output.len(), 1);
    assert_eq!(op.output[0].vals, vec![tval("M1")]);
}

#[test]
fn aggregate_rejects_frontier_regression() {
    let mut op = AggregateOp::new();
    op.advance(Frontier { lower: 2, open: true }).unwrap();
    assert_eq!(
        op.advance(Frontier { lower: 1, open: true }),
        Err(EngineError::FrontierRegression)
    );
}

#[test]
fn aggregate_finalizes_buffered_state_on_empty_advance() {
    // The boundary case: nothing pending at the moment of the advance,
    // yet previously buffered state still finalizes.
    let mut op = AggregateOp::new();
    op.push(rec(7, "x"), 0).unwrap();
    op.advance(Frontier { lower: 1, open: true }).unwrap();
    assert_eq!(op.output.len(), 1);
    assert_eq!((op.output[0].time, op.output[0].key), (0, 7));
    assert_eq!(op.output[0].vals, vec![tval("x")]);
}

#[test]
fn accumulate_emits_cumulative_buffer() {
    let mut op = AccumulateOp::new();
    op.push(rec(1, "M1"), 0).unwrap();
    op.push(rec(1, "M2"), 0).unwrap();
    op.push(rec(1, "M3"), 0).unwrap();
    op.advance(Frontier { lower: 1, open: true }).unwrap();
    op.push(rec(2, "M4"), 1).unwrap();
    op.push(rec(2, "M5"), 1).unwrap();
    op.advance(Frontier { lower: 2, open: true }).unwrap();
    assert_eq!(op.output.len(), 2);
    assert_eq!(op.output[0].time, 0);
    assert_eq!(op.output[0].vals, vec![rec(1, "M1"), rec(1, "M2"), rec(1, "M3")]);
    assert_eq!(op.output[1].time, 1);
    assert_eq!(
        op.output[1].vals,
        vec![rec(1, "M1"), rec(1, "M2"), rec(1, "M3"), rec(2, "M4"), rec(2, "M5")]
    );
    // Round r's output extends round r-1's.
    assert_eq!(op.output[1].vals[..3], op.output[0].vals[..]);
}

#[test]
fn accumulate_equal_frontier_is_no_boundary() {
    let mut op = AccumulateOp::new();
    op.push(rec(1, "a"), 0).unwrap();
    op.advance(Frontier { lower: 1, open: true }).unwrap();
    op.advance(Frontier { lower: 1, open: true }).unwrap();
    assert_eq!(op.output.len(), 1);
}

#[test]
fn accumulate_rejects_late_and_regressing() {
    let mut op = AccumulateOp::new();
    op.advance(Frontier { lower: 2, open: true }).unwrap();
    assert_eq!(op.push(rec(1, "a"), 1), Err(EngineError::LateData));
    assert_eq!(
        op.advance(Frontier { lower: 0, open: true }),
        Err(EngineError::FrontierRegression)
    );
}

#[test]
fn handle_orders_sends_and_frontier() {
    let mut h = InputHandle::new();
    h.send(rec(1, "M1"), 0).unwrap();
    h.advance_to(1).unwrap();
    assert_eq!(h.send(rec(1, "late"), 0), Err(EngineError::TimestampOrderViolation));
    assert_eq!(h.advance_to(1), Err(EngineError::FrontierRegression));
    h.send(rec(2, "M4"), 1).unwrap();
    h.close();
    assert_eq!(h.send(rec(3, "M6"), 5), Err(EngineError::HandleClosed));
    assert_eq!(h.advance_to(9), Err(EngineError::HandleClosed));
    assert_eq!(h.events, vec![(0, rec(1, "M1")), (1, rec(2, "M4"))]);
}

#[test]
fn handle_output_stream_carries_events_and_frontier() {
    let mut h = InputHandle::new();
    h.send(rec(1, "M1"), 0).unwrap();
    h.advance_to(1).unwrap();
    let s = h.output_stream();
    assert_eq!(s.events, vec![(0, rec(1, "M1"))]);
    assert_eq!(s.frontier, Frontier { lower: 1, open: true });
}

#[test]
fn fresh_stream_and_frontier_start_open() {
    let s = Stream::new();
    assert!(s.events.is_empty());
    assert_eq!(s.frontier, Frontier { lower: 0, open: true });
    let mut f = Frontier::new();
    assert!(f.advance_to(3));
    assert!(!f.advance_to(3));
    assert_eq!(f, Frontier { lower: 3, open: true });
    f.close();
    assert!(!f.open);
}

#[test]
fn frontier_meet_takes_the_slowest() {
    let a = Frontier { lower: 3, open: true };
    let b = Frontier { lower: 1, open: true };
    let closed = Frontier { lower: 0, open: false };
    assert_eq!(a.meet(&b), b);
    assert_eq!(a.meet(&closed), a);
    assert_eq!(closed.meet(&closed), closed);
}

#[test]
fn driver_runs_rounds_to_completion() {
    let data1 = [(1u64, "M1"), (2u64, "M4")];
    let data2 = [(1u64, "M2"), (2u64, "M5")];
    let data3 = [(1u64, "M3"), (3u64, "M6")];
    let mut flow = Dataflow::new(3);
    for round in 0..2u64 {
        let (k1, v1) = data1[round as usize];
        let (k2, v2) = data2[round as usize];
        let (k3, v3) = data3[round as usize];
        flow.send(0, rec(k1, v1), round).unwrap();
        flow.send(1, rec(k2, v2), round).unwrap();
        flow.send(2, rec(k3, v3), round).unwrap();
        flow.advance_input(0, round + 1).unwrap();
        flow.advance_input(1, round + 1).unwrap();
        flow.advance_input(2, round + 1).unwrap();
        flow.step();
    }
    assert_eq!(flow.agg.output.len(), 3);
    assert_eq!((flow.agg.output[0].time, flow.agg.output[0].key), (0, 1));
    assert_eq!(flow.agg.output[0].vals, vec![tval("M1"), tval("M2"), tval("M3")]);
    assert_eq!((flow.agg.output[1].time, flow.agg.output[1].key), (1, 2));
    assert_eq!(flow.agg.output[1].vals, vec![tval("M4"), tval("M5")]);
    assert_eq!((flow.agg.output[2].time, flow.agg.output[2].key), (1, 3));
    assert_eq!(flow.agg.output[2].vals, vec![tval("M6")]);
    assert!(!flow.done());
    flow.close_input(0);
    flow.close_input(1);
    flow.close_input(2);
    flow.step();
    assert!(flow.done());
}

#[test]
fn driver_empty_advance_still_finalizes_downstream() {
    // Records buffered at round 0, then a frontier-only advance with no
    // pending records: the downstream reduction must still finalize.
    let mut flow = Dataflow::new(1);
    flow.send(0, rec(1, "M1"), 0).unwrap();
    flow.step();
    assert!(flow.agg.output.is_empty());
    flow.advance_input(0, 1).unwrap();
    flow.step();
    assert_eq!(flow.agg.output.len(), 1);
    assert_eq!((flow.agg.output[0].time, flow.agg.output[0].key), (0, 1));
    assert_eq!(flow.agg.output[0].vals, vec![tval("M1")]);
}
