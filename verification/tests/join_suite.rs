use dataflow_engine::collection::{join_collections, within_mult_bound, InputSession};
use dataflow_engine::errors::EngineError;
use dataflow_engine::frontier::Frontier;
use dataflow_engine::join::{Entry, JoinOp, MULT_BOUND};
use dataflow_engine::value::Val;

fn tval(s: &str) -> Val {
    Val::Text(s.as_bytes().to_vec())
}

fn pair(a: Val, b: Val) -> Val {
    Val::Pair(Box::new(a), Box::new(b))
}

fn entry(key: u64, val: Val, mult: i64, time: u64) -> Entry {
    Entry { key, val, mult, time }
}

fn session_with(rows: &[(u64, &str, u64)]) -> InputSession {
    let mut s = InputSession::new();
    let mut at: u64 = 0;
    for &(key, text, time) in rows {
        if time > at {
            s.advance_to(time).unwrap();
            at = time;
        }
        s.insert(key, tval(text)).unwrap();
    }
    s
}

#[test]
fn join_emits_product_of_matching_updates() {
    let a = session_with(&[(1, "M1", 0), (2, "M4", 1)]);
    let b = session_with(&[(1, "M2", 0), (2, "M5", 1)]);
    let out = join_collections(&a.updates, &b.updates);
    assert_eq!(
        out,
        vec![
            entry(1, pair(tval("M1"), tval("M2")), 1, 0),
            entry(2, pair(tval("M4"), tval("M5")), 1, 1),
        ]
    );
}

#[test]
fn three_way_join_matches_only_shared_keys() {
    // A = {(1,"M1")@0, (2,"M4")@1}, B = {(1,"M2")@0, (2,"M5")@1},
    // C = {(1,"M3")@0, (3,"M6")@1}: only key 1 survives all three.
    let a = session_with(&[(1, "M1", 0), (2, "M4", 1)]);
    let b = session_with(&[(1, "M2", 0), (2, "M5", 1)]);
    let c = session_with(&[(1, "M3", 0), (3, "M6", 1)]);
    let ab = join_collections(&a.updates, &b.updates);
    assert!(within_mult_bound(&ab));
    let abc = join_collections(&ab, &c.updates);
    assert_eq!(
        abc,
        vec![entry(1, pair(pair(tval("M1"), tval("M2")), tval("M3")), 1, 0)]
    );
}

#[test]
fn join_output_time_is_the_later_round() {
    let a = session_with(&[(5, "early", 0)]);
    let b = session_with(&[(5, "late", 3)]);
    let out = join_collections(&a.updates, &b.updates);
    assert_eq!(out, vec![entry(5, pair(tval("early"), tval("late")), 1, 3)]);
}

#[test]
fn retraction_flows_through_join_as_negative_multiplicity() {
    let mut a = InputSession::new();
    a.insert(1, tval("M1")).unwrap();
    a.advance_to(1).unwrap();
    a.retract(1, tval("M1")).unwrap();
    let b = session_with(&[(1, "M2", 0)]);
    let out = join_collections(&a.updates, &b.updates);
    assert_eq!(
        out,
        vec![
            entry(1, pair(tval("M1"), tval("M2")), 1, 0),
            entry(1, pair(tval("M1"), tval("M2")), -1, 1),
        ]
    );
}

#[test]
fn incremental_pushes_emit_each_match_once() {
    let mut op = JoinOp::new();
    op.push_left(entry(1, tval("M1"), 1, 0));
    assert!(op.output.is_empty());
    op.push_right(entry(1, tval("M2"), 1, 0));
    assert_eq!(op.output, vec![entry(1, pair(tval("M1"), tval("M2")), 1, 0)]);
    // A second left arrival only joins against the standing right index.
    op.push_left(entry(1, tval("M7"), 2, 2));
    assert_eq!(
        op.output,
        vec![
            entry(1, pair(tval("M1"), tval("M2")), 1, 0),
            entry(1, pair(tval("M7"), tval("M2")), 2, 2),
        ]
    );
}

#[test]
fn join_frontier_is_minimum_of_sides() {
    let mut op = JoinOp::new();
    op.advance_left(Frontier { lower: 3, open: true }).unwrap();
    op.advance_right(Frontier { lower: 1, open: true }).unwrap();
    assert_eq!(op.out_frontier(), Frontier { lower: 1, open: true });
    assert_eq!(
        op.advance_left(Frontier { lower: 2, open: true }),
        Err(EngineError::FrontierRegression)
    );
}

#[test]
fn session_rejects_misuse() {
    let mut s = InputSession::new();
    s.insert(1, tval("a")).unwrap();
    assert_eq!(s.advance_to(0), Err(EngineError::FrontierRegression));
    s.advance_to(2).unwrap();
    s.close();
    assert_eq!(s.insert(2, tval("b")), Err(EngineError::HandleClosed));
    assert_eq!(s.retract(1, tval("a")), Err(EngineError::HandleClosed));
    assert_eq!(s.advance_to(5), Err(EngineError::HandleClosed));
    assert_eq!(s.frontier(), Frontier { lower: 2, open: false });
}

#[test]
fn mult_bound_check_flags_oversized_updates() {
    let ok = vec![entry(1, tval("a"), MULT_BOUND, 0), entry(1, tval("b"), -MULT_BOUND, 0)];
    assert!(within_mult_bound(&ok));
    let too_big = vec![entry(1, tval("a"), MULT_BOUND + 1, 0)];
    assert!(!within_mult_bound(&too_big));
}
