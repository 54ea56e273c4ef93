use sha2::{Digest, Sha256};

use zellular::errors::PullError;
use zellular::puller::{start_state, step, ChainState, PullEvent, StepResult};

fn sha(bytes: &[u8]) -> Vec<u8> {
    let mut h = Sha256::new();
    h.update(bytes);
    h.finalize().to_vec()
}

fn chain_step(prev: &[u8], batch: &[u8]) -> Vec<u8> {
    let mut buf = prev.to_vec();
    buf.extend_from_slice(&sha(batch));
    sha(&buf)
}

fn batch(s: &str) -> Vec<u8> {
    s.as_bytes().to_vec()
}

/// Drives the machine over a scripted sequence of responses; panics if the
/// script ends while the machine still polls.
fn run(mut st: ChainState, events: Vec<PullEvent>) -> StepResult {
    for ev in events {
        match step(st, ev) {
            StepResult::Continue(next) => {
                st = next;
            },
            done => {
                return done;
            },
        }
    }
    StepResult::Continue(st)
}

#[test]
fn reaches_finality_with_expected_chain() {
    let st = start_state(0, None);
    assert_eq!(st.next_index, -1);
    let events = vec![PullEvent::Data {
        batches: vec![batch("tx-a"), batch("tx-b")],
        finalized: Some(1),
    }];
    match run(st, events) {
        StepResult::Done { rolling_hash, batches, final_index } => {
            let expected = chain_step(&chain_step(&[], b"tx-a"), b"tx-b");
            assert_eq!(rolling_hash, expected);
            assert_eq!(batches, vec![batch("tx-a"), batch("tx-b")]);
            assert_eq!(final_index, 1);
        },
        _ => panic!("expected Done"),
    }
}

#[test]
fn same_responses_give_identical_hash() {
    // Chain-hash determinism: two runs over the same fixed response script
    // return the same rolling hash and batches.
    let script = || {
        vec![
            PullEvent::Data { batches: vec![batch("a")], finalized: None },
            PullEvent::Data { batches: vec![batch("b"), batch("c")], finalized: Some(2) },
        ]
    };
    let r1 = run(start_state(0, None), script());
    let r2 = run(start_state(0, None), script());
    match (r1, r2) {
        (
            StepResult::Done { rolling_hash: h1, batches: b1, final_index: f1 },
            StepResult::Done { rolling_hash: h2, batches: b2, final_index: f2 },
        ) => {
            assert_eq!(h1, h2);
            assert_eq!(b1, b2);
            assert_eq!(f1, f2);
        },
        _ => panic!("expected two Done results"),
    }
}

#[test]
fn no_data_responses_do_not_affect_the_chain() {
    // "Not yet available" any number of times before real data changes
    // nothing about the outcome.
    let quiet = vec![
        PullEvent::NoData,
        PullEvent::NoData,
        PullEvent::NoData,
        PullEvent::Data { batches: vec![batch("x"), batch("y")], finalized: Some(1) },
    ];
    let direct = vec![PullEvent::Data {
        batches: vec![batch("x"), batch("y")],
        finalized: Some(1),
    }];
    match (run(start_state(0, None), quiet), run(start_state(0, None), direct)) {
        (
            StepResult::Done { rolling_hash: h1, batches: b1, .. },
            StepResult::Done { rolling_hash: h2, batches: b2, .. },
        ) => {
            assert_eq!(h1, h2);
            assert_eq!(b1, b2);
        },
        _ => panic!("expected two Done results"),
    }
}

#[test]
fn resumed_pull_matches_uninterrupted_pull() {
    // One continuous batch run split at an intermediate finality pointer,
    // resumed from the returned (hash, index) pair, ends with the chain of a
    // single uninterrupted pull.
    let single = vec![PullEvent::Data {
        batches: vec![batch("a"), batch("b"), batch("c"), batch("d")],
        finalized: Some(3),
    }];
    let (h_single, b_single) = match run(start_state(0, None), single) {
        StepResult::Done { rolling_hash, batches, .. } => (rolling_hash, batches),
        _ => panic!("expected Done"),
    };

    let first = vec![PullEvent::Data {
        batches: vec![batch("a"), batch("b")],
        finalized: Some(1),
    }];
    let (h1, mut b1, f1) = match run(start_state(0, None), first) {
        StepResult::Done { rolling_hash, batches, final_index } => {
            (rolling_hash, batches, final_index)
        },
        _ => panic!("expected Done"),
    };
    let second = vec![PullEvent::Data {
        batches: vec![batch("c"), batch("d")],
        finalized: Some(3),
    }];
    let (h2, b2) = match run(start_state(f1, Some(h1)), second) {
        StepResult::Done { rolling_hash, batches, .. } => (rolling_hash, batches),
        _ => panic!("expected Done"),
    };
    b1.extend(b2);
    assert_eq!(h2, h_single);
    assert_eq!(b1, b_single);
}

#[test]
fn finality_pointer_behind_consumed_index_is_fatal() {
    let st = ChainState { next_index: 5, rolling_hash: vec![], batches: vec![] };
    let ev = PullEvent::Data { batches: vec![batch("late")], finalized: Some(3) };
    match step(st, ev) {
        StepResult::Failed(e) => assert_eq!(e, PullError::FinalityPointerRegression),
        _ => panic!("expected Failed"),
    }
}

#[test]
fn batches_past_the_finality_pointer_are_not_consumed() {
    let events = vec![PullEvent::Data {
        batches: vec![batch("a"), batch("b"), batch("c")],
        finalized: Some(0),
    }];
    match run(start_state(0, None), events) {
        StepResult::Done { batches, final_index, .. } => {
            assert_eq!(batches, vec![batch("a")]);
            assert_eq!(final_index, 0);
        },
        _ => panic!("expected Done"),
    }
}

#[test]
fn no_data_keeps_polling_from_the_same_state() {
    let st = start_state(7, Some(vec![1, 2, 3]));
    match step(st, PullEvent::NoData) {
        StepResult::Continue(next) => {
            assert_eq!(next.next_index, 7);
            assert_eq!(next.rolling_hash, vec![1, 2, 3]);
            assert!(next.batches.is_empty());
        },
        _ => panic!("expected Continue"),
    }
}
