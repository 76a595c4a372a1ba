use causal_gossip::guard::DEFAULT_DRIFT_LIMIT;
use causal_gossip::{AdmitError, Candidate, LClock, State};

fn node(index: u32, n_peers: u32) -> State {
    State::new(index, n_peers, DEFAULT_DRIFT_LIMIT, Vec::new())
}

#[test]
fn replay_rejection() {
    let mut s = node(2, 2);
    assert_eq!(s.accept(1, 10, "first".to_string()), Ok(()));
    assert_eq!(
        s.accept(1, 10, "again".to_string()),
        Err(AdmitError::TimestampReused)
    );
}

#[test]
fn regression_rejection() {
    let mut s = node(2, 2);
    assert_eq!(s.accept(1, 10, "first".to_string()), Ok(()));
    assert_eq!(
        s.accept(1, 8, "older".to_string()),
        Err(AdmitError::TimestampReused)
    );
}

#[test]
fn future_drift_rejection() {
    let mut s = node(2, 2);
    assert_eq!(s.accept(2, 12, "base".to_string()), Ok(()));
    assert_eq!(
        s.accept(1, 1000, "far ahead".to_string()),
        Err(AdmitError::FutureTimestamp)
    );
    assert_eq!(s.accept(1, 12, "close".to_string()), Ok(()));
}

#[test]
fn adversary_session() {
    let mut s = node(0, 0);
    assert_eq!(s.accept(99, 10, "hello".to_string()), Ok(()));
    assert_eq!(
        s.accept(99, 10, "rewrite history".to_string()),
        Err(AdmitError::TimestampReused)
    );
    assert_eq!(
        s.accept(99, 8, "go back in time".to_string()),
        Err(AdmitError::TimestampReused)
    );
    assert_eq!(
        s.accept(99, 1000, "from the future".to_string()),
        Err(AdmitError::FutureTimestamp)
    );
    assert_eq!(s.accept(99, 12, "valid next".to_string()), Ok(()));
}

#[test]
fn monotonic_per_sender() {
    let mut s = node(2, 2);
    assert_eq!(s.accept(1, 3, "a".to_string()), Ok(()));
    assert_eq!(s.accept(1, 5, "b".to_string()), Ok(()));
    assert_eq!(
        s.accept(1, 4, "c".to_string()),
        Err(AdmitError::TimestampReused)
    );
    assert_eq!(s.latest.get(1), Some(5));
}

#[test]
fn clock_advances_past_observation() {
    let mut s = node(0, 0);
    assert_eq!(s.clock.value, 0);
    assert_eq!(s.accept(99, 7, "tick".to_string()), Ok(()));
    assert_eq!(s.clock.value, 8);
    assert_eq!(s.latest.get(99), Some(7));
}

#[test]
fn missing_clock_rejected_without_mutation() {
    let mut s = node(2, 2);
    let r = s.accept_candidate(Candidate {
        clock: None,
        content: "no stamp".to_string(),
    });
    assert_eq!(r, Err(AdmitError::MissingClock));
    assert_eq!(s.clock.value, 0);
    assert_eq!(s.buffer.len(), 0);
    assert_eq!(s.latest.get(0), None);
}

#[test]
fn stamped_candidate_admitted() {
    let mut s = node(2, 2);
    let r = s.accept_candidate(Candidate {
        clock: Some(LClock {
            sender: 1,
            timestamp: 4,
        }),
        content: "stamped".to_string(),
    });
    assert_eq!(r, Ok(()));
    assert_eq!(s.latest.get(1), Some(4));
    assert_eq!(s.buffer.len(), 1);
}

#[test]
fn delivery_safety_boundary() {
    // Two peers (ids 0, 1) plus self (id 2); watermarks {0: 15, 1: 20, 2: 10}.
    let mut s = node(2, 2);
    assert_eq!(s.accept(1, 10, "head".to_string()), Ok(()));
    assert_eq!(s.accept(0, 15, "p0".to_string()), Ok(()));
    assert_eq!(s.accept(1, 20, "p1".to_string()), Ok(()));
    assert_eq!(s.accept(2, 10, "self".to_string()), Ok(()));
    // Head is (ts=10, sender=1): id 2's watermark is 10, not > 10, so the
    // head must wait.
    assert!(!s.head_deliverable());
    assert!(s.pop_deliverable().is_none());
    assert_eq!(s.buffer.len(), 4);
}

#[test]
fn delivery_safety_release() {
    let mut s = node(2, 2);
    assert_eq!(s.accept(0, 15, "p0".to_string()), Ok(()));
    assert_eq!(s.accept(1, 20, "p1".to_string()), Ok(()));
    assert_eq!(s.accept(2, 10, "self".to_string()), Ok(()));
    // Head is (ts=10, sender=2): trivially fine for id 2, and 15 > 10,
    // 20 > 10 for the others.
    assert!(s.head_deliverable());
    let m = s.pop_deliverable().expect("head was deliverable");
    assert_eq!((m.sender, m.timestamp), (2, 10));
    assert_eq!(m.content, "self");
}

#[test]
fn idempotent_delivery() {
    let mut s = node(2, 2);
    assert_eq!(s.accept(0, 15, "p0".to_string()), Ok(()));
    assert_eq!(s.accept(1, 20, "p1".to_string()), Ok(()));
    assert_eq!(s.accept(2, 10, "self".to_string()), Ok(()));
    assert_eq!(s.buffer.len(), 3);
    let m = s.pop_deliverable().expect("head was deliverable");
    assert_eq!(s.buffer.len(), 2);
    // The delivered pair can never be admitted again.
    assert_eq!(
        s.accept(m.sender, m.timestamp, m.content),
        Err(AdmitError::TimestampReused)
    );
    assert_eq!(s.buffer.len(), 2);
}

fn delivered(s: &mut State) -> Vec<(u32, u64, String)> {
    s.drain_deliverable()
        .into_iter()
        .map(|m| (m.sender, m.timestamp, m.content))
        .collect()
}

#[test]
fn total_order_agreement() {
    let batch = [
        (0u32, 5u64, "a"),
        (1, 6, "b"),
        (2, 7, "c"),
        (0, 8, "d"),
        (1, 9, "e"),
        (2, 10, "f"),
    ];
    let mut one = node(2, 2);
    for (sender, ts, body) in batch.iter() {
        assert_eq!(one.accept(*sender, *ts, body.to_string()), Ok(()));
    }
    // The same messages in another arrival order, per-sender order kept.
    let other_order = [2usize, 0, 3, 1, 5, 4];
    let mut two = node(2, 2);
    for i in other_order.iter() {
        let (sender, ts, body) = batch[*i];
        assert_eq!(two.accept(sender, ts, body.to_string()), Ok(()));
    }
    let d1 = delivered(&mut one);
    let d2 = delivered(&mut two);
    assert_eq!(d1, d2);
    assert_eq!(d1.len(), 4);
    assert_eq!(d1[0], (0, 5, "a".to_string()));
    assert_eq!(d1[3], (0, 8, "d".to_string()));
    // The head left behind, (ts=9, sender=1), still waits on id 0.
    assert_eq!(one.buffer.len(), 2);
    assert!(!one.head_deliverable());
}

#[test]
fn generator_stamps_and_buffers() {
    let words = vec!["alpha".to_string()];
    let mut s = State::new(0, 0, DEFAULT_DRIFT_LIMIT, words);
    let m = s.generate();
    assert_eq!((m.sender, m.timestamp), (0, 1));
    assert_eq!(m.content, "alpha");
    assert_eq!(s.clock.value, 1);
    assert_eq!(s.latest.get(0), Some(1));
    assert_eq!(s.buffer.len(), 1);
    let m2 = s.generate();
    assert_eq!(m2.timestamp, 2);
    // With no other nodes in the population, both heads may be released.
    let out = s.drain_deliverable();
    assert_eq!(out.len(), 2);
    assert_eq!(s.buffer.len(), 0);
}

#[test]
fn generator_draws_from_pool() {
    let words = vec!["w0".to_string(), "w1".to_string(), "w2".to_string()];
    let mut s = State::new(1, 1, DEFAULT_DRIFT_LIMIT, words.clone());
    for _ in 0..16 {
        let m = s.generate();
        assert!(words.contains(&m.content));
    }
}
