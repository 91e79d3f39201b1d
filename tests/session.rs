use n2c_sync::{
    compute_backoff_delay, do_chainsync, handshake_outcome, intersection_outcome, network_magic,
    AttemptError, FatalCause, HandshakeReply, Point, RetryDecision, RetryPolicy, RetryState,
};

fn policy(max_attempts: u32, max_backoff_ms: u64) -> RetryPolicy {
    RetryPolicy { max_attempts, backoff_unit_ms: 1000, backoff_factor: 2, max_backoff_ms }
}

fn transient() -> Result<(), AttemptError> {
    Err(AttemptError::Recoverable("connection reset".to_string()))
}

#[test]
fn three_recoverable_failures_back_off_then_fail() {
    let p = policy(3, 60_000);
    let mut state = RetryState::new();
    assert!(matches!(do_chainsync(&p, &mut state, transient()), RetryDecision::BackOff(1000)));
    assert!(matches!(do_chainsync(&p, &mut state, transient()), RetryDecision::BackOff(2000)));
    match do_chainsync(&p, &mut state, transient()) {
        RetryDecision::Fail(m) => assert_eq!(m, "connection reset"),
        other => panic!("unexpected decision {:?}", other),
    }
    assert_eq!(compute_backoff_delay(&p, 2), 4000);
}

#[test]
fn backoff_is_capped() {
    let p = policy(10, 3000);
    assert_eq!(compute_backoff_delay(&p, 0), 1000);
    assert_eq!(compute_backoff_delay(&p, 1), 2000);
    assert_eq!(compute_backoff_delay(&p, 2), 3000);
    assert_eq!(compute_backoff_delay(&p, 63), 3000);
    let mut state = RetryState::new();
    let mut delays = Vec::new();
    for _ in 0..4 {
        match do_chainsync(&p, &mut state, transient()) {
            RetryDecision::BackOff(d) => delays.push(d),
            other => panic!("unexpected decision {:?}", other),
        }
    }
    assert_eq!(delays, vec![1000, 2000, 3000, 3000]);
}

#[test]
fn backoff_with_zero_factor() {
    let p = RetryPolicy { max_attempts: 5, backoff_unit_ms: 700, backoff_factor: 0, max_backoff_ms: 60_000 };
    assert_eq!(compute_backoff_delay(&p, 0), 700);
    assert_eq!(compute_backoff_delay(&p, 1), 0);
}

#[test]
fn fatal_failure_stops_without_retry() {
    let p = policy(3, 60_000);
    let mut state = RetryState::new();
    let r = do_chainsync(&p, &mut state, Err(AttemptError::Other(FatalCause::NoIntersection)));
    assert!(matches!(r, RetryDecision::Done));
    assert_eq!(state.failures, 0);
}

#[test]
fn clean_stop_is_done() {
    let p = policy(3, 60_000);
    let mut state = RetryState::new();
    assert!(matches!(do_chainsync(&p, &mut state, Ok(())), RetryDecision::Done));
}

#[test]
fn single_attempt_policy_fails_at_once() {
    let p = policy(1, 60_000);
    let mut state = RetryState::new();
    assert!(matches!(do_chainsync(&p, &mut state, transient()), RetryDecision::Fail(_)));
}

#[test]
fn magic_defaults_to_mainnet() {
    assert_eq!(network_magic(None), 764824073);
    assert_eq!(network_magic(Some(2)), 2);
}

#[test]
fn handshake_classification() {
    assert!(handshake_outcome(HandshakeReply::Accepted).is_ok());
    assert!(matches!(
        handshake_outcome(HandshakeReply::Refused),
        Err(AttemptError::Other(FatalCause::HandshakeRefused))
    ));
    match handshake_outcome(HandshakeReply::TransportError("eof".to_string())) {
        Err(AttemptError::Recoverable(m)) => assert_eq!(m, "eof"),
        other => panic!("unexpected outcome {:?}", other),
    }
}

#[test]
fn intersection_classification() {
    match intersection_outcome(Ok(Some(Point::Specific(9, vec![1, 2])))) {
        Ok(Point::Specific(9, h)) => assert_eq!(h, vec![1, 2]),
        other => panic!("unexpected outcome {:?}", other),
    }
    assert!(matches!(
        intersection_outcome(Ok(None)),
        Err(AttemptError::Other(FatalCause::NoIntersection))
    ));
    assert!(matches!(intersection_outcome(Err("timeout".to_string())), Err(AttemptError::Recoverable(_))));
}
