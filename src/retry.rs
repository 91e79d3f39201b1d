use vstd::prelude::*;
use crate::point::AttemptError;

verus! {

/// `b` raised to the power `e`.
pub open spec fn pow(b: int, e: nat) -> int
    decreases e,
{
    if e == 0 { 1 } else { b * pow(b, (e - 1) as nat) }
}

/// How failed attempts are retried. Delays are in milliseconds.
#[derive(Debug, Clone, Copy)]
pub struct RetryPolicy {
    /// Attempts made in all before giving up.
    pub max_attempts: u32,
    /// Delay before the first retry.
    pub backoff_unit_ms: u64,
    /// Growth of the delay from one retry to the next.
    pub backoff_factor: u64,
    /// Ceiling of every delay.
    pub max_backoff_ms: u64,
}

/// The delay before retry number `retry` (from zero): the unit times the
/// factor to the power `retry`, capped at the maximum.
pub open spec fn backoff_delay(p: RetryPolicy, retry: nat) -> int {
    let d = p.backoff_unit_ms * pow(p.backoff_factor as int, retry);
    if d <= p.max_backoff_ms { d } else { p.max_backoff_ms as int }
}

proof fn lemma_pow_nonneg(b: int, e: nat)
    requires
        b >= 0,
    ensures
        pow(b, e) >= 0,
    decreases e,
{
    if e > 0 {
        lemma_pow_nonneg(b, (e - 1) as nat);
        assert(b * pow(b, (e - 1) as nat) >= 0) by (nonlinear_arith)
            requires b >= 0, pow(b, (e - 1) as nat) >= 0;
    }
}

/// Computes `backoff_delay` without overflow.
pub fn compute_backoff_delay(policy: &RetryPolicy, retry: u32) -> (r: u64)
    ensures
        r == backoff_delay(*policy, retry as nat),
{
    let unit = policy.backoff_unit_ms;
    let f = policy.backoff_factor;
    let max = policy.max_backoff_ms;
    if f == 0 && retry > 0 {
        assert(pow(0, retry as nat) == 0);
        assert(unit * pow(f as int, retry as nat) == 0);
        return 0;
    }
    let mut cur: u64 = unit;
    let mut over = false;
    let mut i: u32 = 0;
    assert(pow(f as int, 0) == 1);
    while i < retry
        invariant
            f >= 1 || retry == 0,
            i <= retry,
            !over ==> cur == unit * pow(f as int, i as nat),
            over ==> unit * pow(f as int, i as nat) > max,
        decreases retry - i,
    {
        let ghost prev = unit * pow(f as int, i as nat);
        proof {
            lemma_pow_nonneg(f as int, i as nat);
            assert(unit * pow(f as int, (i + 1) as nat) == prev * f) by (nonlinear_arith)
                requires
                    pow(f as int, (i + 1) as nat) == f * pow(f as int, i as nat),
                    prev == unit * pow(f as int, i as nat);
        }
        if !over {
            match cur.checked_mul(f) {
                Some(v) => {
                    cur = v;
                },
                None => {
                    over = true;
                },
            }
        } else {
            assert(prev * f > max) by (nonlinear_arith)
                requires prev > max, f >= 1, max >= 0;
        }
        i = i + 1;
    }
    if over || cur > max {
        max
    } else {
        cur
    }
}

/// Consecutive recoverable failures so far.
#[derive(Debug)]
pub struct RetryState {
    pub failures: u32,
}

impl RetryState {
    pub fn new() -> (r: RetryState)
        ensures
            r.failures == 0,
    {
        RetryState { failures: 0 }
    }
}

/// What to do after an attempt.
#[derive(Debug)]
pub enum RetryDecision {
    /// The sync is over: it stopped cleanly, or failed in a way that retrying
    /// cannot fix.
    Done,
    /// Wait this many milliseconds, then make another attempt.
    BackOff(u64),
    /// Attempts are exhausted: the failure goes to the caller.
    Fail(String),
}

/// Decides, from the outcome of one attempt, whether the chain sync is done,
/// is retried after a delay, or fails for good.
pub fn do_chainsync(policy: &RetryPolicy, state: &mut RetryState, outcome: Result<(), AttemptError>) -> (r: RetryDecision)
    ensures
        match outcome {
            Ok(()) => r is Done && final(state).failures == old(state).failures,
            Err(AttemptError::Other(_)) => r is Done && final(state).failures == old(state).failures,
            Err(AttemptError::Recoverable(m)) => if old(state).failures + 1 < policy.max_attempts {
                &&& r is BackOff
                &&& r->BackOff_0 == backoff_delay(*policy, old(state).failures as nat)
                &&& final(state).failures == old(state).failures + 1
            } else {
                &&& r is Fail
                &&& r->Fail_0@ == m@
                &&& final(state).failures == old(state).failures
            },
        },
{
    match outcome {
        Ok(()) => RetryDecision::Done,
        Err(AttemptError::Other(_)) => RetryDecision::Done,
        Err(AttemptError::Recoverable(m)) => {
            if (state.failures as u64) + 1 < policy.max_attempts as u64 {
                let delay = compute_backoff_delay(policy, state.failures);
                state.failures = state.failures + 1;
                RetryDecision::BackOff(delay)
            } else {
                RetryDecision::Fail(m)
            }
        },
    }
}

} // verus!
