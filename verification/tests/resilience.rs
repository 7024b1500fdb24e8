use kernelflow::error::{KernelError, KernelResult};
use kernelflow::resilience::{check_admission, CircuitBreaker, ResilienceConfig, Retry, RetryDecision};

/// Drive the retry bookkeeping around `f` the way the executor does,
/// without sleeping; returns the outcome and the sleeps requested.
fn drive<T>(cfg: &ResilienceConfig, mut f: impl FnMut() -> KernelResult<T>) -> (KernelResult<T>, Vec<u64>) {
    let mut retry = Retry::start(cfg);
    let mut sleeps = Vec::new();
    loop {
        match f() {
            Ok(v) => return (Ok(v), sleeps),
            Err(e) => match retry.on_error() {
                RetryDecision::GiveUp => return (Err(e), sleeps),
                RetryDecision::RetryAfter(ms) => sleeps.push(ms),
            },
        }
    }
}

#[test]
fn retries_then_succeeds() {
    let cfg = ResilienceConfig { max_retries: 3, initial_backoff: 1, ..Default::default() };
    let mut calls = 0u32;
    let (r, _) = drive(&cfg, || {
        let n = calls;
        calls += 1;
        if n < 2 { Err(KernelError::Network("x".into())) } else { Ok(42u32) }
    });
    assert_eq!(r.unwrap(), 42);
    assert_eq!(calls, 3);
}

#[test]
fn backoff_doubles_and_caps() {
    let cfg = ResilienceConfig { max_retries: 6, initial_backoff: 100, max_backoff: 500, ..Default::default() };
    let mut calls = 0u32;
    let (r, sleeps) = drive(&cfg, || -> KernelResult<()> {
        calls += 1;
        Err(KernelError::Network("down".into()))
    });
    assert!(matches!(r, Err(KernelError::Network(_))));
    assert_eq!(calls, 6);
    assert_eq!(sleeps, vec![100, 200, 400, 500, 500]);
}

#[test]
fn zero_retries_still_makes_one_attempt() {
    let cfg = ResilienceConfig { max_retries: 0, ..Default::default() };
    let mut calls = 0u32;
    let (r, sleeps) = drive(&cfg, || -> KernelResult<()> {
        calls += 1;
        Err(KernelError::Timeout(10))
    });
    assert!(matches!(r, Err(KernelError::Timeout(10))));
    assert_eq!(calls, 1);
    assert!(sleeps.is_empty());
}

#[test]
fn breaker_opens_after_threshold_and_recovers_after_cooldown() {
    let mut b = CircuitBreaker::new(2, 1_000);
    assert!(b.allow(0));
    b.on_failure(10);
    assert!(b.allow(11));
    b.on_failure(20);
    assert_eq!(b.open_until, Some(1_020));
    assert!(!b.allow(500));
    assert!(!b.allow(1_019));
    assert!(b.allow(1_020));
    assert_eq!(b.failures, 0);
    b.on_failure(2_000);
    b.on_success();
    b.on_failure(2_001);
    assert!(b.allow(2_002));
}

#[test]
fn admission_checks_rate_limit_before_breaker() {
    let mut b = CircuitBreaker::new(1, 100);
    b.on_failure(0);
    assert!(matches!(check_admission(&mut b, true, 5), Err(KernelError::RateLimited)));
    assert!(matches!(check_admission(&mut b, false, 5), Err(KernelError::CircuitOpen)));
    assert!(check_admission(&mut b, false, 100).is_ok());
}

#[test]
fn default_config_values() {
    let c = ResilienceConfig::default();
    assert_eq!(c.timeout, 30_000);
    assert_eq!(c.initial_backoff, 100);
    assert_eq!(c.max_backoff, 5_000);
    assert_eq!(c.rps, 1000);
    assert_eq!(c.circuit_threshold, 5);
    assert_eq!(c.circuit_cooldown, 10_000);
    assert_eq!(ResilienceConfig { rps: 0, ..Default::default() }.effective_rps(), 1);
}
