use xiaomi_proxy::config::DownstreamKeyConfig;
use xiaomi_proxy::error::AppError;
use xiaomi_proxy::proxy::key_pool::KeyPool;
use xiaomi_proxy::proxy::retry::{
    calculate_delay, delay_is_defined, is_retryable, is_success, AttemptOutcome, RetryState,
    RetryStep,
};

fn pool() -> KeyPool {
    KeyPool::new(&[DownstreamKeyConfig { key: "k1".to_string(), weight: 1 }])
}

#[test]
fn retryable_statuses() {
    for s in [429u16, 502, 503, 504] {
        assert!(is_retryable(s));
    }
    for s in [200u16, 400, 401, 404, 500, 501, 505] {
        assert!(!is_retryable(s));
    }
}

#[test]
fn success_statuses() {
    assert!(is_success(200) && is_success(204) && is_success(299));
    assert!(!is_success(199) && !is_success(300) && !is_success(503));
}

#[test]
fn delays_stay_within_a_quarter_of_the_exponential() {
    for _ in 0..200 {
        let d0 = calculate_delay(500, 0);
        assert!((375..=625).contains(&d0), "{d0}");
        let d3 = calculate_delay(500, 3);
        assert!((3000..=5000).contains(&d3), "{d3}");
        let z = calculate_delay(0, 10);
        assert_eq!(z, 0);
    }
}

#[test]
fn delays_vary() {
    let first = calculate_delay(1_000_000, 0);
    let differs = (0..200).any(|_| calculate_delay(1_000_000, 0) != first);
    assert!(differs);
}

#[test]
fn delay_definedness() {
    assert!(delay_is_defined(500, 3));
    assert!(delay_is_defined(1, 62));
    assert!(!delay_is_defined(1, 64));
    assert!(!delay_is_defined(u64::MAX, 1));
    assert!(delay_is_defined(u64::MAX / 2, 0));
}

#[test]
fn success_ends_the_request() {
    let mut p = pool();
    let mut r = RetryState::new(3, 500);
    let k = p.acquire_key().ok().unwrap();
    let (step, cooldown) = r.on_outcome(&mut p, &k, AttemptOutcome::Status(200));
    assert!(matches!(step, RetryStep::Done));
    assert!(cooldown.is_none());
    assert_eq!(r.attempt, 0);
}

#[test]
fn final_client_errors_are_not_retried() {
    let mut p = pool();
    let mut r = RetryState::new(3, 500);
    let k = p.acquire_key().ok().unwrap();
    p.report_failure(&k);
    let (step, _) = r.on_outcome(&mut p, &k, AttemptOutcome::Status(404));
    assert!(matches!(step, RetryStep::Done));
    // counted as a success of the key: its run of errors is reset
    assert_eq!(p.key_stats()[0].consecutive_errors, 0);
}

#[test]
fn retryable_outcomes_are_retried_then_given_up() {
    let mut p = pool();
    let mut r = RetryState::new(2, 100);
    let mut steps = Vec::new();
    loop {
        let k = match p.acquire_key() {
            Ok(k) => k,
            Err(e) => {
                steps.push(format!("err {}", e.message()));
                break;
            }
        };
        let outcome = if steps.is_empty() {
            AttemptOutcome::Failed("connection reset".to_string())
        } else {
            AttemptOutcome::Status(503)
        };
        let (step, cooldown) = r.on_outcome(&mut p, &k, outcome);
        match step {
            RetryStep::Done => {
                steps.push("done".to_string());
                break;
            }
            RetryStep::RetryAfter(d) => steps.push(format!("retry {} {}", d >= 75 && d <= 125 || d >= 150 && d <= 250, cooldown.is_some())),
            RetryStep::GiveUp(_, e) => {
                steps.push(format!("give up {} {}", e.message(), cooldown.is_some()));
                break;
            }
        }
    }
    assert_eq!(
        steps,
        vec![
            "retry true false".to_string(),
            "retry true false".to_string(),
            "give up Downstream error: HTTP 503 true".to_string(),
        ]
    );
    assert_eq!(r.attempt, 2);
}

#[test]
fn no_retries_means_one_attempt() {
    let mut p = pool();
    let mut r = RetryState::new(0, 100);
    let k = p.acquire_key().ok().unwrap();
    let (step, _) = r.on_outcome(&mut p, &k, AttemptOutcome::Failed("timeout".to_string()));
    match step {
        RetryStep::GiveUp(d, AppError::Downstream(m)) => {
            assert_eq!(m, "timeout");
            assert!((75..=125).contains(&d));
        }
        _ => panic!("expected to give up"),
    }
}
