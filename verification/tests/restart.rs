use keepalive::binary64::Binary64;
use keepalive::restart::{decide, Config, Decision, RestartPolicy, RestartState};
use keepalive::time::Duration;

fn config(policy: RestartPolicy, max_restarts: Option<u32>) -> Config {
    Config {
        policy,
        max_restarts,
        backoff_base: Duration::from_secs(1),
        backoff_max: Duration::from_secs(60),
        backoff_multiplier: Binary64::from_bits(2.0f64.to_bits()),
        reset_after: Duration::from_secs(60),
    }
}

#[test]
fn on_failure_stops_after_clean_exit() {
    let mut state = RestartState::default();
    let c = config(RestartPolicy::OnFailure, None);
    let d = decide(&mut state, true, Duration::from_secs(5), &c);
    assert_eq!(d, Decision::Stop);
}

#[test]
fn on_failure_restarts_after_nonzero_exit() {
    let mut state = RestartState::default();
    let c = config(RestartPolicy::OnFailure, None);
    let d = decide(&mut state, false, Duration::from_secs(5), &c);
    assert_eq!(d, Decision::Restart(Duration::from_secs(1)));
}

#[test]
fn always_restarts_even_after_clean_exit() {
    let mut state = RestartState::default();
    let c = config(RestartPolicy::Always, None);
    let d = decide(&mut state, true, Duration::from_secs(5), &c);
    assert_eq!(d, Decision::Restart(Duration::from_secs(1)));
}

#[test]
fn backoff_grows_across_consecutive_short_lived_failures() {
    let mut state = RestartState::default();
    let c = config(RestartPolicy::OnFailure, None);
    let short = Duration::from_millis(10); // well under reset_after

    let d1 = decide(&mut state, false, short, &c);
    let d2 = decide(&mut state, false, short, &c);
    let d3 = decide(&mut state, false, short, &c);

    assert_eq!(d1, Decision::Restart(Duration::from_secs(1)));
    assert_eq!(d2, Decision::Restart(Duration::from_secs(2)));
    assert_eq!(d3, Decision::Restart(Duration::from_secs(4)));
}

#[test]
fn a_stable_run_resets_backoff_to_base() {
    let mut state = RestartState::default();
    let c = config(RestartPolicy::OnFailure, None);
    let short = Duration::from_millis(10);

    decide(&mut state, false, short, &c); // consecutive_failures = 1
    decide(&mut state, false, short, &c); // consecutive_failures = 2

    // This run stayed up past reset_after before eventually crashing.
    let long = Duration::from_secs(120);
    let d = decide(&mut state, false, long, &c);

    assert_eq!(d, Decision::Restart(Duration::from_secs(1)));
    assert_eq!(state.consecutive_failures(), 1);
}

#[test]
fn max_restarts_gives_up_once_exceeded() {
    let mut state = RestartState::default();
    let c = config(RestartPolicy::OnFailure, Some(2));
    let short = Duration::from_millis(10);

    assert!(matches!(
        decide(&mut state, false, short, &c),
        Decision::Restart(_)
    ));
    assert!(matches!(
        decide(&mut state, false, short, &c),
        Decision::Restart(_)
    ));
    assert_eq!(decide(&mut state, false, short, &c), Decision::GiveUp);
}

#[test]
fn total_restarts_counts_every_attempt_even_across_resets() {
    let mut state = RestartState::default();
    let c = config(RestartPolicy::OnFailure, None);
    decide(&mut state, false, Duration::from_secs(120), &c);
    decide(&mut state, false, Duration::from_secs(120), &c);
    assert_eq!(state.total_restarts(), 2);
    // Both runs were "stable" (past reset_after), so backoff stayed at base each time.
    assert_eq!(state.consecutive_failures(), 1);
}

#[test]
fn max_restarts_zero_gives_up_on_first_failure() {
    let mut state = RestartState::default();
    let c = config(RestartPolicy::OnFailure, Some(0));
    let d = decide(&mut state, false, Duration::from_millis(10), &c);
    assert_eq!(d, Decision::GiveUp);
}

#[test]
fn a_run_of_exactly_reset_after_is_stable() {
    let mut state = RestartState::default();
    let c = config(RestartPolicy::OnFailure, None);
    decide(&mut state, false, Duration::from_millis(10), &c);
    let d = decide(&mut state, false, Duration::from_secs(60), &c);
    assert_eq!(d, Decision::Restart(Duration::from_secs(1)));
    let d = decide(&mut state, false, Duration::from_nanos(59_999_999_999), &c);
    assert_eq!(d, Decision::Restart(Duration::from_secs(2)));
}

#[test]
fn a_clean_stop_counts_nothing() {
    let mut state = RestartState::default();
    let c = config(RestartPolicy::OnFailure, Some(1));
    decide(&mut state, false, Duration::from_millis(10), &c);
    decide(&mut state, true, Duration::from_secs(5), &c);
    assert_eq!(state.total_restarts(), 1);
    assert_eq!(state.consecutive_failures(), 1);
}

#[test]
fn giving_up_counts_the_restart_that_was_not_made() {
    let mut state = RestartState::default();
    let c = config(RestartPolicy::Always, Some(0));
    assert_eq!(decide(&mut state, true, Duration::from_secs(5), &c), Decision::GiveUp);
    assert_eq!(state.total_restarts(), 1);
    assert_eq!(state.consecutive_failures(), 0);
}

#[test]
fn without_a_limit_restarts_go_on() {
    let mut state = RestartState::default();
    let c = config(RestartPolicy::OnFailure, None);
    for n in 1..=100 {
        let d = decide(&mut state, false, Duration::from_millis(10), &c);
        assert!(matches!(d, Decision::Restart(_)));
        assert_eq!(state.total_restarts(), n);
    }
    assert_eq!(
        decide(&mut state, false, Duration::from_millis(10), &c),
        Decision::Restart(Duration::from_secs(60))
    );
}
