use keepalive::binary64::Binary64;
use keepalive::restart::{Config, RestartPolicy};
use keepalive::supervisor::{describe_status, next_sleep, Begin, End, Supervisor};
use keepalive::time::Duration;

fn fast_config(policy: RestartPolicy, max_restarts: Option<u32>) -> Config {
    Config {
        policy,
        max_restarts,
        backoff_base: Duration::from_millis(10),
        backoff_max: Duration::from_millis(200),
        backoff_multiplier: Binary64::from_bits(2.0f64.to_bits()),
        reset_after: Duration::from_secs(30),
    }
}

/// Supervises a child whose runs all end alike, and returns the banners, the
/// number of starts and the exit code.
fn supervise(config: Config, code: Option<i32>) -> (Vec<String>, u32, i32) {
    let mut supervisor = Supervisor::new("job", config);
    let mut banners = Vec::new();
    let mut starts = 0;
    loop {
        match supervisor.begin(false) {
            Begin::Exit { banner, code } => {
                banners.push(banner);
                return (banners, starts, code);
            }
            Begin::Start { banner } => banners.push(banner),
        }
        starts += 1;
        let uptime = Duration::from_millis(1500);
        banners.push(supervisor.exit_banner(1000 + starts, code, uptime));
        match supervisor.end(false, code, uptime) {
            End::Exit { banner, code } => {
                banners.push(banner);
                return (banners, starts, code);
            }
            End::Sleep { banner, .. } => banners.push(banner),
        }
    }
}

#[test]
fn a_child_that_exits_nonzero_is_restarted_up_to_the_limit() {
    let config = fast_config(RestartPolicy::OnFailure, Some(3));
    let (banners, starts, code) = supervise(config, Some(1));
    assert_eq!(starts, 4);
    assert_eq!(code, 1);
    assert_eq!(
        banners,
        vec![
            "starting 'job' (attempt 1)",
            "'job' (pid 1001) exited with code 1 after 1.500s",
            "restarting in 0.010s (consecutive failures: 1)",
            "starting 'job' (attempt 2)",
            "'job' (pid 1002) exited with code 1 after 1.500s",
            "restarting in 0.020s (consecutive failures: 2)",
            "starting 'job' (attempt 3)",
            "'job' (pid 1003) exited with code 1 after 1.500s",
            "restarting in 0.040s (consecutive failures: 3)",
            "starting 'job' (attempt 4)",
            "'job' (pid 1004) exited with code 1 after 1.500s",
            "giving up after 3 restart(s) (--max-restarts reached)",
        ]
    );
}

#[test]
fn a_child_that_exits_zero_is_not_restarted_under_on_failure() {
    let (banners, starts, code) = supervise(fast_config(RestartPolicy::OnFailure, None), Some(0));
    assert_eq!(starts, 1);
    assert_eq!(code, 0);
    assert_eq!(banners[2], "exited cleanly — stopping supervision");
}

#[test]
fn always_policy_restarts_even_a_cleanly_exiting_child() {
    let (_, starts, code) = supervise(fast_config(RestartPolicy::Always, Some(2)), Some(0));
    assert_eq!(starts, 3);
    assert_eq!(code, 1);
}

#[test]
fn a_child_killed_by_a_signal_is_restarted() {
    let (banners, starts, _) = supervise(fast_config(RestartPolicy::OnFailure, Some(1)), None);
    assert_eq!(starts, 2);
    assert_eq!(banners[1], "'job' (pid 1001) exited via signal after 1.500s");
}

#[test]
fn backoff_delays_between_attempts_grow() {
    let config = Config {
        policy: RestartPolicy::OnFailure,
        max_restarts: Some(3),
        backoff_base: Duration::from_millis(80),
        backoff_max: Duration::from_secs(5),
        backoff_multiplier: Binary64::from_bits(3.0f64.to_bits()),
        reset_after: Duration::from_secs(30),
    };
    let mut supervisor = Supervisor::new("exit 1", config);
    let mut delays = Vec::new();
    loop {
        supervisor.begin(false);
        match supervisor.end(false, Some(1), Duration::from_millis(2)) {
            End::Sleep { delay, .. } => delays.push(delay),
            _ => break,
        }
    }
    assert_eq!(
        delays,
        vec![
            Duration::from_millis(80),
            Duration::from_millis(240),
            Duration::from_millis(720),
        ]
    );
    assert_eq!(supervisor.attempt(), 4);
    assert_eq!(supervisor.total_restarts(), 4);
}

#[test]
fn shutdown_before_a_start_exits_with_zero() {
    let mut supervisor = Supervisor::new("job", fast_config(RestartPolicy::OnFailure, None));
    match supervisor.begin(true) {
        Begin::Exit { banner, code } => {
            assert_eq!(banner, "shutdown requested before starting — exiting");
            assert_eq!(code, 0);
        }
        _ => panic!("supervision goes on"),
    }
    assert_eq!(supervisor.attempt(), 0);
}

#[test]
fn shutdown_during_a_run_exits_with_its_code() {
    for (ended, expected) in [(Some(7), 7), (Some(0), 0), (None, 1)] {
        let mut supervisor = Supervisor::new("job", fast_config(RestartPolicy::OnFailure, None));
        supervisor.begin(false);
        match supervisor.end(true, ended, Duration::from_millis(200)) {
            End::Exit { banner, code } => {
                assert_eq!(banner, "shutdown requested — not restarting");
                assert_eq!(code, expected);
            }
            _ => panic!("supervision goes on"),
        }
        assert_eq!(supervisor.total_restarts(), 0);
    }
}

#[test]
fn statuses_are_described() {
    assert_eq!(describe_status(Some(0)), "with code 0");
    assert_eq!(describe_status(Some(137)), "with code 137");
    assert_eq!(describe_status(Some(-5)), "with code -5");
    assert_eq!(describe_status(Some(i32::MIN)), "with code -2147483648");
    assert_eq!(describe_status(None), "via signal");
}

#[test]
fn a_sleep_is_cut_into_stretches() {
    let mut remaining = Duration::from_millis(120);
    let mut taken = Vec::new();
    while let Some((now, left)) = next_sleep(remaining, false) {
        taken.push(now);
        remaining = left;
    }
    assert_eq!(
        taken,
        vec![
            Duration::from_millis(50),
            Duration::from_millis(50),
            Duration::from_millis(20),
        ]
    );
}

#[test]
fn a_shutdown_ends_a_sleep() {
    assert!(next_sleep(Duration::from_secs(60), true).is_none());
    assert!(next_sleep(Duration::zero(), false).is_none());
    assert_eq!(
        next_sleep(Duration::from_millis(50), false),
        Some((Duration::from_millis(50), Duration::zero()))
    );
}

#[test]
fn seconds_in_banners_are_those_of_floating_point() {
    let supervisor = Supervisor::new("x", fast_config(RestartPolicy::OnFailure, None));
    let spans: [u64; 14] = [
        0, 1, 499_999, 500_000, 500_001, 1_500_000, 62_500_000, 187_500_000, 1_001_500_000,
        1_000_500_000, 999_999_999, 59_999_500_000, 3_600_000_000_000, u64::MAX,
    ];
    for nanos in spans {
        let seconds = std::time::Duration::from_nanos(nanos).as_secs_f64();
        assert_eq!(
            supervisor.exit_banner(1, None, Duration::from_nanos(nanos as u128)),
            format!("'x' (pid 1) exited via signal after {:.3}s", seconds)
        );
    }
    let longest = std::time::Duration::new(u64::MAX, 999_999_999);
    assert_eq!(
        supervisor.exit_banner(u32::MAX, None, Duration::from_nanos(longest.as_nanos())),
        format!("'x' (pid 4294967295) exited via signal after {:.3}s", longest.as_secs_f64())
    );
}

#[test]
fn what_is_out_of_range_is_told_beforehand() {
    let config = Config {
        backoff_base: Duration::from_secs(u64::MAX),
        backoff_max: Duration::from_secs(u64::MAX),
        ..fast_config(RestartPolicy::OnFailure, None)
    };
    let supervisor = Supervisor::new("job", config);
    let uptime = Duration::zero();
    // A delay of 2^64 seconds is needed only for a restart.
    assert!(!supervisor.can_end(false, Some(1), uptime));
    assert!(!supervisor.can_end(false, None, uptime));
    assert!(supervisor.can_end(false, Some(0), uptime));
    assert!(supervisor.can_end(true, Some(1), uptime));
    let limited = Config { max_restarts: Some(0), ..config };
    assert!(Supervisor::new("job", limited).can_end(false, Some(1), uptime));
    let ordinary = fast_config(RestartPolicy::Always, None);
    assert!(Supervisor::new("job", ordinary).can_end(false, Some(0), uptime));
}
