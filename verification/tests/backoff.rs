use keepalive::backoff::{delay, delay_fits, next_delay};
use keepalive::binary64::Binary64;
use keepalive::time::Duration;

fn number(x: f64) -> Binary64 {
    Binary64::from_bits(x.to_bits())
}

/// A span of the standard library.
fn span(d: Duration) -> std::time::Duration {
    std::time::Duration::new(d.as_secs(), d.subsec_nanos())
}

/// The delay when every step is taken in floating point.
fn in_floating_point(attempt: u32, base: Duration, max: Duration, multiplier: f64) -> Duration {
    let seconds = span(base).as_secs_f64() * multiplier.powi((attempt - 1) as i32);
    let capped = seconds.min(span(max).as_secs_f64());
    Duration::from_nanos(std::time::Duration::from_secs_f64(capped.max(0.0)).as_nanos())
}

/// A power by repeated squaring, in floating point.
fn squared(base: f64, exponent: u32) -> f64 {
    let mut product = 1.0;
    let mut square = base;
    let mut left = exponent;
    while left > 0 {
        if left % 2 == 1 {
            product *= square;
        }
        square *= square;
        left /= 2;
    }
    product
}

#[test]
fn first_attempt_is_exactly_base() {
    let d = next_delay(1, Duration::from_secs(1), Duration::from_secs(60), number(2.0));
    assert_eq!(d, Duration::from_secs(1));
}

#[test]
fn second_attempt_doubles_with_multiplier_two() {
    let d = next_delay(2, Duration::from_secs(1), Duration::from_secs(60), number(2.0));
    assert_eq!(d, Duration::from_secs(2));
}

#[test]
fn third_attempt_quadruples() {
    let d = next_delay(3, Duration::from_secs(1), Duration::from_secs(60), number(2.0));
    assert_eq!(d, Duration::from_secs(4));
}

#[test]
fn delay_is_capped_at_max() {
    let d = next_delay(10, Duration::from_secs(1), Duration::from_secs(30), number(2.0));
    assert_eq!(d, Duration::from_secs(30));
}

#[test]
fn attempt_zero_is_zero_delay() {
    assert_eq!(
        next_delay(0, Duration::from_secs(5), Duration::from_secs(60), number(2.0)),
        Duration::zero()
    );
}

#[test]
fn multiplier_one_never_grows() {
    let d1 = next_delay(1, Duration::from_millis(200), Duration::from_secs(60), number(1.0));
    let d5 = next_delay(5, Duration::from_millis(200), Duration::from_secs(60), number(1.0));
    assert_eq!(d1, d5);
}

#[test]
fn fractional_base_and_multiplier_work() {
    let d = next_delay(2, Duration::from_millis(100), Duration::from_secs(10), number(1.5));
    assert_eq!(d, Duration::from_millis(150));
}

#[test]
fn delays_agree_with_floating_point() {
    let bases = [1, 3, 1_000, 999_999_999, 50_000_000, 1_000_000_000, 123_456_789_123];
    let multipliers = [2.0, 1.5, 1.1, 3.0, 0.5, 0.9, 1.0, 10.0, 1.000001, 0.0, 1e300, 1e-300];
    let max = Duration::from_secs(3600);
    for base in bases {
        for multiplier in multipliers {
            for attempt in 1..40 {
                let base = Duration::from_nanos(base);
                assert_eq!(
                    next_delay(attempt, base, max, number(multiplier)),
                    in_floating_point(attempt, base, max, multiplier),
                    "{:?} {} {}",
                    base,
                    multiplier,
                    attempt
                );
            }
        }
    }
}

#[test]
fn long_delays_agree_with_floating_point_to_the_last_bit() {
    // Over such spans the last bit of a delay is more than a nanosecond.
    let bases = [
        Duration::from_secs(1 << 40),
        Duration::from_secs(9_007_199_254_740_993),
        Duration::from_nanos(31_556_952_123_456_789),
        Duration::from_nanos(123_456_789_012_345_678_901),
    ];
    let multipliers = [1.1, 1.07, 1.5, 3.7, 0.9, 0.3333, 1.0000001];
    let max = Duration::from_secs(1 << 63);
    for base in bases {
        for multiplier in multipliers {
            for attempt in (1..30).chain([64, 100, 127, 128, 129]) {
                assert_eq!(
                    next_delay(attempt, base, max, number(multiplier)),
                    in_floating_point(attempt, base, max, multiplier),
                    "{:?} {} {}",
                    base,
                    multiplier,
                    attempt
                );
            }
        }
    }
}

#[test]
fn the_power_is_rounded_before_the_product() {
    let base = Duration::from_secs(9_007_199_254_740_991);
    let max = Duration::from_secs(1 << 63);
    for multiplier in [1.1f64, 1.3, 1.7, 2.9] {
        let factor = multiplier * multiplier;
        let seconds = 9_007_199_254_740_991f64 * factor;
        let d = delay(3, base, max, number(multiplier));
        assert_eq!(d.mantissa as f64 * 2f64.powi(d.shift as i32 - 1074), seconds);
    }
}

#[test]
fn powers_are_taken_by_repeated_squaring() {
    let base = Duration::from_secs(1);
    let max = Duration::from_secs(1 << 63);
    for multiplier in [1.1, 1.9, 0.7, 1.01] {
        for attempt in 1..60 {
            let d = delay(attempt, base, max, number(multiplier));
            assert_eq!(
                d.mantissa as f64 * 2f64.powi(d.shift as i32 - 1074),
                squared(multiplier, attempt - 1).min((1u64 << 63) as f64)
            );
        }
    }
}

#[test]
fn a_delay_that_is_too_long_is_told() {
    let longest = Duration::from_secs(u64::MAX);
    let long = Duration::from_secs(u64::MAX - 2047);
    assert!(!delay_fits(1, longest, longest, number(2.0)));
    assert!(!delay_fits(100, Duration::from_secs(1), longest, number(2.0)));
    assert!(delay_fits(64, Duration::from_secs(1), longest, number(2.0)));
    assert!(delay_fits(100, Duration::from_secs(1), long, number(2.0)));
    assert!(delay_fits(0, longest, longest, number(2.0)));
}

#[test]
fn delays_never_shrink_and_never_exceed_the_cap() {
    let base = Duration::from_millis(70);
    let max = Duration::from_secs(45);
    let mut last = Duration::zero();
    for attempt in 0..200 {
        let d = next_delay(attempt, base, max, number(1.07));
        assert!(d.as_nanos() >= last.as_nanos());
        assert!(d.as_nanos() <= max.as_nanos());
        last = d;
    }
    assert_eq!(last, max);
}

#[test]
fn the_default_multiplier_doubles_each_delay() {
    let base = Duration::from_millis(3);
    let max = Duration::from_secs(3600);
    for attempt in 1..20 {
        let d = next_delay(attempt, base, max, number(2.0));
        let e = next_delay(attempt + 1, base, max, number(2.0));
        assert_eq!(e.as_nanos(), 2 * d.as_nanos());
    }
}

#[test]
fn delays_are_multiplied_exactly_while_53_bits_hold_the_power() {
    let base = Duration::from_secs(1);
    let max = Duration::from_secs(1 << 62);
    let mut seconds = 1;
    for attempt in 1..34 {
        assert_eq!(next_delay(attempt, base, max, number(3.0)), Duration::from_secs(seconds));
        seconds *= 3;
    }
    // 1.5^k seconds are 3^k / 2^k.
    assert_eq!(next_delay(9, base, max, number(1.5)), Duration::from_nanos(25_628_906_250));
}

#[test]
fn inexact_powers_stay_close_to_the_exact_ones() {
    // 1.1^50 is 117.39085287969571..., and 1.1 itself is rounded.
    let base = Duration::from_secs(1);
    let max = Duration::from_secs(3600);
    assert_eq!(
        next_delay(51, base, max, number(1.1)),
        Duration::from_nanos(117_390_852_880)
    );
}

#[test]
fn half_a_nanosecond_rounds_to_even() {
    let max = Duration::from_secs(1);
    let d = next_delay(3, Duration::from_nanos(1 << 30), max, number(0.5));
    assert_eq!(d, Duration::from_nanos(1 << 28));
    // 2^-10 seconds are 976562.5 nanoseconds, and three times that 2929687.5.
    let second = Duration::from_secs(1);
    assert_eq!(
        next_delay(11, second, max, number(0.5)),
        Duration::from_nanos(976_562)
    );
    let three = Duration::from_secs(3);
    assert_eq!(
        next_delay(11, three, three, number(0.5)),
        Duration::from_nanos(2_929_688)
    );
}

#[test]
fn multipliers_below_zero_and_beyond_all_bounds() {
    let base = Duration::from_secs(1);
    let max = Duration::from_secs(60);
    assert_eq!(next_delay(2, base, max, number(-2.0)), Duration::zero());
    assert_eq!(next_delay(3, base, max, number(-2.0)), Duration::from_secs(4));
    assert_eq!(next_delay(1, base, max, number(f64::NAN)), base);
    assert_eq!(next_delay(2, base, max, number(f64::NAN)), max);
    assert_eq!(next_delay(2, base, max, number(f64::INFINITY)), max);
    assert_eq!(next_delay(2, base, max, number(f64::NEG_INFINITY)), Duration::zero());
    assert_eq!(next_delay(3, base, max, number(f64::NEG_INFINITY)), max);
    assert_eq!(next_delay(2, Duration::zero(), max, number(f64::INFINITY)), max);
}

#[test]
fn a_base_of_zero_stays_zero() {
    let max = Duration::from_secs(60);
    assert_eq!(next_delay(5000, Duration::zero(), max, number(2.0)), Duration::zero());
    assert_eq!(next_delay(u32::MAX, Duration::zero(), max, number(1e300)), Duration::zero());
    assert_eq!(next_delay(2, Duration::zero(), max, number(1.5)), Duration::zero());
}

#[test]
fn very_late_attempts_are_capped() {
    let max = Duration::from_secs(60);
    let base = Duration::from_secs(1);
    assert_eq!(next_delay(u32::MAX, base, max, number(2.0)), max);
    assert_eq!(next_delay(u32::MAX, base, max, number(1.0)), base);
    assert_eq!(next_delay(u32::MAX, base, max, number(0.5)), Duration::zero());
}
