use keepalive::bignat::BigNat;
use keepalive::binary64::{nearest, Binary64, Parts};
use keepalive::time::{seconds_fit, Duration};

/// `mantissa * 2^(shift - 1074)`, which has no rounding.
fn value(mantissa: u64, shift: u32) -> f64 {
    mantissa as f64 * 2f64.powi(shift as i32 - 1074)
}

#[test]
fn spans_are_made_and_taken_apart() {
    let d = Duration::from_nanos(12_000_000_345);
    assert_eq!(d.as_secs(), 12);
    assert_eq!(d.subsec_nanos(), 345);
    assert_eq!(d.as_nanos(), 12_000_000_345);
    assert_eq!(Duration::from_secs(u64::MAX).as_secs(), u64::MAX);
    assert_eq!(Duration::from_millis(1500), Duration::from_nanos(1_500_000_000));
    assert_eq!(Duration::zero().as_nanos(), 0);
}

#[test]
fn seconds_are_those_of_floating_point() {
    let spans: [u128; 9] = [
        0,
        1,
        999_999_999,
        1_000_000_000,
        1_100_000_000,
        123_456_789_987_654_321,
        9_007_199_254_740_993_000_000_001,
        18_446_744_073_709_551_615_999_999_999,
        8_388_607_999_999_999,
    ];
    for nanos in spans {
        let expected = std::time::Duration::new(
            (nanos / 1_000_000_000) as u64,
            (nanos % 1_000_000_000) as u32,
        )
        .as_secs_f64();
        let seconds = Duration::from_nanos(nanos).seconds();
        assert_eq!(value(seconds.mantissa, seconds.shift), expected);
    }
}

#[test]
fn short_spans_survive_as_seconds() {
    let mut nanos: u128 = 1;
    while nanos < 8_388_608_000_000_000 {
        let d = Duration::from_nanos(nanos);
        assert_eq!(Duration::from_seconds(&d.seconds()), d);
        nanos = nanos * 3 + 7;
    }
}

#[test]
fn a_long_span_need_not_survive() {
    let d = Duration::from_nanos(100_000_000_000_000_001);
    assert!(Duration::from_seconds(&d.seconds()) != d);
}

#[test]
fn the_longest_spans_do_not_fit_as_seconds() {
    assert!(!seconds_fit(&Duration::from_secs(u64::MAX).seconds()));
    assert!(seconds_fit(&Duration::from_secs(u64::MAX - 2047).seconds()));
}

#[test]
fn bits_are_taken_apart() {
    for x in [1.0, 2.5, 0.1, 1e-310, 5e-324, 0.0, 1.7976931348623157e308] {
        for sign in [1.0, -1.0] {
            match Binary64::from_bits(f64::to_bits(x * sign)).parts() {
                Parts::Finite { negative, magnitude } => {
                    assert_eq!(negative, sign < 0.0);
                    if x > 1e-300 && x < 1e300 {
                        assert_eq!(value(magnitude.mantissa, magnitude.shift), x);
                    }
                }
                _ => panic!("{} is finite", x),
            }
        }
    }
    assert!(matches!(Binary64::from_bits(f64::NAN.to_bits()).parts(), Parts::Nan));
    assert!(matches!(
        Binary64::from_bits(f64::INFINITY.to_bits()).parts(),
        Parts::Infinite { negative: false }
    ));
    assert!(matches!(
        Binary64::from_bits(f64::NEG_INFINITY.to_bits()).parts(),
        Parts::Infinite { negative: true }
    ));
}

#[test]
fn ratios_round_to_the_nearest_number() {
    // One third of 2^60 units.
    let third = nearest(&BigNat::from_u128(1 << 60), &BigNat::from_u128(3)).unwrap();
    assert_eq!((third.mantissa, third.shift), (6004799503160661, 6));
    // Ties go to the even mantissa.
    let tie = nearest(&BigNat::from_u128((1 << 54) + 2), &BigNat::from_u128(1)).unwrap();
    assert_eq!((tie.mantissa, tie.shift), (1 << 52, 2));
    let tie = nearest(&BigNat::from_u128((1 << 54) + 6), &BigNat::from_u128(1)).unwrap();
    assert_eq!((tie.mantissa, tie.shift), ((1 << 52) + 2, 2));
}

#[test]
fn big_numbers_compare_multiply_and_shift() {
    let a = BigNat::from_u128(u128::MAX).times_plus(u64::MAX, 5);
    let b = BigNat::from_u128(u128::MAX).times_plus(u64::MAX, 6);
    assert!(a.at_most(&b));
    assert!(a.at_most(&a));
    assert!(!b.at_most(&a));
    let c = BigNat::from_u128(77).shift_up(5);
    let mut d = BigNat::from_u128(77);
    for _ in 0..5 {
        d = d.times_plus(1 << 32, 0);
    }
    assert!(c.at_most(&d) && d.at_most(&c));
    assert!(!c.at_most(&BigNat::from_u128(u128::MAX)));
}
