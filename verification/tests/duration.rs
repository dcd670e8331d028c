use keepalive::duration::{checked_parse_duration, parse_duration, white_space, DurationError};
use keepalive::time::Duration;

/// What the text means when every step is taken in floating point.
fn in_floating_point(number: &str, seconds_per_unit: f64) -> Duration {
    let value: f64 = number.parse().unwrap();
    let span = std::time::Duration::from_secs_f64(value * seconds_per_unit);
    Duration::from_nanos(span.as_nanos())
}

#[test]
fn parses_milliseconds() {
    assert_eq!(parse_duration("500ms").unwrap(), Duration::from_millis(500));
}

#[test]
fn parses_seconds() {
    assert_eq!(parse_duration("2s").unwrap(), Duration::from_secs(2));
}

#[test]
fn parses_minutes() {
    assert_eq!(parse_duration("1m").unwrap(), Duration::from_secs(60));
}

#[test]
fn parses_hours() {
    assert_eq!(parse_duration("1h").unwrap(), Duration::from_secs(3600));
}

#[test]
fn bare_number_is_seconds() {
    assert_eq!(parse_duration("5").unwrap(), Duration::from_secs(5));
}

#[test]
fn parses_fractional_seconds() {
    assert_eq!(parse_duration("1.5s").unwrap(), Duration::from_millis(1500));
}

#[test]
fn rejects_negative() {
    assert!(parse_duration("-1s").is_err());
}

#[test]
fn rejects_garbage() {
    assert!(parse_duration("soon").is_err());
}

#[test]
fn units_count_in_either_case() {
    assert_eq!(parse_duration("500MS").unwrap(), Duration::from_millis(500));
    assert_eq!(parse_duration("500mS").unwrap(), Duration::from_millis(500));
    assert_eq!(parse_duration("2S").unwrap(), Duration::from_secs(2));
    assert_eq!(parse_duration("3M").unwrap(), Duration::from_secs(180));
    assert_eq!(parse_duration("2H").unwrap(), Duration::from_secs(7200));
}

#[test]
fn white_space_around_the_number_and_the_unit_is_ignored() {
    assert_eq!(
        parse_duration(" \t250 \u{2003}ms\n").unwrap(),
        Duration::from_millis(250)
    );
    assert_eq!(parse_duration("\u{3000}7").unwrap(), Duration::from_secs(7));
}

#[test]
fn white_space_is_what_unicode_says() {
    for c in '\0'..=char::MAX {
        assert_eq!(white_space(c), c.is_whitespace(), "{:?}", c);
    }
}

#[test]
fn numbers_may_have_signs_points_and_exponents() {
    assert_eq!(parse_duration("+3s").unwrap(), Duration::from_secs(3));
    assert_eq!(parse_duration("3.s").unwrap(), Duration::from_secs(3));
    assert_eq!(parse_duration(".5s").unwrap(), Duration::from_millis(500));
    assert_eq!(parse_duration("25e-1").unwrap(), Duration::from_millis(2500));
    assert_eq!(parse_duration("1E+3ms").unwrap(), Duration::from_secs(1));
    assert_eq!(parse_duration("-0s").unwrap(), Duration::zero());
    assert_eq!(parse_duration("1e-400s").unwrap(), Duration::zero());
    assert_eq!(
        parse_duration("0e99999999999999999999999999999999999999999999").unwrap(),
        Duration::zero()
    );
    assert_eq!(
        parse_duration("1e-99999999999999999999999999999999999999999999").unwrap(),
        Duration::zero()
    );
}

#[test]
fn the_result_is_that_of_floating_point() {
    let numbers = [
        "0", "1", "0.1", "0.2", "0.3", "1.1", "2.7", "3.14159265358979", "0.0005", "0.0015",
        "1.0000000005", "0.0000000005", "0.0000000015", "0.00000000049", "12345678.123456789",
        "100000000.000000001", "4.35", "1e-9", "2.5e-9", "3.5e-9", "1e-320",
        "123456789012345678901234567890e-25", "5e14", "0.999999999999999999", "59.9999999995",
        "8.000000000000000444089209850062616169452667236328125",
        "8.00000000000000044408920985006261616945266723632812500000001",
    ];
    let units = [("ms", 0.001), ("s", 1.0), ("m", 60.0), ("h", 3600.0), ("", 1.0)];
    for number in numbers {
        for (unit, seconds) in units {
            let text = format!("{}{}", number, unit);
            assert_eq!(
                parse_duration(&text).unwrap(),
                in_floating_point(number, seconds),
                "{}",
                text
            );
        }
    }
}

#[test]
fn whole_numbers_of_units_are_exact() {
    let mut n: u64 = 0;
    while n <= 2147483648 {
        let text = n.to_string();
        assert_eq!(
            parse_duration(&(text.clone() + "ms")).unwrap(),
            Duration::from_millis(n)
        );
        assert_eq!(parse_duration(&(text.clone() + "s")).unwrap(), Duration::from_secs(n));
        assert_eq!(parse_duration(&(text.clone() + "m")).unwrap(), Duration::from_secs(60 * n));
        assert_eq!(parse_duration(&(text.clone() + "h")).unwrap(), Duration::from_secs(3600 * n));
        assert_eq!(parse_duration(&text).unwrap(), Duration::from_secs(n));
        n = n * 2 + n / 3 + 1;
    }
}

#[test]
fn digits_beyond_double_precision_are_rounded() {
    assert_eq!(
        parse_duration("9007199254740993").unwrap(),
        Duration::from_secs(9007199254740992)
    );
    assert_eq!(
        parse_duration("12345678.123456789").unwrap(),
        in_floating_point("12345678.123456789", 1.0)
    );
}

#[test]
fn many_decimals_agree_with_floating_point() {
    let mut seed: u64 = 12345;
    for _ in 0..400 {
        seed = seed.wrapping_mul(6364136223846793005).wrapping_add(1442695040888963407);
        let whole = (seed >> 44) % 1_000_000;
        let fraction = (seed >> 7) % 10_000_000_000_000;
        let number = format!("{}.{:013}", whole, fraction);
        assert_eq!(
            parse_duration(&format!("{}s", number)).unwrap(),
            in_floating_point(&number, 1.0)
        );
        assert_eq!(
            parse_duration(&format!("{}ms", number)).unwrap(),
            in_floating_point(&number, 0.001)
        );
    }
}

#[test]
fn the_longest_duration_that_parses() {
    assert_eq!(
        parse_duration("18446744073709549568").unwrap(),
        Duration::from_secs(18446744073709549568)
    );
    assert!(matches!(checked_parse_duration("18446744073709551615"), Ok(None)));
    assert!(matches!(checked_parse_duration("1e300s"), Ok(None)));
    assert!(matches!(checked_parse_duration("1e308h"), Ok(None)));
    assert!(matches!(checked_parse_duration("2s"), Ok(Some(_))));
}

#[test]
fn an_empty_string_is_an_error() {
    let e = parse_duration(" \t ").unwrap_err();
    assert!(matches!(e, DurationError::Empty));
    assert_eq!(e.message(), "empty duration string");
}

#[test]
fn a_unit_alone_is_an_error() {
    for text in ["ms", "s", " h ", "M"] {
        let e = parse_duration(text).unwrap_err();
        assert!(matches!(e, DurationError::MissingNumber { .. }));
        assert_eq!(
            e.message(),
            format!("duration '{}' has a unit but no number", text)
        );
    }
}

#[test]
fn what_is_no_number_is_an_error() {
    let texts = [
        "soon", "1.2.3", ".", "e5", "1e", "1e+", "+", "--1", "1_000", "0x10", "5 5s", "1e5.0",
    ];
    for text in texts {
        let e = parse_duration(text).unwrap_err();
        assert!(matches!(e, DurationError::Invalid { .. }), "{}", text);
        assert_eq!(
            e.message(),
            format!("'{}' is not a valid duration (expected e.g. 500ms, 1s, 2m, 1h)", text)
        );
    }
}

#[test]
fn numbers_out_of_range_are_an_error() {
    let texts = [
        "-1s", "-0.5", "nan", "NaNs", "inf", "-Infinity", "infms", "1e309", "-1e400",
        "1e999999999999999999999999999",
    ];
    for text in texts {
        let e = parse_duration(text).unwrap_err();
        assert!(matches!(e, DurationError::OutOfRange { .. }), "{}", text);
        assert_eq!(
            e.message(),
            format!("duration '{}' must be a non-negative number", text)
        );
    }
}
