use chrono::DateTime;
use keepalive::logfile::{format_banner, format_banner_at, BANNER_TIME_FORMAT};

#[test]
fn format_banner_wraps_message_with_prefix_and_newline() {
    let line = format_banner("hello");
    assert!(line.starts_with("[keepalive "));
    assert!(line.contains("] hello"));
    assert!(line.ends_with('\n'));
}

#[test]
fn a_banner_for_a_given_moment() {
    assert_eq!(
        format_banner_at("2024-02-29T23:59:58.007+0100", "hello"),
        "[keepalive 2024-02-29T23:59:58.007+0100] hello\n"
    );
}

#[test]
fn the_moment_can_be_parsed_back_out() {
    let before = chrono::Local::now().timestamp_millis();
    let line = format_banner("it ] happened");
    let after = chrono::Local::now().timestamp_millis();
    let rest = line.strip_prefix("[keepalive ").unwrap();
    let stamp = rest.split(']').next().unwrap();
    let moment = DateTime::parse_from_str(stamp, BANNER_TIME_FORMAT).unwrap();
    assert!(before <= moment.timestamp_millis());
    assert!(moment.timestamp_millis() <= after);
    assert_eq!(rest, format!("{}] it ] happened\n", stamp));
}

#[test]
fn a_banner_has_one_newline() {
    let line = format_banner("one line");
    assert_eq!(line.find('\n'), Some(line.len() - 1));
}

#[test]
fn timestamps_have_the_stated_shape() {
    let line = format_banner("");
    let stamp = &line[11..line.len() - 3];
    let shape: String = stamp
        .chars()
        .map(|c| if c.is_ascii_digit() { '0' } else { c })
        .collect();
    assert!(
        shape == "0000-00-00T00:00:00.000+0000" || shape == "0000-00-00T00:00:00.000-0000",
        "{}",
        stamp
    );
}

#[test]
fn the_fields_of_a_timestamp_are_in_range() {
    let line = format_banner("");
    let stamp = &line[11..line.len() - 3];
    let n = stamp.len();
    let field = |i: usize| stamp[n - i..n - i + 2].parse::<u32>().unwrap();
    let year: u32 = stamp[..n - 24].parse().unwrap();
    let leap = year % 4 == 0 && (year % 100 != 0 || year % 400 == 0);
    let days = match field(23) {
        2 if leap => 29,
        2 => 28,
        4 | 6 | 9 | 11 => 30,
        _ => 31,
    };
    assert!((1..=12).contains(&field(23)), "{}", stamp);
    assert!((1..=days).contains(&field(20)), "{}", stamp);
    assert!(field(17) <= 23, "{}", stamp);
    assert!(field(14) <= 59, "{}", stamp);
    assert!(field(11) <= 60, "{}", stamp);
    assert!(field(2) <= 59, "{}", stamp);
    assert!(60 * field(4) + field(2) <= 1440, "{}", stamp);
}

#[test]
fn an_offset_is_rounded_to_the_minute() {
    let moment = |seconds: i32| {
        let offset = chrono::FixedOffset::east_opt(seconds).unwrap();
        let moment = chrono::DateTime::from_timestamp(951_868_798, 7_000_000).unwrap();
        moment.with_timezone(&offset).format(BANNER_TIME_FORMAT).to_string()
    };
    assert_eq!(moment(3600), "2000-03-01T00:59:58.007+0100");
    assert_eq!(moment(-5430), "2000-02-29T22:29:28.007-0131");
    assert_eq!(moment(86_399), "2000-03-01T23:59:57.007+2400");
}
