//! The `[keepalive ...]` banner lines that bracket each child run in the log,
//! alongside the child's own output.

use crate::decimal::{digit_value, digits_value, has_sign, is_digit, without_sign};
use vstd::prelude::*;

verus! {

/// The `chrono` format of every banner's timestamp, for whoever wants to parse
/// the log back out.
pub const BANNER_TIME_FORMAT: &'static str = "%Y-%m-%dT%H:%M:%S%.3f%z";

/// Whether `s` has the shape of `pattern`, in which `0` stands for any digit.
pub open spec fn has_shape(s: Seq<char>, pattern: Seq<char>) -> bool {
    s.len() == pattern.len() && forall|i: int|
        0 <= i < s.len() ==> if pattern[i] == '0' {
            is_digit(#[trigger] s[i])
        } else {
            s[i] == pattern[i]
        }
}

/// The number that the two digits at `i` stand for.
pub open spec fn two_digits(s: Seq<char>, i: int) -> nat {
    10 * digit_value(s[i]) + digit_value(s[i + 1])
}

/// The days of a month in the Gregorian calendar.
pub open spec fn days_in(year: nat, month: nat) -> nat {
    if month == 2 {
        if year % 4 == 0 && (year % 100 != 0 || year % 400 == 0) {
            29
        } else {
            28
        }
    } else if month == 4 || month == 6 || month == 9 || month == 11 {
        30
    } else {
        31
    }
}

/// A moment in the banners' format: a year of four digits or more, a month and
/// a day that it has, the time to the millisecond, where a leap second is second 60, and the
/// offset from UTC in hours and minutes, which is at most 24 hours.
pub open spec fn is_timestamp(s: Seq<char>) -> bool {
    let year = without_sign(s.take(s.len() - 24));
    &&& s.len() >= 28
    &&& year.len() >= 4
    &&& forall|i: int| 0 <= i < year.len() ==> is_digit(#[trigger] year[i])
    &&& has_shape(
        s.subrange(s.len() - 24, s.len() - 5),
        seq![
            '-', '0', '0', '-', '0', '0', 'T', '0', '0', ':', '0', '0', ':', '0', '0', '.', '0',
            '0', '0',
        ],
    )
    &&& has_sign(s.skip(s.len() - 5))
    &&& has_shape(s.skip(s.len() - 4), seq!['0', '0', '0', '0'])
    &&& 1 <= two_digits(s, s.len() - 23) <= 12
    &&& 1 <= two_digits(s, s.len() - 20) <= days_in(
        digits_value(year),
        two_digits(s, s.len() - 23),
    )
    &&& two_digits(s, s.len() - 17) <= 23
    &&& two_digits(s, s.len() - 14) <= 59
    &&& two_digits(s, s.len() - 11) <= 60
    &&& two_digits(s, s.len() - 2) <= 59
    &&& 60 * two_digits(s, s.len() - 4) + two_digits(s, s.len() - 2) <= 1440
}

/// The banner line for `message` at the moment `stamp`.
pub open spec fn banner_line(stamp: Seq<char>, message: Seq<char>) -> Seq<char> {
    "[keepalive "@ + stamp + "] "@ + message + "\n"@
}

/// The present moment in the local time zone, by `chrono::Local::now` and
/// `chrono::DateTime::format`: with this format the text is a date, a time to
/// the millisecond and an offset, whatever the moment is, and each of their
/// fields is in its range. An offset is less than 24 hours, but is rounded to
/// the nearest minute. Which moment it is remains open; a system clock set
/// before 1970 makes `now` panic.
#[verifier::external_body]
fn local_time(format: &str) -> (r: String)
    requires
        format@ == BANNER_TIME_FORMAT@,
    ensures
        is_timestamp(r@),
{
    chrono::Local::now().format(format).to_string()
}

/// Formats the banner line for a given moment: `[keepalive <stamp>] <message>`.
pub fn format_banner_at(stamp: &str, message: &str) -> (r: String)
    ensures
        r@ == banner_line(stamp@, message@),
{
    let mut line: String = String::new();
    line.append("[keepalive ");
    line.append(stamp);
    line.append("] ");
    line.append(message);
    line.append("\n");
    assert(line@ =~= banner_line(stamp@, message@));
    line
}

/// Formats a `[keepalive <timestamp>] <message>` banner line for the present
/// moment.
pub fn format_banner(message: &str) -> (r: String)
    ensures
        exists|stamp: Seq<char>|
            is_timestamp(stamp) && r@ == #[trigger] banner_line(stamp, message@),
{
    let stamp: String = local_time(BANNER_TIME_FORMAT);
    format_banner_at(stamp.as_str(), message)
}

/// Every character of a timestamp is a digit or one of `+-T:.`.
proof fn lemma_timestamp_characters(s: Seq<char>, i: int)
    requires
        is_timestamp(s),
        0 <= i < s.len(),
    ensures
        s[i] != ']',
        s[i] != '\n',
{
    let n = s.len() - 24;
    let year = s.take(n);
    let middle = s.subrange(n, s.len() - 5);
    let offset = s.skip(s.len() - 4);
    if i < n {
        assert(year[i] == s[i]);
        if has_sign(year) {
            if i > 0 {
                assert(without_sign(year)[i - 1] == s[i]);
            }
        }
    } else if i < s.len() - 5 {
        assert(middle[i - n] == s[i]);
    } else if i == s.len() - 5 {
        assert(s.skip(s.len() - 5)[0] == s[i]);
    } else {
        assert(offset[i - (s.len() - 4)] == s[i]);
    }
}

/// The moment of a banner can be parsed back out of its line: it is what stands
/// between `[keepalive ` and the first `]`.
pub proof fn law_banner_holds_its_moment(stamp: Seq<char>, message: Seq<char>)
    requires
        is_timestamp(stamp),
    ensures
        banner_line(stamp, message).take(11) == "[keepalive "@,
        banner_line(stamp, message).skip(11).take(stamp.len() as int) == stamp,
        banner_line(stamp, message)[11 + stamp.len() as int] == ']',
        forall|i: int|
            0 <= i < 11 + stamp.len() ==> #[trigger] banner_line(stamp, message)[i] != ']',
{
    reveal_strlit("[keepalive ");
    reveal_strlit("] ");
    reveal_strlit("\n");
    let line = banner_line(stamp, message);
    assert(line.take(11) =~= "[keepalive "@);
    assert(line.skip(11).take(stamp.len() as int) =~= stamp);
    assert forall|i: int| 0 <= i < 11 + stamp.len() implies #[trigger] line[i] != ']' by {
        if i >= 11 {
            lemma_timestamp_characters(stamp, i - 11);
        }
    }
}

/// A banner is one line: it ends in a newline, and holds no other where the
/// message holds none.
pub proof fn law_banner_is_one_line(stamp: Seq<char>, message: Seq<char>)
    requires
        is_timestamp(stamp),
        !message.contains('\n'),
    ensures
        banner_line(stamp, message).last() == '\n',
        forall|i: int|
            0 <= i < banner_line(stamp, message).len() - 1 ==> #[trigger] banner_line(
                stamp,
                message,
            )[i] != '\n',
{
    reveal_strlit("[keepalive ");
    reveal_strlit("] ");
    reveal_strlit("\n");
    let line = banner_line(stamp, message);
    let start = 13 + stamp.len() as int;
    assert forall|i: int| 0 <= i < line.len() - 1 implies #[trigger] line[i] != '\n' by {
        if 11 <= i < 11 + stamp.len() {
            lemma_timestamp_characters(stamp, i - 11);
        } else if start <= i {
            assert(line[i] == message[i - start]);
        }
    }
}

/// A banner holds the whole message and nothing else after its moment: the
/// message is what stands between `] ` and the newline at the end.
pub proof fn law_banner_holds_its_message(stamp: Seq<char>, message: Seq<char>)
    ensures
        banner_line(stamp, message).len() == stamp.len() + message.len() + 14,
        banner_line(stamp, message).take(11) == "[keepalive "@,
        banner_line(stamp, message).subrange(11, 11 + stamp.len() as int) == stamp,
        banner_line(stamp, message).subrange(
            11 + stamp.len() as int,
            13 + stamp.len() as int,
        ) == "] "@,
        banner_line(stamp, message).subrange(
            13 + stamp.len() as int,
            banner_line(stamp, message).len() - 1,
        ) == message,
        banner_line(stamp, message).last() == '\n',
{
    reveal_strlit("[keepalive ");
    reveal_strlit("] ");
    reveal_strlit("\n");
    let line = banner_line(stamp, message);
    let start = 13 + stamp.len() as int;
    assert(line.take(11) =~= "[keepalive "@);
    assert(line.subrange(11, 11 + stamp.len() as int) =~= stamp);
    assert(line.subrange(11 + stamp.len() as int, start) =~= "] "@);
    assert(line.subrange(start, line.len() - 1) =~= message);
}

/// Every timestamp has its separators, counted from the end, and its fields have
/// the ranges of a calendar and a clock.
pub proof fn law_timestamps_have_their_fields(s: Seq<char>)
    requires
        is_timestamp(s),
    ensures
        ({
            let n = s.len() as int;
            let field = |i: int| 10 * (s[n - i] as int - 48) + (s[n - i + 1] as int - 48);
            &&& n >= 28
            &&& s[n - 24] == '-' && s[n - 21] == '-' && s[n - 18] == 'T'
            &&& s[n - 15] == ':' && s[n - 12] == ':' && s[n - 9] == '.'
            &&& s[n - 5] == '+' || s[n - 5] == '-'
            &&& forall|i: int|
                n - 23 <= i < n && i != n - 21 && i != n - 18 && i != n - 15 && i != n - 12 && i
                    != n - 9 && i != n - 5 ==> '0' <= #[trigger] s[i] <= '9'
            &&& 1 <= field(23) <= 12
            &&& 1 <= field(20) <= 31
            &&& 0 <= field(17) < 24
            &&& 0 <= field(14) < 60
            &&& 0 <= field(11) <= 60
            &&& 0 <= 60 * field(4) + field(2) <= 24 * 60
        }),
{
    let n = s.len() as int;
    let middle = s.subrange(n - 24, n - 5);
    let offset = s.skip(n - 4);
    assert forall|i: int| n - 24 <= i < n - 5 implies #[trigger] s[i] == middle[i - (n - 24)] by {}
    assert forall|i: int| n - 4 <= i < n implies #[trigger] s[i] == offset[i - (n - 4)] by {}
    assert(s.skip(n - 5)[0] == s[n - 5]);
}

/// The format of the timestamps: date, time to the millisecond, offset.
pub proof fn law_time_format_is_fixed()
    ensures
        BANNER_TIME_FORMAT@ == "%Y-%m-%dT%H:%M:%S%.3f%z"@,
{
}

} // verus!
