//! Parses human-friendly duration strings (`"500ms"`, `"1s"`, `"2m"`) for the
//! `--backoff-*` and `--reset-after` flags.

use crate::bignat::BigNat;
use crate::binary64::{finite_limit, multiplied, nearest, one, shifted, times, Magnitude};
use crate::decimal::{
    decimal_units, is_letter, letter, part, read_number, scan_number, Reading, Scan,
};
use crate::rounding::{lemma_nearest_at_most, lemma_representable, nearest_binary};
use crate::time::{fits, seconds_fit, to_nanos, Duration};
use vstd::arithmetic::power2::{
    lemma2_to64_rest, lemma_pow2_adds, lemma_pow2_pos, lemma_pow2_strictly_increases, pow2,
};
use vstd::prelude::*;

verus! {

/// The characters with the Unicode property `White_Space`.
pub open spec fn is_white_space(c: char) -> bool {
    ||| '\u{9}' <= c <= '\u{d}'
    ||| c == ' '
    ||| c == '\u{85}'
    ||| c == '\u{a0}'
    ||| c == '\u{1680}'
    ||| '\u{2000}' <= c <= '\u{200a}'
    ||| c == '\u{2028}'
    ||| c == '\u{2029}'
    ||| c == '\u{202f}'
    ||| c == '\u{205f}'
    ||| c == '\u{3000}'
}

/// The text without the white space before it.
pub open spec fn trimmed_start(s: Seq<char>) -> Seq<char>
    decreases s.len(),
{
    if s.len() > 0 && is_white_space(s[0]) {
        trimmed_start(s.skip(1))
    } else {
        s
    }
}

/// The text without the white space after it.
pub open spec fn trimmed_end(s: Seq<char>) -> Seq<char>
    decreases s.len(),
{
    if s.len() > 0 && is_white_space(s.last()) {
        trimmed_end(s.drop_last())
    } else {
        s
    }
}

/// The text without the white space around it.
pub open spec fn trimmed(s: Seq<char>) -> Seq<char> {
    trimmed_end(trimmed_start(s))
}

/// The unit at the end of a duration.
#[derive(Clone, Copy, Debug, PartialEq, Eq, Structural)]
pub enum Unit {
    Milliseconds,
    Seconds,
    Minutes,
    Hours,
    /// None is given: the number counts seconds.
    Bare,
}

/// Whether the character that is `back` places from the end of `s` is the given
/// letter, in either case.
pub open spec fn ends_in(s: Seq<char>, back: int, lower: char) -> bool {
    s.len() >= back && is_letter(s[s.len() - back], lower)
}

/// The unit that ends `s`, in either case.
pub open spec fn unit_of(s: Seq<char>) -> Unit {
    if ends_in(s, 2, 'm') && ends_in(s, 1, 's') {
        Unit::Milliseconds
    } else if ends_in(s, 1, 's') {
        Unit::Seconds
    } else if ends_in(s, 1, 'm') {
        Unit::Minutes
    } else if ends_in(s, 1, 'h') {
        Unit::Hours
    } else {
        Unit::Bare
    }
}

impl Unit {
    /// How many characters the unit takes.
    pub open spec fn width(self) -> nat {
        match self {
            Unit::Milliseconds => 2,
            Unit::Bare => 0,
            _ => 1,
        }
    }

    /// The seconds in the unit, as a double-precision number.
    pub open spec fn seconds(self) -> nat {
        match self {
            Unit::Milliseconds => nearest_binary(one(), 1000),
            Unit::Minutes => 60 * one(),
            Unit::Hours => 3600 * one(),
            _ => one(),
        }
    }
}

/// What a text says as a duration.
pub enum Outcome {
    /// There is nothing but white space.
    Empty,
    /// There is a unit, but no number before it.
    MissingNumber,
    /// What stands before the unit is no number.
    Invalid,
    /// The number is negative, infinite or not a number.
    OutOfRange,
    /// These many seconds, as a double-precision number.
    Seconds(nat),
}

/// What `input` says as a duration: a number and a unit, with white space
/// around either. The number is read in double precision, and so is its product
/// with the seconds in the unit.
pub open spec fn read_duration(input: Seq<char>) -> Outcome {
    let text = trimmed(input);
    let unit = unit_of(text);
    let number = trimmed(text.take(text.len() - unit.width()));
    if text.len() == 0 {
        Outcome::Empty
    } else if number.len() == 0 {
        Outcome::MissingNumber
    } else {
        match read_number(number) {
            Reading::Invalid => Outcome::Invalid,
            Reading::Nan | Reading::Infinite => Outcome::OutOfRange,
            Reading::Decimal { negative, digits, exponent } => {
                let value = decimal_units(digits, exponent);
                if value >= finite_limit() || (negative && value > 0) {
                    Outcome::OutOfRange
                } else {
                    Outcome::Seconds(times(value, unit.seconds()))
                }
            },
        }
    }
}

/// Whether `input` says no duration that is too long for a [`Duration`].
pub open spec fn not_too_long(input: Seq<char>) -> bool {
    read_duration(input) matches Outcome::Seconds(seconds) ==> fits(seconds)
}

/// Why a text is no duration.
#[derive(Debug)]
pub enum DurationError {
    /// There is nothing but white space.
    Empty,
    /// There is a unit, but no number before it.
    MissingNumber { input: String },
    /// What stands before the unit is no number.
    Invalid { input: String },
    /// The number is negative, infinite or not a number.
    OutOfRange { input: String },
}

impl DurationError {
    /// Whether this is the error that `outcome` stands for, about `input`.
    pub open spec fn reports(self, outcome: Outcome, input: Seq<char>) -> bool {
        match (self, outcome) {
            (DurationError::Empty, Outcome::Empty) => true,
            (DurationError::MissingNumber { input: text }, Outcome::MissingNumber) => text@
                == input,
            (DurationError::Invalid { input: text }, Outcome::Invalid) => text@ == input,
            (DurationError::OutOfRange { input: text }, Outcome::OutOfRange) => text@ == input,
            _ => false,
        }
    }

    /// The text of the error.
    pub open spec fn text(self) -> Seq<char> {
        match self {
            DurationError::Empty => "empty duration string"@,
            DurationError::MissingNumber { input } => "duration '"@ + input@
                + "' has a unit but no number"@,
            DurationError::Invalid { input } => "'"@ + input@
                + "' is not a valid duration (expected e.g. 500ms, 1s, 2m, 1h)"@,
            DurationError::OutOfRange { input } => "duration '"@ + input@
                + "' must be a non-negative number"@,
        }
    }

    /// Says what is wrong.
    pub fn message(&self) -> (r: String)
        ensures
            r@ == self.text(),
    {
        let mut r: String = String::new();
        match self {
            DurationError::Empty => {
                r.append("empty duration string");
            },
            DurationError::MissingNumber { input } => {
                r.append("duration '");
                r.append(input.as_str());
                r.append("' has a unit but no number");
            },
            DurationError::Invalid { input } => {
                r.append("'");
                r.append(input.as_str());
                r.append("' is not a valid duration (expected e.g. 500ms, 1s, 2m, 1h)");
            },
            DurationError::OutOfRange { input } => {
                r.append("duration '");
                r.append(input.as_str());
                r.append("' must be a non-negative number");
            },
        }
        r
    }
}

/// [`is_white_space`], computed.
pub fn white_space(c: char) -> (r: bool)
    ensures
        r == is_white_space(c),
{
    ('\u{9}' <= c && c <= '\u{d}') || c == ' ' || c == '\u{85}' || c == '\u{a0}' || c == '\u{1680}'
        || ('\u{2000}' <= c && c <= '\u{200a}') || c == '\u{2028}' || c == '\u{2029}' || c
        == '\u{202f}' || c == '\u{205f}' || c == '\u{3000}'
}

/// The characters of a text.
fn characters(text: &str) -> (r: Vec<char>)
    ensures
        r@ == text@,
{
    let mut r: Vec<char> = Vec::new();
    for c in it: text.chars()
        invariant
            r@ == it.seq().take(it.index()),
            it.seq() == text@,
    {
        r.push(c);
    }
    r
}

/// The text without the white space around it.
fn trim(s: &Vec<char>) -> (r: Vec<char>)
    ensures
        r@ == trimmed(s@),
{
    let mut from: usize = 0;
    assert(s@.skip(0) =~= s@);
    while from < s.len() && white_space(s[from])
        invariant
            from <= s@.len(),
            trimmed_start(s@) == trimmed_start(s@.skip(from as int)),
        decreases s@.len() - from,
    {
        assert(s@.skip(from as int).skip(1) =~= s@.skip(from + 1));
        from = from + 1;
    }
    let mut to: usize = s.len();
    let ghost start = s@.skip(from as int);
    assert(s@.subrange(from as int, to as int) =~= start);
    while from < to && white_space(s[to - 1])
        invariant
            from <= to <= s@.len(),
            trimmed_end(start) == trimmed_end(s@.subrange(from as int, to as int)),
        decreases to,
    {
        assert(s@.subrange(from as int, to as int).drop_last() =~= s@.subrange(
            from as int,
            to - 1,
        ));
        to = to - 1;
    }
    part(s, from, to)
}

/// The unit that ends `s`.
fn find_unit(s: &Vec<char>) -> (r: Unit)
    ensures
        r == unit_of(s@),
        r.width() <= s@.len(),
{
    let n: usize = s.len();
    if n == 0 {
        return Unit::Bare;
    }
    let last: char = s[n - 1];
    if letter(last, 's') {
        if n > 1 && letter(s[n - 2], 'm') {
            Unit::Milliseconds
        } else {
            Unit::Seconds
        }
    } else if letter(last, 'm') {
        Unit::Minutes
    } else if letter(last, 'h') {
        Unit::Hours
    } else {
        Unit::Bare
    }
}

/// The seconds in a unit.
fn unit_seconds(unit: Unit) -> (r: Magnitude)
    ensures
        r@ == unit.seconds(),
        r.well_formed(),
{
    match unit {
        Unit::Milliseconds => {
            proof {
                lemma_pow2_pos(53);
                lemma_representable(1, 1074);
                lemma_nearest_at_most(one(), 1000, one());
                lemma_pow2_strictly_increases(1074, 2098);
            }
            nearest(&shifted(&BigNat::from_u128(1), 1074), &BigNat::from_u128(1000)).unwrap()
        },
        Unit::Minutes => Magnitude { mantissa: 60, shift: 1074 },
        Unit::Hours => Magnitude { mantissa: 3600, shift: 1074 },
        _ => Magnitude { mantissa: 1, shift: 1074 },
    }
}

/// Parses a duration string, like [`parse_duration`]; `Ok(None)` is a duration
/// that is too long.
pub fn checked_parse_duration(input: &str) -> (r: Result<Option<Duration>, DurationError>)
    ensures
        match (read_duration(input@), r) {
            (Outcome::Seconds(seconds), Ok(Some(d))) => fits(seconds) && d@ == to_nanos(seconds),
            (Outcome::Seconds(seconds), Ok(None)) => !fits(seconds),
            (outcome, Err(e)) => e.reports(outcome, input@),
            _ => false,
        },
{
    let text: Vec<char> = trim(&characters(input));
    if text.len() == 0 {
        return Err(DurationError::Empty);
    }
    let unit: Unit = find_unit(&text);
    let width: usize = match unit {
        Unit::Milliseconds => 2,
        Unit::Bare => 0,
        _ => 1,
    };
    assert(text@.subrange(0, text@.len() - width) =~= text@.take(text@.len() - width));
    let number: Vec<char> = trim(&part(&text, 0, text.len() - width));
    if number.len() == 0 {
        return Err(DurationError::MissingNumber { input: input.to_owned() });
    }
    match scan_number(&number) {
        Scan::Invalid => Err(DurationError::Invalid { input: input.to_owned() }),
        Scan::NotFinite => Err(DurationError::OutOfRange { input: input.to_owned() }),
        Scan::Finite { negative, magnitude } => {
            proof {
                lemma_pow2_pos(magnitude.shift as nat);
                assert(magnitude@ > 0 <==> magnitude.mantissa > 0) by (nonlinear_arith)
                    requires
                        magnitude@ == magnitude.mantissa as nat * pow2(magnitude.shift as nat),
                        pow2(magnitude.shift as nat) > 0,
                ;
                lemma_fits_is_finite();
            }
            if negative && magnitude.mantissa > 0 {
                return Err(DurationError::OutOfRange { input: input.to_owned() });
            }
            match multiplied(&magnitude, &unit_seconds(unit)) {
                Some(seconds) if seconds_fit(&seconds) => Ok(
                    Some(Duration::from_seconds(&seconds)),
                ),
                _ => Ok(None),
            }
        },
    }
}

/// What fits in a span of time is finite.
proof fn lemma_fits_is_finite()
    ensures
        forall|seconds: nat| fits(seconds) ==> seconds < finite_limit(),
{
    lemma2_to64_rest();
    lemma_pow2_adds(64, 1074);
    lemma_pow2_strictly_increases(1138, 2098);
}

/// Parses a duration string. Accepts a number followed by (in either case)
/// `ms`, `s`, `m` or `h`; a bare number is seconds. Fractional values are
/// allowed (`"1.5s"`).
pub fn parse_duration(input: &str) -> (r: Result<Duration, DurationError>)
    requires
        not_too_long(input@),
    ensures
        match (read_duration(input@), r) {
            (Outcome::Seconds(seconds), Ok(d)) => d@ == to_nanos(seconds),
            (outcome, Err(e)) => e.reports(outcome, input@),
            _ => false,
        },
{
    match checked_parse_duration(input) {
        Ok(d) => Ok(d.unwrap()),
        Err(e) => Err(e),
    }
}

/// An error reports its own outcome and no other, and holds the whole text that
/// was to be read.
pub proof fn law_errors_report_their_outcome(
    error: DurationError,
    outcome: Outcome,
    input: Seq<char>,
)
    ensures
        error.reports(outcome, input) <==> match error {
            DurationError::Empty => outcome is Empty,
            DurationError::MissingNumber { input: text } => outcome is MissingNumber && text@
                == input,
            DurationError::Invalid { input: text } => outcome is Invalid && text@ == input,
            DurationError::OutOfRange { input: text } => outcome is OutOfRange && text@ == input,
        },
{
}

/// The message of an error quotes the whole text that was to be read, between
/// what is said of it.
pub proof fn law_messages_quote_the_text(input: String)
    ensures
        ({
            let n = input@.len() as int;
            let missing = DurationError::MissingNumber { input }.text();
            let invalid = DurationError::Invalid { input }.text();
            let out = DurationError::OutOfRange { input }.text();
            &&& DurationError::Empty.text() == "empty duration string"@
            &&& missing.take(10) == "duration '"@
            &&& missing.subrange(10, 10 + n) == input@
            &&& missing.skip(10 + n) == "' has a unit but no number"@
            &&& invalid.take(1) == "'"@
            &&& invalid.subrange(1, 1 + n) == input@
            &&& invalid.skip(1 + n)
                == "' is not a valid duration (expected e.g. 500ms, 1s, 2m, 1h)"@
            &&& out.take(10) == "duration '"@
            &&& out.subrange(10, 10 + n) == input@
            &&& out.skip(10 + n) == "' must be a non-negative number"@
        }),
{
    let n = input@.len() as int;
    reveal_strlit("duration '");
    reveal_strlit("'");
    let missing = DurationError::MissingNumber { input }.text();
    let invalid = DurationError::Invalid { input }.text();
    let out = DurationError::OutOfRange { input }.text();
    assert(missing.take(10) =~= "duration '"@);
    assert(missing.subrange(10, 10 + n) =~= input@);
    assert(missing.skip(10 + n) =~= "' has a unit but no number"@);
    assert(invalid.take(1) =~= "'"@);
    assert(invalid.subrange(1, 1 + n) =~= input@);
    assert(invalid.skip(1 + n)
        =~= "' is not a valid duration (expected e.g. 500ms, 1s, 2m, 1h)"@);
    assert(out.take(10) =~= "duration '"@);
    assert(out.subrange(10, 10 + n) =~= input@);
    assert(out.skip(10 + n) =~= "' must be a non-negative number"@);
}

/// Only a duration whose seconds do not fit in a span of time is too long.
pub proof fn law_too_long_is_what_does_not_fit(input: Seq<char>)
    ensures
        !not_too_long(input) <==> read_duration(input) is Seconds && !fits(
            read_duration(input)->Seconds_0,
        ),
{
}

/// The 25 code points that Unicode counts as white space, and no others.
pub proof fn law_white_space_has_25_code_points(c: char)
    ensures
        is_white_space(c) <==> {
            let n = c as int;
            ||| 9 <= n <= 13
            ||| n == 32 || n == 133 || n == 160
            ||| n == 5760
            ||| 8192 <= n <= 8202
            ||| n == 8232 || n == 8233 || n == 8239 || n == 8287
            ||| n == 12288
        },
{
}

} // verus!
