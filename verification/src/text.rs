//! Numbers as text.

use crate::binary64::one;
use crate::rounding::half_even;
use crate::time::{scaled_seconds, to_seconds, Duration};
use vstd::prelude::*;

verus! {

/// The digit for `d`.
pub open spec fn digit(d: nat) -> char {
    ('0' as int + d) as char
}

/// `n` in decimal, without leading zeros.
pub open spec fn decimal_text(n: nat) -> Seq<char>
    decreases n,
{
    if n < 10 {
        seq![digit(n)]
    } else {
        decimal_text(n / 10).push(digit(n % 10))
    }
}

/// `n` in decimal, with a minus sign where it is negative.
pub open spec fn signed_text(n: int) -> Seq<char> {
    if n < 0 {
        seq!['-'] + decimal_text((-n) as nat)
    } else {
        decimal_text(n as nat)
    }
}

/// A span of time in double-precision seconds, to the nearest thousandth.
pub open spec fn thousandths(nanos: nat) -> nat {
    half_even(to_seconds(nanos) * 1000, one())
}

/// A span of time in seconds, with three digits after the point.
pub open spec fn seconds_text(nanos: nat) -> Seq<char> {
    let n = thousandths(nanos);
    decimal_text(n / 1000) + seq!['.', digit(n / 100 % 10), digit(n / 10 % 10), digit(n % 10)]
}

/// Appends one digit.
fn append_digit(out: &mut String, d: u8)
    requires
        d < 10,
    ensures
        final(out)@ == old(out)@.push(digit(d as nat)),
{
    proof {
        reveal_strlit("0");
        reveal_strlit("1");
        reveal_strlit("2");
        reveal_strlit("3");
        reveal_strlit("4");
        reveal_strlit("5");
        reveal_strlit("6");
        reveal_strlit("7");
        reveal_strlit("8");
        reveal_strlit("9");
    }
    let text: &str = match d {
        0 => "0",
        1 => "1",
        2 => "2",
        3 => "3",
        4 => "4",
        5 => "5",
        6 => "6",
        7 => "7",
        8 => "8",
        _ => "9",
    };
    assert(text@ =~= seq![digit(d as nat)]);
    out.append(text);
    assert(out@ =~= old(out)@.push(digit(d as nat)));
}

/// Appends a number in decimal.
pub fn append_decimal(out: &mut String, n: u128)
    ensures
        final(out)@ == old(out)@ + decimal_text(n as nat),
    decreases n,
{
    if n >= 10 {
        append_decimal(out, n / 10);
    }
    append_digit(out, (n % 10) as u8);
    assert(out@ =~= old(out)@ + decimal_text(n as nat));
}

/// Appends a number in decimal, with a minus sign where it is negative.
pub fn append_signed(out: &mut String, n: i32)
    ensures
        final(out)@ == old(out)@ + signed_text(n as int),
{
    if n < 0 {
        proof {
            reveal_strlit("-");
        }
        out.append("-");
        append_decimal(out, (-(n as i64)) as u128);
        assert(out@ =~= old(out)@ + signed_text(n as int));
    } else {
        append_decimal(out, n as u128);
    }
}

/// Appends a span of time in seconds, with three digits after the point.
pub fn append_seconds(out: &mut String, span: Duration)
    ensures
        final(out)@ == old(out)@ + seconds_text(span@),
{
    let n: u128 = scaled_seconds(&span.seconds(), 1000);
    proof {
        reveal_strlit(".");
    }
    append_decimal(out, n / 1000);
    out.append(".");
    append_digit(out, (n / 100 % 10) as u8);
    append_digit(out, (n / 10 % 10) as u8);
    append_digit(out, (n % 10) as u8);
    assert(out@ =~= old(out)@ + seconds_text(span@));
}

} // verus!
