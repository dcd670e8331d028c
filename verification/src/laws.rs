//! What holds of all duration strings, and of numbers as text.

use crate::binary64::{one, times};
use crate::decimal::{
    all_digits, decimal_units, digit_prefix, digits_value, has_minus, has_sign, is_digit,
    is_letter, is_sign, is_word, law_digits_count_in_tens, law_written_numbers_are_read,
    read_decimal, read_exponent, read_number, sign_text, without_sign, Reading, Written,
};
use crate::duration::{
    ends_in, is_white_space, read_duration, trimmed, trimmed_end, trimmed_start, unit_of, Outcome,
    Unit,
};
use crate::rounding::{
    law_no_integer_is_nearer, lemma_half_even_close, lemma_half_even_exact,
    lemma_nearest_at_least, lemma_nearest_at_most, lemma_nearest_error, lemma_nearest_exact,
    lemma_nearest_relative_error, lemma_nearest_representable, lemma_nearest_same_ratio,
    lemma_power_adds, lemma_power_positive, lemma_representable, nearest_binary, power,
};
use crate::squaring::lemma_times_one;
use crate::text::{decimal_text, digit, seconds_text, signed_text, thousandths};
use crate::time::{fits, to_nanos, to_seconds, NANOS_PER_SEC};
use vstd::arithmetic::power2::{
    lemma2_to64, lemma2_to64_rest, lemma_pow2_adds, lemma_pow2_pos, lemma_pow2_strictly_increases,
    pow2,
};
use vstd::math::abs;
use vstd::prelude::*;

verus! {

proof fn lemma_trimmed_start(s: Seq<char>)
    ensures
        trimmed_start(s).len() <= s.len(),
        trimmed_start(s).len() == 0 || !is_white_space(trimmed_start(s)[0]),
    decreases s.len(),
{
    if s.len() > 0 && is_white_space(s[0]) {
        lemma_trimmed_start(s.skip(1));
    }
}

proof fn lemma_trimmed_end(s: Seq<char>)
    ensures
        trimmed_end(s).len() <= s.len(),
        trimmed_end(s) == s.take(trimmed_end(s).len() as int),
        trimmed_end(s).len() == 0 || !is_white_space(trimmed_end(s).last()),
    decreases s.len(),
{
    if s.len() > 0 && is_white_space(s.last()) {
        lemma_trimmed_end(s.drop_last());
        let n = trimmed_end(s).len() as int;
        assert(s.drop_last().take(n) =~= s.take(n));
    } else {
        assert(s.take(s.len() as int) =~= s);
    }
}

/// White space around a duration makes no difference.
pub proof fn law_outer_white_space_is_ignored(input: Seq<char>)
    ensures
        trimmed(trimmed(input)) == trimmed(input),
        read_duration(trimmed(input)) == read_duration(input),
{
    let a = trimmed_start(input);
    let b = trimmed_end(a);
    lemma_trimmed_start(input);
    lemma_trimmed_end(a);
    assert(b.len() > 0 ==> b[0] == a[0]);
    assert(trimmed_start(b) == b);
    assert(trimmed_end(b) == b);
}

proof fn lemma_trimmed_start_push(s: Seq<char>, c: char)
    requires
        trimmed_start(s).len() > 0,
    ensures
        trimmed_start(s.push(c)) == trimmed_start(s).push(c),
    decreases s.len(),
{
    if s.len() > 0 && is_white_space(s[0]) {
        assert(s.push(c).skip(1) =~= s.skip(1).push(c));
        lemma_trimmed_start_push(s.skip(1), c);
    }
}

/// A bare number is seconds: the unit `s` after it makes no difference.
pub proof fn law_bare_number_is_seconds(input: Seq<char>)
    requires
        trimmed(input).len() > 0,
        unit_of(trimmed(input)) == Unit::Bare,
    ensures
        read_duration(input.push('s')) == read_duration(input),
{
    let a = trimmed_start(input);
    let text = trimmed(input);
    lemma_trimmed_start(input);
    lemma_trimmed_end(a);
    lemma_trimmed_start_push(input, 's');
    let long = a.push('s');
    assert(trimmed(input.push('s')) == long);
    assert(!ends_in(long, 2, 'm')) by {
        if is_letter(a.last(), 'm') {
            assert(text == a);
            assert(ends_in(text, 1, 'm'));
        }
    }
    assert(unit_of(long) == Unit::Seconds);
    assert(long.take(long.len() - 1) =~= a);
    assert(text.take(text.len() as int) =~= text);
    law_outer_white_space_is_ignored(input);
    assert(trimmed_start(a) == a);
}

/// A letter of the Latin alphabet in lower case; anything else as it is.
pub open spec fn lower_case(c: char) -> char {
    if 'A' <= c <= 'Z' {
        (c as int + 32) as char
    } else {
        c
    }
}

/// A text in lower case.
pub open spec fn lowered(s: Seq<char>) -> Seq<char> {
    s.map_values(|c: char| lower_case(c))
}

proof fn lemma_lower_case(c: char)
    ensures
        forall|l: char|
            'a' <= l <= 'z' ==> #[trigger] is_letter(lower_case(c), l) == is_letter(c, l),
        is_white_space(lower_case(c)) == is_white_space(c),
        is_digit(lower_case(c)) == is_digit(c),
        is_digit(c) ==> lower_case(c) == c,
        lower_case(c) == '+' <==> c == '+',
        lower_case(c) == '-' <==> c == '-',
        lower_case(c) == '.' <==> c == '.',
{
}

proof fn lemma_lowered_parts(s: Seq<char>, i: int)
    requires
        0 <= i <= s.len(),
    ensures
        lowered(s).skip(i) == lowered(s.skip(i)),
        lowered(s).take(i) == lowered(s.take(i)),
{
    assert(lowered(s).skip(i) =~= lowered(s.skip(i)));
    assert(lowered(s).take(i) =~= lowered(s.take(i)));
}

proof fn lemma_lowered_trimmed_start(s: Seq<char>)
    ensures
        trimmed_start(lowered(s)) == lowered(trimmed_start(s)),
    decreases s.len(),
{
    if s.len() > 0 {
        lemma_lower_case(s[0]);
        if is_white_space(s[0]) {
            lemma_lowered_parts(s, 1);
            lemma_lowered_trimmed_start(s.skip(1));
        }
    }
}

proof fn lemma_lowered_trimmed_end(s: Seq<char>)
    ensures
        trimmed_end(lowered(s)) == lowered(trimmed_end(s)),
    decreases s.len(),
{
    if s.len() > 0 {
        lemma_lower_case(s.last());
        if is_white_space(s.last()) {
            assert(lowered(s).drop_last() =~= lowered(s.drop_last()));
            lemma_lowered_trimmed_end(s.drop_last());
        }
    }
}

proof fn lemma_lowered_trimmed(s: Seq<char>)
    ensures
        trimmed(lowered(s)) == lowered(trimmed(s)),
{
    lemma_lowered_trimmed_start(s);
    lemma_lowered_trimmed_end(trimmed_start(s));
}

proof fn lemma_lowered_prefix(s: Seq<char>)
    ensures
        digit_prefix(lowered(s)) == digit_prefix(s),
        digit_prefix(s) <= s.len(),
    decreases s.len(),
{
    if s.len() > 0 {
        lemma_lower_case(s[0]);
        if is_digit(s[0]) {
            lemma_lowered_parts(s, 1);
            lemma_lowered_prefix(s.skip(1));
        }
    }
}

proof fn lemma_prefix_is_digits(s: Seq<char>, i: int)
    requires
        0 <= i < digit_prefix(s),
    ensures
        i < s.len(),
        is_digit(s[i]),
    decreases s.len(),
{
    if i > 0 {
        lemma_prefix_is_digits(s.skip(1), i - 1);
    }
}

/// Digits have no case.
proof fn lemma_lowered_digits(s: Seq<char>, n: int)
    requires
        0 <= n <= digit_prefix(s),
    ensures
        n <= s.len(),
        lowered(s).take(n) == s.take(n),
{
    lemma_lowered_prefix(s);
    assert forall|i: int| 0 <= i < n implies lowered(s)[i] == s[i] by {
        lemma_prefix_is_digits(s, i);
        lemma_lower_case(s[i]);
    }
    assert(lowered(s).take(n) =~= s.take(n));
}

proof fn lemma_lowered_sign(s: Seq<char>)
    ensures
        has_sign(lowered(s)) == has_sign(s),
        has_minus(lowered(s)) == has_minus(s),
        without_sign(lowered(s)) == lowered(without_sign(s)),
{
    if s.len() > 0 {
        lemma_lower_case(s[0]);
        lemma_lowered_parts(s, 1);
    }
}

proof fn lemma_lowered_exponent(s: Seq<char>)
    ensures
        read_exponent(lowered(s)) == read_exponent(s),
{
    if s.len() > 0 {
        lemma_lower_case(s[0]);
        lemma_lowered_parts(s, 1);
        lemma_lowered_sign(s.skip(1));
        let body = without_sign(s.skip(1));
        lemma_lowered_prefix(body);
        if digit_prefix(body) == body.len() {
            lemma_lowered_digits(body, body.len() as int);
            assert(body.take(body.len() as int) =~= body);
            assert(lowered(body).take(body.len() as int) =~= lowered(body));
        }
    }
}

proof fn lemma_lowered_decimal(negative: bool, s: Seq<char>)
    ensures
        read_decimal(negative, lowered(s)) == read_decimal(negative, s),
{
    let whole = digit_prefix(s) as int;
    lemma_lowered_prefix(s);
    lemma_lowered_digits(s, whole);
    lemma_lowered_parts(s, whole);
    let pointed = whole < s.len() && s[whole] == '.';
    if whole < s.len() {
        lemma_lower_case(s[whole]);
        lemma_lowered_parts(s, whole + 1);
    }
    let after = if pointed {
        s.skip(whole + 1)
    } else {
        s.skip(whole)
    };
    lemma_lowered_prefix(after);
    let fraction = if pointed {
        digit_prefix(after) as int
    } else {
        0
    };
    lemma_lowered_digits(after, fraction);
    lemma_lowered_parts(after, fraction);
    lemma_lowered_exponent(after.skip(fraction));
}

proof fn lemma_lowered_word(s: Seq<char>, word: Seq<char>)
    requires
        forall|i: int| 0 <= i < word.len() ==> 'a' <= #[trigger] word[i] <= 'z',
    ensures
        is_word(lowered(s), word) == is_word(s, word),
{
    if s.len() == word.len() {
        assert forall|i: int| 0 <= i < s.len() implies is_letter(#[trigger] lowered(s)[i], word[i])
            == is_letter(s[i], word[i]) by {
            lemma_lower_case(s[i]);
        }
        if is_word(lowered(s), word) {
            assert forall|i: int| 0 <= i < s.len() implies is_letter(#[trigger] s[i], word[i]) by {
                assert(is_letter(lowered(s)[i], word[i]));
            }
        }
    }
}

proof fn lemma_lowered_number(s: Seq<char>)
    ensures
        read_number(lowered(s)) == read_number(s),
{
    let body = without_sign(s);
    lemma_lowered_sign(s);
    lemma_lowered_word(body, seq!['i', 'n', 'f']);
    lemma_lowered_word(body, seq!['i', 'n', 'f', 'i', 'n', 'i', 't', 'y']);
    lemma_lowered_word(body, seq!['n', 'a', 'n']);
    lemma_lowered_decimal(has_minus(s), body);
}

/// Case makes no difference, neither in the unit nor in the number.
pub proof fn law_case_is_ignored(input: Seq<char>)
    ensures
        read_duration(lowered(input)) == read_duration(input),
{
    let text = trimmed(input);
    lemma_lowered_trimmed(input);
    if text.len() > 0 {
        lemma_lower_case(text.last());
        if text.len() > 1 {
            lemma_lower_case(text[text.len() - 2]);
        }
        let unit = unit_of(text);
        assert(unit_of(lowered(text)) == unit);
        let end = text.len() - unit.width();
        lemma_lowered_parts(text, end);
        lemma_lowered_trimmed(text.take(end));
        lemma_lowered_number(trimmed(text.take(end)));
    }
}

/// How a unit is written.
pub open spec fn unit_text(unit: Unit) -> Seq<char> {
    match unit {
        Unit::Milliseconds => seq!['m', 's'],
        Unit::Seconds => seq!['s'],
        Unit::Minutes => seq!['m'],
        Unit::Hours => seq!['h'],
        Unit::Bare => seq![],
    }
}

/// The nanoseconds in a unit.
pub open spec fn unit_nanos(unit: Unit) -> nat {
    match unit {
        Unit::Milliseconds => 1_000_000,
        Unit::Minutes => 60_000_000_000,
        Unit::Hours => 3_600_000_000_000,
        _ => 1_000_000_000,
    }
}

/// The decimal text of a number consists of digits that stand for it.
pub proof fn law_decimal_text_reads_back(n: nat)
    ensures
        decimal_text(n).len() > 0,
        forall|i: int| 0 <= i < decimal_text(n).len() ==> is_digit(#[trigger] decimal_text(n)[i]),
        digits_value(decimal_text(n)) == n,
    decreases n,
{
    let s = decimal_text(n);
    if n < 10 {
        assert(s.drop_last() =~= Seq::<char>::empty());
        assert(digits_value(Seq::<char>::empty()) == 0);
    } else {
        law_decimal_text_reads_back(n / 10);
        assert(s.drop_last() =~= decimal_text(n / 10));
    }
}

proof fn lemma_all_digits(s: Seq<char>)
    requires
        forall|i: int| 0 <= i < s.len() ==> is_digit(#[trigger] s[i]),
    ensures
        digit_prefix(s) == s.len(),
    decreases s.len(),
{
    if s.len() > 0 {
        assert(is_digit(s[0]));
        let rest = s.skip(1);
        assert forall|i: int| 0 <= i < rest.len() implies is_digit(#[trigger] rest[i]) by {
            assert(is_digit(s[i + 1]));
        }
        lemma_all_digits(rest);
    }
}

/// A row of digits reads as a number without sign or exponent.
proof fn lemma_digits_read(s: Seq<char>)
    requires
        s.len() > 0,
        forall|i: int| 0 <= i < s.len() ==> is_digit(#[trigger] s[i]),
    ensures
        read_number(s) == (Reading::Decimal {
            negative: false,
            digits: digits_value(s),
            exponent: 0,
        }),
{
    assert(is_digit(s[0]));
    lemma_all_digits(s);
    assert(!is_letter(s[0], 'i') && !is_letter(s[0], 'n'));
    assert(s.take(s.len() as int) + s.skip(s.len() as int).take(0) =~= s);
    assert(s.skip(s.len() as int).skip(0).len() == 0);
}

/// A whole number of units is read without loss, up to `2^53`.
proof fn lemma_whole_number_read(n: nat, unit: Unit)
    requires
        n <= pow2(53),
    ensures
        read_duration(decimal_text(n) + unit_text(unit)) == Outcome::Seconds(
            nearest_binary(n * unit.seconds(), 1),
        ),
{
    let number = decimal_text(n);
    let text = number + unit_text(unit);
    law_decimal_text_reads_back(n);
    assert(is_digit(number[0]));
    assert(is_digit(number.last()));
    assert(text[0] == number[0]);
    assert(!is_white_space(text.last()));
    assert(trimmed(text) == text);
    assert(unit_of(text) == unit) by {
        let last = text.last();
        if unit == Unit::Milliseconds {
            assert(text[text.len() - 2] == 'm');
        } else if unit == Unit::Seconds {
            assert(text.len() >= 2);
            assert(text[text.len() - 2] == number.last());
        }
    }
    assert(text.take(text.len() - unit.width()) =~= number);
    assert(trimmed(number) == number);
    lemma_digits_read(number);
    // The value of the digits is exact.
    let u = one();
    lemma_pow2_pos(1074);
    lemma_representable(n, 1074);
    lemma_nearest_exact(n * u, 1);
    assert(power(10, 0) == 1);
    assert(n * 1 * u == n * u && n * u * 1 == n * u);
    assert(decimal_units(n, 0) == n * u);
    lemma_pow2_adds(53, 1074);
    lemma_pow2_strictly_increases(1127, 2098);
    assert(n * u <= pow2(53) * u) by (nonlinear_arith)
        requires
            n <= pow2(53),
    ;
    let w = unit.seconds();
    assert(((n * u) * w) * 1 == (n * w) * u) by (nonlinear_arith);
    lemma_nearest_same_ratio((n * u) * w, u, n * w, 1);
}

/// A whole number and a unit are exactly that many units: up to `2^53` seconds,
/// and up to `2^31` milliseconds.
pub proof fn law_whole_numbers_are_exact(n: nat, unit: Unit)
    requires
        n * unit_nanos(unit) <= pow2(53) * NANOS_PER_SEC,
        unit == Unit::Milliseconds ==> n <= 0x8000_0000,
    ensures
        read_duration(decimal_text(n) + unit_text(unit)) matches Outcome::Seconds(seconds)
            && fits(seconds) && to_nanos(seconds) == n * unit_nanos(unit),
{
    let u = one();
    lemma2_to64();
    lemma2_to64_rest();
    assert(pow2(53) == 0x20_0000_0000_0000);
    lemma_pow2_pos(1074);
    lemma_whole_number_read(n, unit);
    if unit == Unit::Milliseconds {
        lemma_milliseconds(n);
    } else {
        let k = unit_nanos(unit) / 1_000_000_000;
        let v = n * k;
        assert(n * (k * u) == v * u) by (nonlinear_arith)
            requires
                v == n * k,
        ;
        assert(v <= pow2(53)) by (nonlinear_arith)
            requires
                n * (k * 1_000_000_000) <= pow2(53) * 1_000_000_000,
                v == n * k,
        ;
        lemma_representable(v, 1074);
        lemma_nearest_exact(v * u, 1);
        let seconds = nearest_binary(n * unit.seconds(), 1);
        assert(unit.seconds() == k * u) by {
            if unit == Unit::Minutes {
                assert(k == 60);
                assert(k * u == 60 * u) by (nonlinear_arith)
                    requires
                        k == 60,
                ;
            } else if unit == Unit::Hours {
                assert(k == 3600);
                assert(k * u == 3600 * u) by (nonlinear_arith)
                    requires
                        k == 3600,
                ;
            } else {
                assert(k == 1);
                assert(k * u == u) by (nonlinear_arith)
                    requires
                        k == 1,
                ;
            }
        }
        assert((v * u) * 1 == v * u);
        assert(seconds == v * u);
        assert((v * u) * 1_000_000_000 == (v * 1_000_000_000) * u) by (nonlinear_arith);
        lemma_half_even_exact(v * 1_000_000_000, u);
        assert(v * 1_000_000_000 == n * unit_nanos(unit)) by (nonlinear_arith)
            requires
                v == n * k,
                unit_nanos(unit) == k * 1_000_000_000,
        ;
        assert(v * u < 0x1_0000_0000_0000_0000 * u) by (nonlinear_arith)
            requires
                v < 0x1_0000_0000_0000_0000,
                u > 0,
        ;
    }
}

/// Milliseconds are off by less than half a nanosecond.
proof fn lemma_milliseconds(n: nat)
    requires
        n <= 0x8000_0000,
    ensures
        fits(nearest_binary(n * nearest_binary(one(), 1000), 1)),
        to_nanos(nearest_binary(n * nearest_binary(one(), 1000), 1)) == n * 1_000_000,
{
    let u = one();
    let milli = nearest_binary(u, 1000);
    let product = n * milli;
    let seconds = nearest_binary(product, 1);
    let e = pow2(1012);
    let f = pow2(1043);
    lemma2_to64();
    lemma2_to64_rest();
    lemma_pow2_pos(1012);
    lemma_pow2_pos(1043);
    lemma_pow2_adds(62, 1012);
    lemma_pow2_adds(31, 1043);
    lemma_pow2_adds(31, 1012);
    lemma_pow2_adds(53, 1012);
    lemma_pow2_adds(53, 1043);
    lemma_pow2_adds(22, 1074);
    // One thousandth, off by at most 2^1011 units.
    assert(u < 1000 * pow2(1065)) by (nonlinear_arith)
        requires
            u == 0x4000_0000_0000_0000 * e,
            pow2(1065) == 0x20_0000_0000_0000 * e,
            e > 0,
    ;
    lemma_nearest_error(u, 1000, 1012);
    assert(2 * (milli * 1000) <= 2 * u + 1000 * e);
    assert(2 * u <= 2 * (milli * 1000) + 1000 * e);
    // The product, off by at most 2^1042 units.
    assert(product < pow2(1096)) by (nonlinear_arith)
        requires
            product == n * milli,
            n <= 0x8000_0000,
            2 * (milli * 1000) <= 2 * u + 1000 * e,
            u == 0x4000_0000_0000_0000 * e,
            pow2(1096) == 0x40_0000 * u,
            e > 0,
    {
        assert(milli <= 0x20_0000_0000_0000 * e);
        assert(n * milli <= 0x8000_0000 * milli);
    }
    lemma_nearest_error(product, 1, 1043);
    assert(f == 0x8000_0000 * e);
    let near = n * 1_000_000;
    let g: nat = 1_000_000_000;
    assert(2 * (seconds * g) < 2 * (near * u) + u) by (nonlinear_arith)
        requires
            2 * seconds <= 2 * product + f,
            product == n * milli,
            2 * (milli * 1000) <= 2 * u + 1000 * e,
            near == n * 1_000_000,
            g == 1_000_000_000,
            n <= 0x8000_0000,
            f == 0x8000_0000 * e,
            u == 0x4000_0000_0000_0000 * e,
            e > 0,
    {
        assert(2 * (seconds * g) <= (2 * product + f) * g);
        assert(n * (2 * (milli * 1000)) <= n * (2 * u + 1000 * e));
        assert((2 * product) * g == 1_000_000 * (n * (2 * (milli * 1000))));
        assert(n * e <= 0x8000_0000 * e);
        assert(1_000_000 * (n * (2 * u + 1000 * e)) == 2 * (near * u) + 1_000_000_000 * (n * e));
    }
    assert(2 * (near * u) < 2 * (seconds * g) + u) by (nonlinear_arith)
        requires
            2 * product <= 2 * seconds + f,
            product == n * milli,
            2 * u <= 2 * (milli * 1000) + 1000 * e,
            near == n * 1_000_000,
            g == 1_000_000_000,
            n <= 0x8000_0000,
            f == 0x8000_0000 * e,
            u == 0x4000_0000_0000_0000 * e,
            e > 0,
    {
        assert((2 * product) * g <= (2 * seconds + f) * g);
        assert(n * (2 * u) <= n * (2 * (milli * 1000) + 1000 * e));
        assert((2 * product) * g == 1_000_000 * (n * (2 * (milli * 1000))));
        assert(n * e <= 0x8000_0000 * e);
        assert(1_000_000 * (n * (2 * u)) == 2 * (near * u));
    }
    lemma_half_even_close(seconds * g, u, near);
    assert(seconds < 0x1_0000_0000_0000_0000 * u) by (nonlinear_arith)
        requires
            2 * seconds <= 2 * product + f,
            product < 0x40_0000 * u,
            f == 0x8000_0000 * e,
            u == 0x4000_0000_0000_0000 * e,
            e > 0,
    ;
}

/// After a sign or none, `inf` and `infinity` are read as infinite, and `nan` as
/// not a number, in either case, and nothing else is.
pub proof fn law_words_are_read(sign: Option<char>, word: Seq<char>)
    requires
        is_sign(sign),
        sign is None ==> word.len() == 0 || (word[0] != '+' && word[0] != '-'),
    ensures
        read_number(sign_text(sign) + word) == Reading::Infinite <==> lowered(word) == seq![
            'i', 'n', 'f',
        ] || lowered(word) == seq!['i', 'n', 'f', 'i', 'n', 'i', 't', 'y'],
        read_number(sign_text(sign) + word) == Reading::Nan <==> lowered(word) == seq![
            'n', 'a', 'n',
        ],
{
    let s = sign_text(sign) + word;
    assert(without_sign(s) =~= word) by {
        if sign is Some {
            assert(s.skip(1) =~= word);
        } else {
            assert(s =~= word);
        }
    }
    lemma_word_in_lower_case(word, seq!['i', 'n', 'f']);
    lemma_word_in_lower_case(word, seq!['i', 'n', 'f', 'i', 'n', 'i', 't', 'y']);
    lemma_word_in_lower_case(word, seq!['n', 'a', 'n']);
    assert(seq!['i', 'n', 'f'] != seq!['n', 'a', 'n']) by {
        assert(seq!['i', 'n', 'f'][0] != seq!['n', 'a', 'n'][0]);
    }
    assert(seq!['i', 'n', 'f', 'i', 'n', 'i', 't', 'y'].len() == 8);
    assert(seq!['n', 'a', 'n'].len() == 3);
}

proof fn lemma_word_in_lower_case(s: Seq<char>, word: Seq<char>)
    requires
        forall|i: int| 0 <= i < word.len() ==> 'a' <= #[trigger] word[i] <= 'z',
    ensures
        is_word(s, word) <==> lowered(s) == word,
{
    if is_word(s, word) {
        assert forall|i: int| 0 <= i < s.len() implies #[trigger] lowered(s)[i] == word[i] by {
            assert(is_letter(s[i], word[i]));
        }
        assert(lowered(s) =~= word);
    }
    if lowered(s) == word {
        assert(s.len() == word.len());
        assert forall|i: int| 0 <= i < s.len() implies is_letter(#[trigger] s[i], word[i]) by {
            assert(lowered(s)[i] == lower_case(s[i]));
            assert(lowered(s)[i] == word[i]);
        }
    }
}

/// Whether a text is nothing but white space.
pub open spec fn blank(s: Seq<char>) -> bool {
    forall|i: int| 0 <= i < s.len() ==> is_white_space(#[trigger] s[i])
}

proof fn lemma_blank_start(before: Seq<char>, s: Seq<char>)
    requires
        blank(before),
        s.len() > 0 ==> !is_white_space(s[0]),
    ensures
        trimmed_start(before + s) == s,
    decreases before.len(),
{
    if before.len() == 0 {
        assert(before + s =~= s);
    } else {
        let fewer = before.skip(1);
        assert(is_white_space(before[0]));
        assert((before + s)[0] == before[0]);
        assert forall|i: int| 0 <= i < fewer.len() implies is_white_space(#[trigger] fewer[i]) by {
            assert(fewer[i] == before[i + 1]);
        }
        lemma_blank_start(fewer, s);
        assert((before + s).skip(1) =~= fewer + s);
    }
}

proof fn lemma_blank_end(s: Seq<char>, after: Seq<char>)
    requires
        blank(after),
        s.len() > 0 ==> !is_white_space(s.last()),
    ensures
        trimmed_end(s + after) == s,
    decreases after.len(),
{
    if after.len() == 0 {
        assert(s + after =~= s);
    } else {
        let fewer = after.drop_last();
        assert(is_white_space(after[after.len() - 1]));
        assert((s + after).last() == after.last());
        assert forall|i: int| 0 <= i < fewer.len() implies is_white_space(#[trigger] fewer[i]) by {
            assert(fewer[i] == after[i]);
        }
        lemma_blank_end(s, fewer);
        assert((s + after).drop_last() =~= s + fewer);
    }
}

proof fn lemma_trimmed_of_padded(before: Seq<char>, s: Seq<char>, after: Seq<char>)
    requires
        blank(before),
        blank(after),
        s.len() > 0,
        !is_white_space(s[0]),
        !is_white_space(s.last()),
    ensures
        trimmed(before + s + after) == s,
{
    assert(before + s + after =~= before + (s + after));
    assert((s + after)[0] == s[0]);
    lemma_blank_start(before, s + after);
    lemma_blank_end(s, after);
}

/// A text of white space alone is an empty duration.
pub proof fn law_blank_text_is_empty(s: Seq<char>)
    requires
        blank(s),
    ensures
        read_duration(s) == Outcome::Empty,
{
    lemma_blank_start(s, seq![]);
    assert(s + seq![] =~= s);
    assert(trimmed(s).len() == 0);
}

/// A unit alone, in either case and with white space around it, lacks a number.
pub proof fn law_unit_alone_lacks_a_number(
    before: Seq<char>,
    unit: Unit,
    written: Seq<char>,
    after: Seq<char>,
)
    requires
        blank(before),
        blank(after),
        unit != Unit::Bare,
        lowered(written) == unit_text(unit),
    ensures
        read_duration(before + written + after) == Outcome::MissingNumber,
{
    lemma_written_unit(unit, written);
    lemma_trimmed_of_padded(before, written, after);
    lemma_unit_is_found(seq![], unit, written);
    assert(seq![] + written =~= written);
    let none = written.take(written.len() - unit.width());
    assert(none =~= seq![]);
    assert(trimmed(none).len() == 0);
}

/// The characters of a unit are letters.
proof fn lemma_written_unit(unit: Unit, written: Seq<char>)
    requires
        lowered(written) == unit_text(unit),
    ensures
        written.len() == unit_text(unit).len(),
        forall|i: int|
            0 <= i < written.len() ==> lower_case(#[trigger] written[i]) == unit_text(unit)[i]
                && !is_white_space(written[i]),
{
    assert(lowered(written).len() == written.len());
    assert forall|i: int| 0 <= i < written.len() implies lower_case(#[trigger] written[i])
        == unit_text(unit)[i] && !is_white_space(written[i]) by {
        assert(lowered(written)[i] == lower_case(written[i]));
        lemma_lower_case(written[i]);
    }
}

/// Whether a text can stand before a unit without being taken for a part of it.
pub open spec fn apart_from(s: Seq<char>, unit: Unit) -> bool {
    s.len() > 0 ==> match unit {
        Unit::Bare => {
            let last = lower_case(s.last());
            last != 's' && last != 'm' && last != 'h'
        },
        Unit::Seconds => lower_case(s.last()) != 'm',
        _ => true,
    }
}

/// The unit is the one at the end.
proof fn lemma_unit_is_found(front: Seq<char>, unit: Unit, written: Seq<char>)
    requires
        lowered(written) == unit_text(unit),
        apart_from(front, unit),
    ensures
        unit_of(front + written) == unit,
{
    let text = front + written;
    lemma_written_unit(unit, written);
    if unit == Unit::Bare {
        assert(text =~= front);
        if front.len() > 0 {
            lemma_lower_case(front.last());
            assert(is_letter(lower_case(front.last()), 's') == is_letter(front.last(), 's'));
            assert(is_letter(lower_case(front.last()), 'm') == is_letter(front.last(), 'm'));
            assert(is_letter(lower_case(front.last()), 'h') == is_letter(front.last(), 'h'));
            assert(text[text.len() - 1] == front.last());
        }
    } else if unit == Unit::Milliseconds {
        assert(text[text.len() - 2] == written[0]);
        assert(text[text.len() - 1] == written[1]);
    } else {
        assert(text[text.len() - 1] == written[0]);
        if front.len() > 0 {
            assert(text[text.len() - 2] == front.last());
            lemma_lower_case(front.last());
            assert(is_letter(lower_case(front.last()), 'm') == is_letter(front.last(), 'm'));
        }
    }
}

/// A duration is a number and a unit, in either case, with white space around
/// either: as many of the unit's seconds as the number says, where the number
/// and the product are rounded. A number that is negative, infinite or not a
/// number is out of range, and what is no number is invalid.
pub proof fn law_duration_is_a_number_of_units(
    before: Seq<char>,
    number: Seq<char>,
    between: Seq<char>,
    unit: Unit,
    written: Seq<char>,
    after: Seq<char>,
)
    requires
        blank(before),
        blank(between),
        blank(after),
        number.len() > 0,
        !is_white_space(number[0]),
        !is_white_space(number.last()),
        lowered(written) == unit_text(unit),
        unit == Unit::Bare ==> between.len() == 0,
        apart_from(number + between, unit),
    ensures
        read_duration(before + (number + between + written) + after) == match read_number(number) {
            Reading::Invalid => Outcome::Invalid,
            Reading::Nan => Outcome::OutOfRange,
            Reading::Infinite => Outcome::OutOfRange,
            Reading::Decimal { negative, digits, exponent } => {
                let value = decimal_units(digits, exponent);
                if value >= pow2(2098) || (negative && value > 0) {
                    Outcome::OutOfRange
                } else {
                    Outcome::Seconds(
                        times(
                            value,
                            nearest_binary(unit_nanos(unit) * pow2(1074), 1_000_000_000),
                        ),
                    )
                }
            },
        },
{
    let text = number + between + written;
    lemma_written_unit(unit, written);
    assert(text[0] == number[0]);
    assert(!is_white_space(text.last())) by {
        if written.len() > 0 {
            assert(text.last() == written[written.len() - 1]);
        } else {
            assert(text =~= number);
        }
    }
    lemma_trimmed_of_padded(before, text, after);
    lemma_unit_is_found(number + between, unit, written);
    let front = text.take(text.len() - unit.width());
    assert(unit.width() == written.len());
    assert(front =~= seq![] + number + between);
    lemma_trimmed_of_padded(seq![], number, between);
    lemma_unit_seconds(unit);
}

/// The seconds in a unit are the nearest number to its nanoseconds.
proof fn lemma_unit_seconds(unit: Unit)
    ensures
        unit.seconds() == nearest_binary(unit_nanos(unit) * one(), 1_000_000_000),
{
    let u = one();
    let g: nat = 1_000_000_000;
    lemma_pow2_pos(1074);
    lemma2_to64_rest();
    if unit == Unit::Milliseconds {
        assert(u * g == (1_000_000 * u) * 1000) by (nonlinear_arith)
            requires
                g == 1_000_000_000,
        ;
        lemma_nearest_same_ratio(u, 1000, 1_000_000 * u, g);
    } else {
        let k = unit_nanos(unit) / g;
        assert(k * g == unit_nanos(unit));
        lemma_representable(k, 1074);
        lemma_nearest_exact(k * u, g);
        assert((k * g) * u == (k * u) * g) by (nonlinear_arith);
        assert(k == 60 || k == 3600 || k == 1);
        assert((k == 60 ==> k * u == 60 * u) && (k == 3600 ==> k * u == 3600 * u) && (k == 1 ==> k
            * u == u)) by (nonlinear_arith);
    }
}

/// A number with a point: how it is read, and how it begins and ends.
proof fn lemma_pointed_number(whole: Seq<char>, fraction: Seq<char>)
    requires
        all_digits(whole),
        all_digits(fraction),
        whole.len() + fraction.len() > 0,
    ensures
        ({
            let text = whole + seq!['.'] + fraction;
            &&& read_number(text) == (Reading::Decimal {
                negative: false,
                digits: digits_value(whole + fraction),
                exponent: -(fraction.len() as int),
            })
            &&& !is_white_space(text[0])
            &&& !is_white_space(text.last())
            &&& !('a' <= lower_case(text.last()) <= 'z')
        }),
{
    let number = Written { sign: None, whole, point: true, fraction, tail: None };
    let text = whole + seq!['.'] + fraction;
    assert(number.text() =~= text);
    law_written_numbers_are_read(number);
    if whole.len() > 0 {
        assert(text[0] == whole[0]);
    } else {
        assert(text[0] == '.');
    }
    if fraction.len() > 0 {
        assert(text.last() == fraction[fraction.len() - 1]);
    } else {
        assert(text.last() == '.');
    }
}

/// A number and a unit, without white space.
proof fn lemma_bare_duration(number: Seq<char>, unit: Unit)
    requires
        number.len() > 0,
        !is_white_space(number[0]),
        !is_white_space(number.last()),
        !('a' <= lower_case(number.last()) <= 'z'),
        read_number(number) is Decimal,
        !read_number(number)->negative,
    ensures
        ({
            let value = decimal_units(read_number(number)->digits, read_number(number)->exponent);
            read_duration(number + unit_text(unit)) == if value < pow2(2098) {
                Outcome::Seconds(
                    times(value, nearest_binary(unit_nanos(unit) * pow2(1074), 1_000_000_000)),
                )
            } else {
                Outcome::OutOfRange
            }
        }),
{
    let none = Seq::<char>::empty();
    let written = unit_text(unit);
    assert(lowered(written) =~= written);
    assert(number + none =~= number);
    law_duration_is_a_number_of_units(none, number, none, unit, written, none);
    assert(none + (number + none + written) + none =~= number + written);
}

/// A number with a point, and a unit after it: all digits together are divided
/// by ten as often as there are digits after the point.
pub proof fn law_fractions_are_read(whole: Seq<char>, fraction: Seq<char>, unit: Unit)
    requires
        all_digits(whole),
        all_digits(fraction),
        whole.len() + fraction.len() > 0,
    ensures
        ({
            let value = nearest_binary(
                digits_value(whole + fraction) * pow2(1074),
                power(10, fraction.len()),
            );
            read_duration(whole + seq!['.'] + fraction + unit_text(unit)) == if value < pow2(
                2098,
            ) {
                Outcome::Seconds(
                    times(value, nearest_binary(unit_nanos(unit) * pow2(1074), 1_000_000_000)),
                )
            } else {
                Outcome::OutOfRange
            }
        }),
{
    let text = whole + seq!['.'] + fraction;
    let digits = digits_value(whole + fraction);
    lemma_pointed_number(whole, fraction);
    lemma_bare_duration(text, unit);
    if fraction.len() == 0 {
        assert(power(10, 0) == 1);
        assert(digits * 1 * one() == digits * one());
    }
}

/// A fraction of a second with up to nine digits after the point is exactly as
/// many nanoseconds as it says, up to `2^23` seconds.
pub proof fn law_fractions_of_a_second_are_exact(
    whole: Seq<char>,
    fraction: Seq<char>,
    unit: Unit,
)
    requires
        all_digits(whole),
        all_digits(fraction),
        whole.len() + fraction.len() > 0,
        fraction.len() <= 9,
        unit == Unit::Seconds || unit == Unit::Bare,
        digits_value(whole + fraction) < 0x80_0000 * power(10, fraction.len()),
    ensures
        read_duration(
            whole + seq!['.'] + fraction + unit_text(unit),
        ) matches Outcome::Seconds(seconds) && fits(seconds) && to_nanos(seconds) == digits_value(
            whole + fraction,
        ) * power(10, (9 - fraction.len()) as nat),
{
    let u = one();
    let g: nat = 1_000_000_000;
    let k = fraction.len();
    let d = power(10, k);
    let r = power(10, (9 - k) as nat);
    let n = digits_value(whole + fraction);
    let value = nearest_binary(n * u, d);
    law_fractions_are_read(whole, fraction, unit);
    lemma_power_positive(10, k);
    lemma_power_adds(10, k, (9 - k) as nat);
    reveal_with_fuel(power, 10);
    assert(power(10, 9) == g);
    lemma_pow2_pos(1074);
    lemma2_to64();
    lemma2_to64_rest();
    lemma_representable(1, 1074);
    lemma_nearest_exact(u, g);
    assert(u * g == g * u) by (nonlinear_arith);
    lemma_pow2_adds(23, 1074);
    assert(n * u < d * pow2(1097)) by (nonlinear_arith)
        requires
            n < 0x80_0000 * d,
            pow2(1097) == 0x80_0000 * u,
            u > 0,
    ;
    lemma_nearest_error(n * u, d, 1044);
    lemma_nearest_representable(n * u, d);
    lemma_times_one(value);
    assert(1 * u == u);
    lemma_pow2_adds(30, 1044);
    let e = pow2(1044);
    lemma_pow2_pos(1044);
    let near = n * r;
    assert(2 * (value * g) < 2 * (near * u) + u) by (nonlinear_arith)
        requires
            2 * (value * d) <= 2 * (n * u) + d * e,
            near == n * r,
            d * r == g,
            g == 1_000_000_000,
            u == 0x4000_0000 * e,
            e > 0,
            r > 0,
    {
        assert((2 * (value * d)) * r <= (2 * (n * u) + d * e) * r);
        assert((value * d) * r == value * (d * r));
        assert((d * e) * r == (d * r) * e);
        assert((n * u) * r == (n * r) * u);
    }
    assert(2 * (near * u) < 2 * (value * g) + u) by (nonlinear_arith)
        requires
            2 * (n * u) <= 2 * (value * d) + d * e,
            near == n * r,
            d * r == g,
            g == 1_000_000_000,
            u == 0x4000_0000 * e,
            e > 0,
            r > 0,
    {
        assert((2 * (n * u)) * r <= (2 * (value * d) + d * e) * r);
        assert((value * d) * r == value * (d * r));
        assert((d * e) * r == (d * r) * e);
        assert((n * u) * r == (n * r) * u);
    }
    lemma_half_even_close(value * g, u, near);
    lemma_representable(1, 1097);
    assert(1 * pow2(1097) == pow2(1097));
    assert(n * u <= pow2(1097) * d) by (nonlinear_arith)
        requires
            n * u < d * pow2(1097),
    ;
    lemma_nearest_at_most(n * u, d, pow2(1097));
    lemma_pow2_strictly_increases(1097, 2098);
    lemma_pow2_adds(64, 1074);
    lemma_pow2_strictly_increases(1097, 1138);
}

/// A duration with a point is off from the exact one by no more than three
/// roundings in a row can make of it, each of them by one part in `2^53`, as
/// long as neither the number nor the duration is so small that it has fewer
/// than 53 bits.
pub proof fn law_fractions_are_close(whole: Seq<char>, fraction: Seq<char>, unit: Unit)
    requires
        all_digits(whole),
        all_digits(fraction),
        whole.len() + fraction.len() > 0,
        nearest_binary(digits_value(whole + fraction) * pow2(1074), power(10, fraction.len()))
            > pow2(52),
        read_duration(
            whole + seq!['.'] + fraction + unit_text(unit),
        ) matches Outcome::Seconds(seconds) && seconds > pow2(52),
    ensures
        ({
            let seconds = read_duration(
                whole + seq!['.'] + fraction + unit_text(unit),
            )->Seconds_0;
            let parts = pow2(53);
            let less = (parts - 1) as nat;
            let more = parts + 1;
            let exact = digits_value(whole + fraction) * unit_nanos(unit) * pow2(1074);
            let found = seconds * power(10, fraction.len()) * 1_000_000_000;
            &&& less * (less * (less * exact)) <= parts * (parts * (parts * found))
            &&& parts * (parts * (parts * found)) <= more * (more * (more * exact))
        }),
{
    let u = one();
    let g: nat = 1_000_000_000;
    let e = pow2(53);
    let l = (e - 1) as nat;
    let m = e + 1;
    let d = power(10, fraction.len());
    let n = digits_value(whole + fraction);
    let k = unit_nanos(unit);
    let v = nearest_binary(n * u, d);
    let w = nearest_binary(k * u, g);
    let s = times(v, w);
    law_fractions_are_read(whole, fraction, unit);
    lemma_power_positive(10, fraction.len());
    lemma_pow2_pos(1074);
    lemma_pow2_pos(53);
    // The unit is at least 2^-10 seconds.
    let least = pow2(1064);
    lemma_pow2_adds(10, 1064);
    lemma2_to64();
    lemma_representable(1, 1064);
    assert(1 * least == least);
    assert(least * g <= k * u) by (nonlinear_arith)
        requires
            k >= 1_000_000,
            u == 1024 * least,
            g == 1_000_000_000,
    ;
    lemma_nearest_at_least(k * u, g, least);
    lemma_pow2_strictly_increases(52, 1064);
    lemma_nearest_relative_error(n * u, d);
    lemma_nearest_relative_error(k * u, g);
    lemma_nearest_relative_error(v * w, u);
    let a = n * u;
    let b = k * u;
    let x = v * d;
    let y = w * g;
    let z = s * u;
    let exact = n * k * u;
    let found = s * d * g;
    assert(x * y == (v * w) * (d * g)) by (nonlinear_arith)
        requires
            x == v * d,
            y == w * g,
    ;
    lemma_three_below(l, e, a, x, b, y, v * w, z, d * g);
    lemma_three_above(e, m, x, a, y, b, z, v * w, d * g);
    assert(a * b == exact * u) by (nonlinear_arith)
        requires
            a == n * u,
            b == k * u,
            exact == n * k * u,
    ;
    assert(z * (d * g) == found * u) by (nonlinear_arith)
        requires
            z == s * u,
            found == s * d * g,
    ;
    lemma_cancel_three(l, l, l, exact, e, e, e, found, u);
    lemma_cancel_three(e, e, e, found, m, m, m, exact, u);
}

/// Three factors before a product are as many before the product less one
/// factor.
proof fn lemma_cancel_three(
    a1: nat,
    a2: nat,
    a3: nat,
    x: nat,
    b1: nat,
    b2: nat,
    b3: nat,
    y: nat,
    u: nat,
)
    requires
        a1 * (a2 * (a3 * (x * u))) <= b1 * (b2 * (b3 * (y * u))),
        u > 0,
    ensures
        a1 * (a2 * (a3 * x)) <= b1 * (b2 * (b3 * y)),
{
    let l = a1 * (a2 * (a3 * x));
    let r = b1 * (b2 * (b3 * y));
    assert(a1 * (a2 * (a3 * (x * u))) == l * u) by {
        assert(a3 * (x * u) == (a3 * x) * u) by (nonlinear_arith);
        let p = a3 * x;
        assert(a2 * (p * u) == (a2 * p) * u) by (nonlinear_arith);
        let q = a2 * p;
        assert(a1 * (q * u) == (a1 * q) * u) by (nonlinear_arith);
    }
    assert(b1 * (b2 * (b3 * (y * u))) == r * u) by {
        assert(b3 * (y * u) == (b3 * y) * u) by (nonlinear_arith);
        let p = b3 * y;
        assert(b2 * (p * u) == (b2 * p) * u) by (nonlinear_arith);
        let q = b2 * p;
        assert(b1 * (q * u) == (b1 * q) * u) by (nonlinear_arith);
    }
    assert(l <= r) by (nonlinear_arith)
        requires
            l * u <= r * u,
            u > 0,
    ;
}

/// The lower bounds of two numbers and of their product, together.
proof fn lemma_three_below(
    l: nat,
    e: nat,
    a: nat,
    x: nat,
    b: nat,
    y: nat,
    p: nat,
    z: nat,
    c: nat,
)
    requires
        l * a <= e * x,
        l * b <= e * y,
        l * p <= e * z,
        x * y == p * c,
    ensures
        l * (l * (l * (a * b))) <= e * (e * (e * (z * c))),
{
    let ab = a * b;
    let xy = x * y;
    let zc = z * c;
    assert(l * (l * ab) <= e * (e * xy)) by (nonlinear_arith)
        requires
            l * a <= e * x,
            l * b <= e * y,
            ab == a * b,
            xy == x * y,
    {
        assert((l * a) * (l * b) <= (e * x) * (e * y));
    }
    assert(l * xy <= e * zc) by (nonlinear_arith)
        requires
            l * p <= e * z,
            xy == p * c,
            zc == z * c,
    {
        assert((l * p) * c <= (e * z) * c);
    }
    assert(l * (l * (l * ab)) <= e * (e * (e * zc))) by (nonlinear_arith)
        requires
            l * (l * ab) <= e * (e * xy),
            l * xy <= e * zc,
    {
        assert(l * (l * (l * ab)) <= l * (e * (e * xy)));
        assert(l * (e * (e * xy)) == e * (e * (l * xy)));
        assert(e * (e * (l * xy)) <= e * (e * (e * zc)));
    }
}

/// The upper bounds of two numbers and of their product, together.
proof fn lemma_three_above(
    e: nat,
    m: nat,
    x: nat,
    a: nat,
    y: nat,
    b: nat,
    z: nat,
    p: nat,
    c: nat,
)
    requires
        e * x <= m * a,
        e * y <= m * b,
        e * z <= m * p,
        x * y == p * c,
    ensures
        e * (e * (e * (z * c))) <= m * (m * (m * (a * b))),
{
    let ab = a * b;
    let xy = x * y;
    let zc = z * c;
    assert(e * (e * xy) <= m * (m * ab)) by (nonlinear_arith)
        requires
            e * x <= m * a,
            e * y <= m * b,
            ab == a * b,
            xy == x * y,
    {
        assert((e * x) * (e * y) <= (m * a) * (m * b));
    }
    assert(e * zc <= m * xy) by (nonlinear_arith)
        requires
            e * z <= m * p,
            xy == p * c,
            zc == z * c,
    {
        assert((e * z) * c <= (m * p) * c);
    }
    assert(e * (e * (e * zc)) <= m * (m * (m * ab))) by (nonlinear_arith)
        requires
            e * (e * xy) <= m * (m * ab),
            e * zc <= m * xy,
    {
        assert(e * (e * (e * zc)) <= e * (e * (m * xy)));
        assert(e * (e * (m * xy)) == m * (e * (e * xy)));
        assert(m * (e * (e * xy)) <= m * (m * (m * ab)));
    }
}

/// The decimal text of a number has no zero before other digits, and consists
/// of the digits `0` to `9`.
pub proof fn law_decimal_text_has_no_leading_zero(n: nat)
    ensures
        all_digits(decimal_text(n)),
        decimal_text(n)[0] == '0' <==> n == 0,
        n < 10 <==> decimal_text(n).len() == 1,
    decreases n,
{
    law_decimal_text_reads_back(n);
    if n >= 10 {
        law_decimal_text_has_no_leading_zero(n / 10);
    }
}

/// A negative number is written as a minus sign and the number without it.
pub proof fn law_signed_text_starts_with_its_sign(n: int)
    ensures
        n >= 0 ==> signed_text(n) == decimal_text(n as nat),
        n < 0 ==> signed_text(n)[0] == '-' && signed_text(n).skip(1) == decimal_text(
            (-n) as nat,
        ),
{
    if n < 0 {
        assert(signed_text(n).skip(1) =~= decimal_text((-n) as nat));
    }
}

/// Three more digits after a number.
proof fn lemma_three_more_digits(n: nat)
    ensures
        ({
            let digits = decimal_text(n / 1000).push(digit(n / 100 % 10)).push(
                digit(n / 10 % 10),
            ).push(digit(n % 10));
            all_digits(digits) && digits_value(digits) == n
        }),
{
    let w = decimal_text(n / 1000);
    let c = digit(n / 100 % 10);
    let x = digit(n / 10 % 10);
    let i = digit(n % 10);
    let digits = w.push(c).push(x).push(i);
    law_decimal_text_reads_back(n / 1000);
    law_decimal_text_has_no_leading_zero(n / 1000);
    law_digits_count_in_tens(w, c);
    law_digits_count_in_tens(w.push(c), x);
    law_digits_count_in_tens(w.push(c).push(x), i);
    assert forall|j: int| 0 <= j < digits.len() implies '0' <= #[trigger] digits[j] <= '9' by {
        if j < w.len() {
            assert(digits[j] == w[j]);
        }
    }
}

/// The parts of a span as text.
proof fn lemma_seconds_text_parts(nanos: nat)
    ensures
        ({
            let t = seconds_text(nanos);
            let n = t.len() as int;
            let digits = t.take(n - 4) + t.skip(n - 3);
            &&& n >= 5
            &&& t[n - 4] == '.'
            &&& all_digits(digits)
            &&& t[0] == '0' ==> n == 5
            &&& digits_value(digits) == thousandths(nanos)
        }),
{
    let t = seconds_text(nanos);
    let n = t.len() as int;
    let k = thousandths(nanos);
    let w = decimal_text(k / 1000);
    law_decimal_text_reads_back(k / 1000);
    law_decimal_text_has_no_leading_zero(k / 1000);
    lemma_three_more_digits(k);
    assert(t.take(n - 4) + t.skip(n - 3) =~= w.push(digit(k / 100 % 10)).push(
        digit(k / 10 % 10),
    ).push(digit(k % 10)));
    assert(t[0] == w[0]);
}

/// A span is written with three digits after a point and no zero before other
/// digits: all digits together are the thousandths of a second, and no number of
/// thousandths is nearer to the span in seconds; where another is as near, that
/// one is odd.
pub proof fn law_seconds_text_is_the_nearest_thousandth(nanos: nat, v: nat)
    ensures
        ({
            let t = seconds_text(nanos);
            let n = t.len() as int;
            let digits = t.take(n - 4) + t.skip(n - 3);
            let found = digits_value(digits) * pow2(1074);
            let exact = to_seconds(nanos) * 1000;
            &&& n >= 5
            &&& t[n - 4] == '.'
            &&& all_digits(digits)
            &&& t[0] == '0' ==> n == 5
            &&& abs(found - exact) <= abs(v * pow2(1074) - exact)
            &&& v != digits_value(digits) && abs(found - exact) == abs(v * pow2(1074) - exact)
                ==> digits_value(digits) % 2 == 0
        }),
{
    lemma_seconds_text_parts(nanos);
    lemma_pow2_pos(1074);
    law_no_integer_is_nearer(to_seconds(nanos) * 1000, one(), v);
}

} // verus!
