//! Decimal numbers in text, read as double-precision numbers.

use crate::bignat::BigNat;
use crate::binary64::{finite_limit, nearest, one, shifted, Magnitude};
use crate::rounding::{
    excess_bits, half_even, law_no_number_is_nearer, lemma_nearest_at_least, lemma_nearest_exact,
    lemma_nearest_same_ratio, lemma_power_adds, lemma_power_positive, lemma_representable,
    nearest_binary, power, representable,
};
use vstd::arithmetic::power2::{
    lemma2_to64, lemma_pow2_adds, lemma_pow2_pos, lemma_pow2_strictly_increases, pow2,
};
use vstd::arithmetic::div_mod::lemma_fundamental_div_mod_converse;
use vstd::math::abs;
use vstd::prelude::*;

verus! {

/// A decimal digit.
pub open spec fn is_digit(c: char) -> bool {
    '0' <= c <= '9'
}

/// What a digit counts.
pub open spec fn digit_value(c: char) -> nat {
    (c as int - '0' as int) as nat
}

/// The number that a row of digits stands for.
pub open spec fn digits_value(s: Seq<char>) -> nat
    decreases s.len(),
{
    if s.len() == 0 {
        0
    } else {
        digits_value(s.drop_last()) * 10 + digit_value(s.last())
    }
}

/// How many digits `s` begins with.
pub open spec fn digit_prefix(s: Seq<char>) -> nat
    decreases s.len(),
{
    if s.len() > 0 && is_digit(s[0]) {
        digit_prefix(s.skip(1)) + 1
    } else {
        0
    }
}

/// Whether `c` is the given lower-case letter, in either case.
pub open spec fn is_letter(c: char, lower: char) -> bool {
    c == lower || c as int + 32 == lower as int
}

/// Whether `s` is the given lower-case word, in any mixture of cases.
pub open spec fn is_word(s: Seq<char>, lower: Seq<char>) -> bool {
    s.len() == lower.len() && forall|i: int|
        0 <= i < s.len() ==> is_letter(#[trigger] s[i], lower[i])
}

/// Whether `s` begins with a sign.
pub open spec fn has_sign(s: Seq<char>) -> bool {
    s.len() > 0 && (s[0] == '+' || s[0] == '-')
}

/// Whether `s` begins with a minus sign.
pub open spec fn has_minus(s: Seq<char>) -> bool {
    s.len() > 0 && s[0] == '-'
}

/// What follows the sign of `s`, if it has one.
pub open spec fn without_sign(s: Seq<char>) -> Seq<char> {
    if has_sign(s) {
        s.skip(1)
    } else {
        s
    }
}

/// The exponent at the end of a number: nothing, or `e`, an optional sign and
/// at least one digit.
pub open spec fn read_exponent(s: Seq<char>) -> Option<int> {
    let body = without_sign(s.skip(1));
    if s.len() == 0 {
        Some(0)
    } else if is_letter(s[0], 'e') && body.len() > 0 && digit_prefix(body) == body.len() {
        let value = digits_value(body) as int;
        Some(
            if has_minus(s.skip(1)) {
                -value
            } else {
                value
            },
        )
    } else {
        None
    }
}

/// What a text says as a number.
pub enum Reading {
    /// It is no number.
    Invalid,
    Nan,
    Infinite,
    /// It is `digits * 10^exponent`, or the negative of that.
    Decimal { negative: bool, digits: nat, exponent: int },
}

/// An unsigned decimal number: digits, which a point may divide, and an
/// exponent.
pub open spec fn read_decimal(negative: bool, s: Seq<char>) -> Reading {
    let whole = digit_prefix(s) as int;
    let pointed = whole < s.len() && s[whole] == '.';
    let after = if pointed {
        s.skip(whole + 1)
    } else {
        s.skip(whole)
    };
    let fraction = if pointed {
        digit_prefix(after) as int
    } else {
        0
    };
    let digits = s.take(whole) + after.take(fraction);
    match read_exponent(after.skip(fraction)) {
        Some(exponent) if digits.len() > 0 => Reading::Decimal {
            negative,
            digits: digits_value(digits),
            exponent: exponent - fraction,
        },
        _ => Reading::Invalid,
    }
}

/// A number: an optional sign, and then `inf`, `infinity`, `nan` or a decimal
/// number. Letters count in either case.
pub open spec fn read_number(s: Seq<char>) -> Reading {
    let body = without_sign(s);
    if is_word(body, seq!['i', 'n', 'f']) || is_word(
        body,
        seq!['i', 'n', 'f', 'i', 'n', 'i', 't', 'y'],
    ) {
        Reading::Infinite
    } else if is_word(body, seq!['n', 'a', 'n']) {
        Reading::Nan
    } else {
        read_decimal(has_minus(s), body)
    }
}

/// The double-precision number nearest to `digits * 10^exponent`, in units.
pub open spec fn decimal_units(digits: nat, exponent: int) -> nat {
    if exponent >= 0 {
        nearest_binary(digits * power(10, exponent as nat) * one(), 1)
    } else {
        nearest_binary(digits * one(), power(10, (-exponent) as nat))
    }
}

/// The characters from `from` up to `to`.
pub fn part(text: &Vec<char>, from: usize, to: usize) -> (r: Vec<char>)
    requires
        from <= to <= text@.len(),
    ensures
        r@ == text@.subrange(from as int, to as int),
{
    let mut r: Vec<char> = Vec::new();
    let mut i: usize = from;
    while i < to
        invariant
            from <= i <= to <= text@.len(),
            r@ == text@.subrange(from as int, i as int),
        decreases to - i,
    {
        r.push(text[i]);
        i = i + 1;
        assert(r@ =~= text@.subrange(from as int, i as int));
    }
    r
}

/// [`is_letter`], computed.
pub fn letter(c: char, lower: char) -> (r: bool)
    requires
        'a' <= lower <= 'z',
    ensures
        r == is_letter(c, lower),
{
    c == lower || c as u32 == lower as u32 - 32
}

/// [`is_word`], computed.
fn word(s: &Vec<char>, lower: &Vec<char>) -> (r: bool)
    requires
        forall|i: int| 0 <= i < lower@.len() ==> 'a' <= #[trigger] lower@[i] <= 'z',
    ensures
        r == is_word(s@, lower@),
{
    if s.len() != lower.len() {
        return false;
    }
    let mut i: usize = 0;
    while i < s.len()
        invariant
            i <= s@.len() == lower@.len(),
            forall|j: int| 0 <= j < lower@.len() ==> 'a' <= #[trigger] lower@[j] <= 'z',
            forall|j: int| 0 <= j < i ==> is_letter(#[trigger] s@[j], lower@[j]),
        decreases s@.len() - i,
    {
        if !letter(s[i], lower[i]) {
            assert(!is_letter(s@[i as int], lower@[i as int]));
            return false;
        }
        i = i + 1;
    }
    true
}

/// How many digits follow from `from` on.
fn digits_from(s: &Vec<char>, from: usize) -> (r: usize)
    requires
        from <= s@.len(),
    ensures
        r == digit_prefix(s@.skip(from as int)),
        from + r <= s@.len(),
{
    let mut i: usize = from;
    while i < s.len() && '0' <= s[i] && s[i] <= '9'
        invariant
            from <= i <= s@.len(),
            digit_prefix(s@.skip(from as int)) == i - from + digit_prefix(s@.skip(i as int)),
        decreases s@.len() - i,
    {
        assert(s@.skip(i as int).skip(1) =~= s@.skip(i + 1));
        i = i + 1;
    }
    i - from
}

proof fn lemma_prefix_digits(s: Seq<char>, i: int)
    requires
        0 <= i < digit_prefix(s),
    ensures
        digit_prefix(s) <= s.len(),
        is_digit(s[i]),
    decreases s.len(),
{
    if i > 0 {
        lemma_prefix_digits(s.skip(1), i - 1);
    } else if s.len() > 1 && digit_prefix(s.skip(1)) > 0 {
        lemma_prefix_digits(s.skip(1), 0);
    }
}

/// Exponents of this size and more are all alike.
const FAR: i128 = 0x10_0000_0000_0000_0000_0000_0000;

/// Whether `v` stands for the exponent `e`: exactly, or, where both are far
/// from zero, by its sign.
spec fn stands_for(v: i128, e: int) -> bool {
    &&& v == e || (v >= FAR && e >= FAR) || (v <= -FAR && e <= -FAR)
    &&& -0x1000 * FAR <= v <= 0x1000 * FAR
}

/// [`read_exponent`], with exponents far from zero told by their sign alone.
fn exponent_at(s: &Vec<char>, from: usize) -> (r: Option<i128>)
    requires
        from <= s@.len(),
    ensures
        r is Some <==> read_exponent(s@.skip(from as int)) is Some,
        r matches Some(v) ==> stands_for(v, read_exponent(s@.skip(from as int))->0),
{
    let ghost t = s@.skip(from as int);
    if from == s.len() {
        return Some(0);
    }
    if !letter(s[from], 'e') {
        return None;
    }
    let sign: usize = from + 1;
    assert(t.skip(1) =~= s@.skip(sign as int));
    let negative: bool = sign < s.len() && s[sign] == '-';
    let start: usize = if sign < s.len() && (s[sign] == '-' || s[sign] == '+') {
        sign + 1
    } else {
        sign
    };
    let ghost body = without_sign(t.skip(1));
    assert(body =~= s@.skip(start as int));
    let count: usize = digits_from(s, start);
    if count == 0 || start + count != s.len() {
        return None;
    }
    let mut value: i128 = 0;
    let mut i: usize = start;
    assert(body.take(0) =~= Seq::<char>::empty());
    while i < s.len()
        invariant
            start <= i <= s@.len(),
            body == s@.skip(start as int),
            digit_prefix(body) == body.len(),
            value == digits_value(body.take(i - start)) || (value >= FAR && digits_value(
                body.take(i - start),
            ) >= FAR),
            0 <= value <= 0x1000 * FAR,
        decreases s@.len() - i,
    {
        proof {
            let j = i - start;
            lemma_prefix_digits(body, j);
            assert(body.take(j + 1).drop_last() =~= body.take(j));
            assert(body.take(j + 1).last() == body[j] == s@[i as int]);
        }
        let digit: i128 = (s[i] as u32 - '0' as u32) as i128;
        if value < FAR {
            value = value * 10 + digit;
        }
        i = i + 1;
    }
    assert(body.take(body.len() as int) =~= body);
    if negative {
        Some(-value)
    } else {
        Some(value)
    }
}

/// What a text says as a double-precision number.
pub enum Scan {
    /// It is no number.
    Invalid,
    /// It is not a number, or infinite, or rounds to something infinite.
    NotFinite,
    Finite { negative: bool, magnitude: Magnitude },
}

impl Scan {
    /// Whether this is the double-precision number nearest to
    /// `digits * 10^exponent`, or to the negative of that.
    pub open spec fn is_nearest(self, negative: bool, digits: nat, exponent: int) -> bool {
        let units = decimal_units(digits, exponent);
        if units < finite_limit() {
            self matches Scan::Finite { negative: sign, magnitude } && sign == negative
                && magnitude@ == units && magnitude.well_formed()
        } else {
            self is NotFinite
        }
    }
}

/// The digits from `from` on, appended to the number `high`.
fn append_digits(high: BigNat, s: &Vec<char>, from: usize, count: usize, Ghost(done): Ghost<
    Seq<char>,
>) -> (r: BigNat)
    requires
        from + count <= s@.len(),
        count == digit_prefix(s@.skip(from as int)),
        high@ == digits_value(done),
    ensures
        r@ == digits_value(done + s@.subrange(from as int, from + count)),
{
    let ghost t = s@.skip(from as int);
    let end: usize = s.len();
    let mut r: BigNat = high;
    let mut i: usize = 0;
    assert(done + s@.subrange(from as int, from as int) =~= done);
    while i < count
        invariant
            i <= count,
            from + count <= s@.len() == end,
            t == s@.skip(from as int),
            count == digit_prefix(t),
            r@ == digits_value(done + s@.subrange(from as int, from + i)),
        decreases count - i,
    {
        proof {
            lemma_prefix_digits(t, i as int);
            let next = done + s@.subrange(from as int, from + i + 1);
            assert(next.drop_last() =~= done + s@.subrange(from as int, from + i));
            assert(next.last() == s@[from + i]);
            assert(t[i as int] == s@[from + i]);
        }
        let digit: u64 = (s[from + i] as u32 - '0' as u32) as u64;
        r = r.times_plus(10, digit);
        i = i + 1;
    }
    r
}

/// A row of `n` digits stands for less than `10^n`.
proof fn lemma_digits_bound(s: Seq<char>)
    requires
        forall|i: int| 0 <= i < s.len() ==> is_digit(#[trigger] s[i]),
    ensures
        digits_value(s) < power(10, s.len()),
    decreases s.len(),
{
    if s.len() > 0 {
        lemma_digits_bound(s.drop_last());
        assert(is_digit(s[s.len() - 1]));
    }
}

/// The digits before and after the point, together.
proof fn lemma_row_bound(s: Seq<char>, whole: nat, rest: Seq<char>, fraction: nat)
    requires
        whole == digit_prefix(s),
        whole <= s.len(),
        fraction <= digit_prefix(rest),
        fraction <= rest.len(),
    ensures
        digits_value(s.take(whole as int) + rest.take(fraction as int)) < power(
            10,
            whole + fraction,
        ),
{
    let row = s.take(whole as int) + rest.take(fraction as int);
    assert forall|i: int| 0 <= i < row.len() implies is_digit(#[trigger] row[i]) by {
        if i < whole {
            lemma_prefix_digits(s, i);
        } else {
            lemma_prefix_digits(rest, i - whole);
        }
    }
    lemma_digits_bound(row);
}

proof fn lemma_power_of_ten(e: nat)
    ensures
        pow2(3 * e) <= power(10, e),
    decreases e,
{
    lemma2_to64();
    if e > 0 {
        lemma_power_of_ten((e - 1) as nat);
        lemma_pow2_adds(3, (3 * (e - 1)) as nat);
    }
}

/// From `10^342` on, numbers are too large.
proof fn lemma_huge(digits: nat, exponent: int)
    requires
        digits > 0,
        exponent >= 342,
    ensures
        decimal_units(digits, exponent) >= finite_limit(),
{
    let e = exponent as nat;
    let p = power(10, e);
    lemma_power_of_ten(e);
    if 3 * e > 1026 {
        lemma_pow2_strictly_increases(1026, 3 * e);
    }
    lemma_pow2_strictly_increases(1024, 1026);
    lemma_pow2_adds(1024, 1074);
    assert(digits * p * one() >= pow2(1024) * one()) by (nonlinear_arith)
        requires
            digits >= 1,
            p >= pow2(1024),
    {
        assert(digits * p >= p);
    }
    lemma_pow2_pos(53);
    lemma_representable(1, 2098);
    lemma_nearest_at_least(digits * p * one(), 1, finite_limit());
}

/// Below `10^-359`, numbers round to zero.
proof fn lemma_tiny(digits: nat, count: nat, exponent: int)
    requires
        digits < power(10, count),
        exponent <= -(count + 359),
    ensures
        decimal_units(digits, exponent) == 0,
{
    let e = (-exponent) as nat;
    let rest = (e - count) as nat;
    let p = power(10, e);
    let q = power(10, count);
    let r = power(10, rest);
    lemma_power_adds(10, count, rest);
    lemma_power_of_ten(rest);
    lemma_power_positive(10, e);
    lemma_pow2_strictly_increases(1076, 3 * rest);
    lemma_pow2_adds(2, 1074);
    lemma_pow2_pos(1074);
    lemma2_to64();
    let n = digits * one();
    assert(4 * n <= p) by (nonlinear_arith)
        requires
            n == digits * one(),
            digits <= q,
            4 * one() <= r,
            p == q * r,
    {
        assert(digits * one() <= q * one());
        assert(q * (4 * one()) <= q * r);
    }
    lemma_fundamental_div_mod_converse(n as int, p as int, 0, n as int);
    assert(n / p == 0 && n % p == n);
    lemma_pow2_pos(53);
    assert(excess_bits(0) == 0);
    assert(p * pow2(0) == p);
    assert(half_even(n, p) == 0);
}

/// Zero is zero, whatever its exponent.
proof fn lemma_zero_units(exponent: int)
    ensures
        decimal_units(0, exponent) == 0,
{
    lemma_pow2_pos(53);
    lemma_representable(0, 0);
    lemma2_to64();
    let d = if exponent >= 0 {
        1
    } else {
        power(10, (-exponent) as nat)
    };
    lemma_power_positive(10, if exponent >= 0 { 0 } else { (-exponent) as nat });
    lemma_nearest_exact(0, d);
    assert(0 * power(10, exponent as nat) * one() == 0) by (nonlinear_arith);
    assert(0 * one() == 0);
}

/// `x * 10^e`.
fn times_power_of_ten(x: BigNat, e: u128) -> (r: BigNat)
    ensures
        r@ == x@ * power(10, e as nat),
{
    let mut r: BigNat = x;
    let mut i: u128 = 0;
    assert(power(10, 0) == 1);
    assert(x@ * 1 == x@);
    while i < e
        invariant
            i <= e,
            r@ == x@ * power(10, i as nat),
        decreases e - i,
    {
        assert((x@ * power(10, i as nat)) * 10 == x@ * (10 * power(10, i as nat)))
            by (nonlinear_arith);
        r = r.times_plus(10, 0);
        i = i + 1;
    }
    r
}

/// The double-precision number nearest to `digits * 10^exponent`; `None` where
/// that is infinite.
fn decimal_magnitude(digits: BigNat, exponent: i128) -> (r: Option<Magnitude>)
    requires
        exponent > i128::MIN,
    ensures
        r is Some <==> decimal_units(digits@, exponent as int) < finite_limit(),
        r matches Some(m) ==> m@ == decimal_units(digits@, exponent as int) && m.well_formed(),
{
    let unit: BigNat = BigNat::from_u128(1);
    if exponent >= 0 {
        nearest(&shifted(&times_power_of_ten(digits, exponent as u128), 1074), &unit)
    } else {
        proof {
            lemma_power_positive(10, (-exponent) as nat);
            assert(1 * power(10, (-exponent) as nat) == power(10, (-exponent) as nat));
        }
        nearest(&shifted(&digits, 1074), &times_power_of_ten(unit, (-exponent) as u128))
    }
}

/// Reads a number: see [`read_number`].
pub fn scan_number(s: &Vec<char>) -> (r: Scan)
    ensures
        match read_number(s@) {
            Reading::Invalid => r is Invalid,
            Reading::Nan | Reading::Infinite => r is NotFinite,
            Reading::Decimal { negative, digits, exponent } => r.is_nearest(
                negative,
                digits,
                exponent,
            ),
        },
{
    let negative: bool = s.len() > 0 && s[0] == '-';
    let start: usize = if s.len() > 0 && (s[0] == '-' || s[0] == '+') {
        1
    } else {
        0
    };
    let body: Vec<char> = part(s, start, s.len());
    assert(body@ =~= without_sign(s@));
    let inf: Vec<char> = vec!['i', 'n', 'f'];
    let infinity: Vec<char> = vec!['i', 'n', 'f', 'i', 'n', 'i', 't', 'y'];
    let nan: Vec<char> = vec!['n', 'a', 'n'];
    assert(inf@ =~= seq!['i', 'n', 'f']);
    assert(infinity@ =~= seq!['i', 'n', 'f', 'i', 'n', 'i', 't', 'y']);
    assert(nan@ =~= seq!['n', 'a', 'n']);
    if word(&body, &inf) || word(&body, &infinity) || word(&body, &nan) {
        return Scan::NotFinite;
    }
    scan_decimal(negative, &body)
}

/// The digits before and after the point, as one number.
fn digits_around_point(s: &Vec<char>, whole: usize, after: usize, fraction: usize) -> (r: BigNat)
    requires
        whole == digit_prefix(s@),
        whole <= s@.len(),
        after + fraction <= s@.len(),
        fraction == 0 || fraction == digit_prefix(s@.skip(after as int)),
    ensures
        r@ == digits_value(
            s@.take(whole as int) + s@.skip(after as int).take(fraction as int),
        ),
        r@ < power(10, (whole + fraction) as nat),
{
    let ghost rest = s@.skip(after as int);
    let ghost front = s@.take(whole as int);
    assert(s@.skip(0) =~= s@);
    let high: BigNat = append_digits(BigNat::from_u128(0), s, 0, whole, Ghost(Seq::empty()));
    assert(Seq::<char>::empty() + s@.subrange(0, whole as int) =~= front);
    proof {
        lemma_row_bound(s@, whole as nat, rest, fraction as nat);
        assert(front + rest.take(0) =~= front);
        assert(rest.take(fraction as int) =~= s@.subrange(after as int, after + fraction));
    }
    if fraction == 0 {
        high
    } else {
        append_digits(high, s, after, fraction, Ghost(front))
    }
}

/// Reads an unsigned decimal number: see [`read_decimal`].
#[verifier::rlimit(30)]
fn scan_decimal(negative: bool, s: &Vec<char>) -> (r: Scan)
    ensures
        match read_decimal(negative, s@) {
            Reading::Decimal { negative, digits, exponent } => r.is_nearest(
                negative,
                digits,
                exponent,
            ),
            _ => r is Invalid,
        },
{
    let whole: usize = digits_from(s, 0);
    assert(s@.skip(0) =~= s@);
    let pointed: bool = whole < s.len() && s[whole] == '.';
    let after: usize = if pointed {
        whole + 1
    } else {
        whole
    };
    let fraction: usize = if pointed {
        digits_from(s, after)
    } else {
        0
    };
    let ghost rest = s@.skip(after as int);
    assert(rest.skip(fraction as int) =~= s@.skip(after + fraction));
    let tail: Option<i128> = exponent_at(s, after + fraction);
    if whole == 0 && fraction == 0 {
        return Scan::Invalid;
    }
    let exponent: i128 = match tail {
        Some(e) => e - fraction as i128,
        None => {
            return Scan::Invalid;
        },
    };
    let ghost exact = read_exponent(s@.skip(after + fraction))->0 - fraction;
    let digits: BigNat = digits_around_point(s, whole, after, fraction);
    assert(read_decimal(negative, s@) == (Reading::Decimal {
        negative,
        digits: digits@,
        exponent: exact,
    }));
    finish_decimal(
        negative,
        digits,
        whole as i128 + fraction as i128,
        exponent,
        Ghost(exact),
    )
}

/// Rounds `digits * 10^exponent`, where `exponent` stands for `exact`.
fn finish_decimal(
    negative: bool,
    digits: BigNat,
    count: i128,
    exponent: i128,
    Ghost(exact): Ghost<int>,
) -> (r: Scan)
    requires
        0 <= count <= 0x2_0000_0000_0000_0000,
        digits@ < power(10, count as nat),
        exponent == exact || (exponent >= 342 && exact >= 342) || (exponent <= -(count + 359)
            && exact <= -(count + 359)),
        exponent > i128::MIN,
    ensures
        r.is_nearest(negative, digits@, exact),
{
    let zero: Magnitude = Magnitude { mantissa: 0, shift: 0 };
    proof {
        assert(zero@ == 0);
        lemma_pow2_pos(2098);
        lemma_zero_units(exact);
    }
    if digits.at_most(&BigNat::from_u128(0)) {
        return Scan::Finite { negative, magnitude: zero };
    }
    if exponent >= 342 {
        proof {
            lemma_huge(digits@, exact);
        }
        return Scan::NotFinite;
    }
    if exponent <= -(count + 359) {
        proof {
            lemma_tiny(digits@, count as nat, exact);
        }
        return Scan::Finite { negative, magnitude: zero };
    }
    match decimal_magnitude(digits, exponent) {
        Some(magnitude) => Scan::Finite { negative, magnitude },
        None => Scan::NotFinite,
    }
}

/// Whether a text consists of the digits `0` to `9` alone.
pub open spec fn all_digits(s: Seq<char>) -> bool {
    forall|i: int| 0 <= i < s.len() ==> '0' <= #[trigger] s[i] <= '9'
}

/// Digits count from `0` on, and one more digit makes a row worth ten times as
/// much and that digit.
pub proof fn law_digits_count_in_tens(s: Seq<char>, c: char)
    requires
        '0' <= c <= '9',
    ensures
        digits_value(seq![]) == 0,
        digits_value(s.push(c)) == 10 * digits_value(s) + (c as int - 48),
{
    assert(s.push(c).drop_last() =~= s);
}

/// No number that 53 bits hold is nearer to `digits * 10^exponent` than the one
/// that is taken for it; where another one is as near, the one taken is
/// divisible by twice the gap between them.
pub proof fn law_no_decimal_is_nearer(digits: nat, exponent: int, w: nat)
    requires
        representable(w),
    ensures
        ({
            let n = if exponent < 0 {
                digits * pow2(1074)
            } else {
                digits * power(10, exponent as nat) * pow2(1074)
            };
            let d = if exponent < 0 {
                power(10, -exponent as nat)
            } else {
                1
            };
            let v = decimal_units(digits, exponent);
            &&& representable(v)
            &&& abs(v * d - n) <= abs(w * d - n)
            &&& w != v && abs(v * d - n) == abs(w * d - n) ==> v % (2 * abs(w - v)) == 0
        }),
{
    if exponent < 0 {
        lemma_power_positive(10, (-exponent) as nat);
        law_no_number_is_nearer(digits * one(), power(10, (-exponent) as nat), w);
    } else {
        law_no_number_is_nearer(digits * power(10, exponent as nat) * one(), 1, w);
    }
}

/// A zero after the last digit, where the exponent makes up for it, makes no
/// difference.
pub proof fn law_zeros_after_the_last_digit(digits: nat, exponent: int)
    ensures
        decimal_units(10 * digits, exponent - 1) == decimal_units(digits, exponent),
{
    let u = one();
    if exponent > 0 {
        let e = exponent as nat;
        let p = power(10, (e - 1) as nat);
        assert(power(10, e) == 10 * p);
        assert((10 * digits) * p * u == digits * (10 * p) * u) by (nonlinear_arith);
    } else {
        let e = (-exponent) as nat;
        let p = power(10, e);
        assert(power(10, e + 1) == 10 * p);
        lemma_power_positive(10, e);
        assert(((10 * digits) * u) * p == (digits * u) * (10 * p)) by (nonlinear_arith);
        lemma_nearest_same_ratio((10 * digits) * u, 10 * p, digits * u, p);
        if exponent == 0 {
            assert(power(10, 0) == 1);
            assert(digits * 1 * u == digits * u);
        }
    }
}

/// The end of a number with an exponent, as it is written: a letter, perhaps a
/// sign, and digits.
pub struct Tail {
    pub letter: char,
    pub sign: Option<char>,
    pub digits: Seq<char>,
}

/// A decimal number, as it is written: perhaps a sign, digits, perhaps a point
/// and more digits, perhaps an exponent.
pub struct Written {
    pub sign: Option<char>,
    pub whole: Seq<char>,
    pub point: bool,
    pub fraction: Seq<char>,
    pub tail: Option<Tail>,
}

/// A plus or a minus sign, or none.
pub open spec fn is_sign(sign: Option<char>) -> bool {
    sign matches Some(c) ==> c == '+' || c == '-'
}

/// A sign as text.
pub open spec fn sign_text(sign: Option<char>) -> Seq<char> {
    match sign {
        Some(c) => seq![c],
        None => seq![],
    }
}

impl Tail {
    /// The letter is an `e`, and there are digits.
    pub open spec fn well_formed(self) -> bool {
        &&& self.letter == 'e' || self.letter == 'E'
        &&& is_sign(self.sign)
        &&& self.digits.len() > 0
        &&& all_digits(self.digits)
    }

    pub open spec fn text(self) -> Seq<char> {
        seq![self.letter] + sign_text(self.sign) + self.digits
    }

    /// The exponent that is written.
    pub open spec fn value(self) -> int {
        if self.sign == Some('-') {
            -digits_value(self.digits)
        } else {
            digits_value(self.digits) as int
        }
    }
}

impl Written {
    /// There are digits before the point or after it, and none after it where
    /// there is no point.
    pub open spec fn well_formed(self) -> bool {
        &&& is_sign(self.sign)
        &&& all_digits(self.whole)
        &&& all_digits(self.fraction)
        &&& self.whole.len() + self.fraction.len() > 0
        &&& !self.point ==> self.fraction.len() == 0
        &&& self.tail matches Some(tail) ==> tail.well_formed()
    }

    /// What follows the digits before the point.
    pub open spec fn rest(self) -> Seq<char> {
        (if self.point {
            seq!['.'] + self.fraction
        } else {
            seq![]
        }) + match self.tail {
            Some(tail) => tail.text(),
            None => seq![],
        }
    }

    pub open spec fn text(self) -> Seq<char> {
        sign_text(self.sign) + (self.whole + self.rest())
    }

    /// The power of ten that the digits are multiplied by: the exponent that is
    /// written, less one for each digit after the point.
    pub open spec fn exponent(self) -> int {
        match self.tail {
            Some(tail) => tail.value() - self.fraction.len(),
            None => -(self.fraction.len() as int),
        }
    }
}

/// A row of digits ends where something else follows.
proof fn lemma_prefix_ends(digits: Seq<char>, rest: Seq<char>)
    requires
        all_digits(digits),
        rest.len() == 0 || !('0' <= rest[0] <= '9'),
    ensures
        digit_prefix(digits + rest) == digits.len(),
    decreases digits.len(),
{
    if digits.len() > 0 {
        let fewer = digits.skip(1);
        assert(digits[0] == (digits + rest)[0]);
        assert forall|i: int| 0 <= i < fewer.len() implies '0' <= #[trigger] fewer[i] <= '9' by {
            assert(fewer[i] == digits[i + 1]);
        }
        lemma_prefix_ends(fewer, rest);
        assert((digits + rest).skip(1) =~= fewer + rest);
    } else {
        assert(digits + rest =~= rest);
    }
}

/// What is written as an exponent is read as that exponent.
proof fn lemma_tail_is_read(tail: Tail)
    requires
        tail.well_formed(),
    ensures
        read_exponent(tail.text()) == Some(tail.value()),
{
    let s = tail.text();
    let after = s.skip(1);
    assert(after =~= sign_text(tail.sign) + tail.digits);
    assert('0' <= tail.digits[0] <= '9');
    assert(without_sign(after) =~= tail.digits) by {
        if tail.sign is None {
            assert(after =~= tail.digits);
        } else {
            assert(after.skip(1) =~= tail.digits);
        }
    }
    lemma_prefix_ends(tail.digits, seq![]);
    assert(tail.digits + seq![] =~= tail.digits);
    if tail.sign is None {
        assert(after[0] == tail.digits[0]);
    }
}

/// What is written without a sign is read as that number.
proof fn lemma_unsigned_is_read(negative: bool, number: Written)
    requires
        number.well_formed(),
    ensures
        read_decimal(negative, number.whole + number.rest()) == (Reading::Decimal {
            negative,
            digits: digits_value(number.whole + number.fraction),
            exponent: number.exponent(),
        }),
{
    let rest = number.rest();
    let s = number.whole + rest;
    let whole = number.whole.len() as int;
    let fraction = number.fraction.len() as int;
    let tail = match number.tail {
        Some(tail) => tail.text(),
        None => seq![],
    };
    if let Some(tail) = number.tail {
        lemma_tail_is_read(tail);
    }
    lemma_prefix_ends(number.whole, rest);
    assert(s.take(whole) =~= number.whole);
    if number.point {
        assert(s[whole] == '.');
        let after = s.skip(whole + 1);
        assert(after =~= number.fraction + tail);
        lemma_prefix_ends(number.fraction, tail);
        assert(after.take(fraction) =~= number.fraction);
        assert(after.skip(fraction) =~= tail);
    } else {
        let after = s.skip(whole);
        assert(after =~= tail);
        assert(whole < s.len() ==> s[whole] == tail[0]);
        assert(after.take(0) =~= number.fraction);
        assert(after.skip(0) =~= tail);
    }
}

/// A decimal number is read as what is written: its sign, the number that all
/// its digits make, and the power of ten that its exponent and the place of its
/// point say.
pub proof fn law_written_numbers_are_read(number: Written)
    requires
        number.well_formed(),
    ensures
        read_number(number.text()) == (Reading::Decimal {
            negative: number.sign == Some('-'),
            digits: digits_value(number.whole + number.fraction),
            exponent: number.exponent(),
        }),
{
    let s = number.text();
    let body = number.whole + number.rest();
    // The first character is a digit or a point.
    assert(body.len() > 0 && ('0' <= body[0] <= '9' || body[0] == '.')) by {
        if number.whole.len() > 0 {
            assert(body[0] == number.whole[0]);
        } else {
            assert(body[0] == number.rest()[0] == '.');
        }
    }
    assert(without_sign(s) =~= body && has_minus(s) == (number.sign == Some('-'))) by {
        if number.sign is Some {
            assert(s.skip(1) =~= body);
            assert(s[0] == number.sign->0);
        } else {
            assert(s =~= body);
        }
    }
    assert(!is_letter(body[0], 'i') && !is_letter(body[0], 'n'));
    lemma_unsigned_is_read(has_minus(s), number);
}

proof fn lemma_prefix_all_digits(s: Seq<char>)
    ensures
        digit_prefix(s) <= s.len(),
        all_digits(s.take(digit_prefix(s) as int)),
{
    let n = digit_prefix(s) as int;
    if n > 0 {
        lemma_prefix_digits(s, 0);
    }
    assert forall|i: int| 0 <= i < s.take(n).len() implies '0' <= #[trigger] s.take(n)[i]
        <= '9' by {
        lemma_prefix_digits(s, i);
    }
}

/// Nothing else is read as an exponent.
proof fn lemma_tail_was_written(s: Seq<char>) -> (tail: Option<Tail>)
    requires
        read_exponent(s) is Some,
    ensures
        tail matches Some(t) ==> t.well_formed() && t.text() == s,
        tail is None ==> s == Seq::<char>::empty(),
{
    if s.len() == 0 {
        assert(s =~= seq![]);
        None
    } else {
        let next = s.skip(1);
        let digits = without_sign(next);
        let sign = if has_sign(next) {
            Some(next[0])
        } else {
            None
        };
        let tail = Tail { letter: s[0], sign, digits };
        lemma_prefix_all_digits(digits);
        assert(digits.take(digits.len() as int) =~= digits);
        assert(sign_text(sign) + digits =~= next);
        assert(tail.text() =~= s);
        Some(tail)
    }
}

/// Nothing else is read as an unsigned decimal number.
proof fn lemma_decimal_was_written(negative: bool, s: Seq<char>) -> (number: Written)
    requires
        read_decimal(negative, s) is Decimal,
    ensures
        number.well_formed(),
        number.sign is None,
        number.whole + number.rest() == s,
{
    let n = digit_prefix(s) as int;
    lemma_prefix_all_digits(s);
    let whole = s.take(n);
    let point = n < s.len() && s[n] == '.';
    let after = if point {
        s.skip(n + 1)
    } else {
        s.skip(n)
    };
    let k = if point {
        digit_prefix(after) as int
    } else {
        0
    };
    lemma_prefix_all_digits(after);
    let fraction = after.take(k);
    let end = after.skip(k);
    assert(read_exponent(end) is Some);
    let tail = lemma_tail_was_written(end);
    let number = Written { sign: None, whole, point, fraction, tail };
    assert((whole + fraction).len() > 0);
    let ending = match tail {
        Some(t) => t.text(),
        None => seq![],
    };
    assert(ending == end);
    assert(fraction + end =~= after);
    if point {
        assert(number.rest() =~= seq!['.'] + after);
        assert(whole + (seq!['.'] + after) =~= s);
    } else {
        assert(number.rest() =~= after);
        assert(whole + after =~= s);
    }
    number
}

/// Nothing else is read as a decimal number: whatever is, was written as one.
/// This is how.
pub proof fn law_numbers_read_were_written(s: Seq<char>) -> (number: Written)
    requires
        read_number(s) is Decimal,
    ensures
        number.well_formed(),
        number.text() == s,
{
    let sign = if has_sign(s) {
        Some(s[0])
    } else {
        None
    };
    let body = without_sign(s);
    let unsigned = lemma_decimal_was_written(has_minus(s), body);
    let number = Written { sign, ..unsigned };
    assert(number.rest() == unsigned.rest());
    assert(sign_text(sign) + body =~= s);
    number
}

} // verus!
