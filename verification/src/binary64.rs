//! Double-precision numbers as exact values.
//!
//! Every finite number of the IEEE 754 binary64 format is an integer multiple
//! of `2^-1074`, the smallest one above zero. The specifications here count in
//! these units, so that all values are integers and every rounding step is
//! [`nearest_binary`] of an exact ratio.

use crate::bignat::BigNat;
use crate::rounding::{
    excess_bits, half_even, law_no_number_is_nearer, law_representable_has_53_bits,
    lemma_div_below, lemma_excess_bits, lemma_excess_bits_fit, lemma_half_even_at_least,
    lemma_representable, nearest_binary, representable,
};
use vstd::arithmetic::div_mod::lemma_fundamental_div_mod_converse;
use vstd::arithmetic::power2::{
    lemma2_to64, lemma2_to64_rest, lemma_pow2_adds, lemma_pow2_pos, lemma_pow2_strictly_increases,
    lemma_pow2_unfold, pow2,
};
use vstd::math::abs;
use vstd::prelude::*;

verus! {

/// The number 1, in units.
pub open spec fn one() -> nat {
    pow2(1074)
}

/// The first value, in units, that is too large for a finite number.
pub open spec fn finite_limit() -> nat {
    pow2(2098)
}

/// Two numbers multiplied, in units: the product, rounded to double precision.
pub open spec fn times(a: nat, b: nat) -> nat {
    nearest_binary(a * b, one())
}

/// What the 64 bits of a number mean.
pub enum Number {
    Nan,
    Infinite { negative: bool },
    Finite { negative: bool, units: nat },
}

/// The number that the bits stand for: a sign bit, 11 bits of exponent and 52
/// bits of fraction.
pub open spec fn decoded(bits: u64) -> Number {
    let negative = bits >= 0x8000_0000_0000_0000;
    let exponent = (bits / 0x10_0000_0000_0000) % 0x800;
    let fraction = bits % 0x10_0000_0000_0000;
    if exponent == 0x7ff {
        if fraction == 0 {
            Number::Infinite { negative }
        } else {
            Number::Nan
        }
    } else if exponent == 0 {
        Number::Finite { negative, units: fraction as nat }
    } else {
        Number::Finite {
            negative,
            units: (0x10_0000_0000_0000 + fraction as nat) * pow2((exponent - 1) as nat),
        }
    }
}

/// A double-precision number, given by its bits.
#[derive(Clone, Copy, Debug)]
pub struct Binary64 {
    bits: u64,
}

impl View for Binary64 {
    type V = Number;

    closed spec fn view(&self) -> Number {
        decoded(self.bits)
    }
}

/// What the bits of a [`Binary64`] hold, taken apart.
pub enum Parts {
    Nan,
    Infinite { negative: bool },
    Finite { negative: bool, magnitude: Magnitude },
}

impl Binary64 {
    /// The number with these bits.
    pub fn from_bits(bits: u64) -> (r: Binary64)
        ensures
            r@ == decoded(bits),
    {
        Binary64 { bits }
    }

    /// Takes the number apart.
    pub fn parts(&self) -> (r: Parts)
        ensures
            match r {
                Parts::Nan => self@ == Number::Nan,
                Parts::Infinite { negative } => self@ == (Number::Infinite { negative }),
                Parts::Finite { negative, magnitude } => {
                    &&& self@ == (Number::Finite { negative, units: magnitude@ })
                    &&& magnitude.mantissa < 0x20_0000_0000_0000
                    &&& magnitude.shift <= 2045
                },
            },
    {
        let negative: bool = self.bits >= 0x8000_0000_0000_0000;
        let exponent: u64 = (self.bits / 0x10_0000_0000_0000) % 0x800;
        let fraction: u64 = self.bits % 0x10_0000_0000_0000;
        if exponent == 0x7ff {
            if fraction == 0 {
                Parts::Infinite { negative }
            } else {
                Parts::Nan
            }
        } else if exponent == 0 {
            proof {
                lemma2_to64();
                assert(fraction as nat * pow2(0) == fraction);
            }
            Parts::Finite { negative, magnitude: Magnitude { mantissa: fraction, shift: 0 } }
        } else {
            Parts::Finite {
                negative,
                magnitude: Magnitude {
                    mantissa: 0x10_0000_0000_0000 + fraction,
                    shift: (exponent - 1) as u32,
                },
            }
        }
    }
}

/// The size of a finite number: `mantissa * 2^shift` units.
#[derive(Clone, Copy, Debug)]
pub struct Magnitude {
    pub mantissa: u64,
    pub shift: u32,
}

impl View for Magnitude {
    type V = nat;

    open spec fn view(&self) -> nat {
        self.mantissa as nat * pow2(self.shift as nat)
    }
}

impl Magnitude {
    /// The mantissa has at most 53 bits, or is the next power of two.
    pub open spec fn well_formed(&self) -> bool {
        self.mantissa <= 0x20_0000_0000_0000 && self.shift <= 2045
    }

    /// The units, as a number of any size.
    pub fn units(&self) -> (r: BigNat)
        ensures
            r@ == self@,
    {
        shifted(&BigNat::from_u128(self.mantissa as u128), self.shift)
    }
}

/// `2^e`.
pub fn power_of_two(e: u32) -> (r: u128)
    requires
        e < 128,
    ensures
        r == pow2(e as nat),
{
    let mut r: u128 = 1;
    let mut i: u32 = 0;
    proof {
        lemma2_to64();
    }
    while i < e
        invariant
            i <= e < 128,
            r == pow2(i as nat),
        decreases e - i,
    {
        proof {
            lemma_pow2_unfold((i + 1) as nat);
            lemma_pow2_below_128((i + 1) as nat);
        }
        r = r * 2;
        i = i + 1;
    }
    r
}

proof fn lemma_pow2_below_128(e: nat)
    requires
        e < 128,
    ensures
        pow2(e) <= 0x8000_0000_0000_0000_0000_0000_0000_0000,
{
    lemma2_to64_rest();
    lemma_pow2_adds(63, 64);
    assert(pow2(127) == 0x8000_0000_0000_0000_0000_0000_0000_0000) by {
        lemma2_to64();
        assert(pow2(63) * pow2(64) == pow2(127));
    }
    if e < 127 {
        lemma_pow2_strictly_increases(e, 127);
    }
}

/// `x * 2^e`.
pub fn shifted(x: &BigNat, e: u32) -> (r: BigNat)
    ensures
        r@ == x@ * pow2(e as nat),
{
    let factor: u128 = power_of_two(e % 32);
    proof {
        if e % 32 < 31 {
            lemma_pow2_strictly_increases((e % 32) as nat, 31);
        }
        lemma2_to64();
        lemma_pow2_adds((e % 32) as nat, (32 * (e / 32)) as nat);
        let a = x@;
        let b = pow2((e % 32) as nat);
        let c = pow2((32 * (e / 32)) as nat);
        assert((a * b) * c == a * (b * c)) by (nonlinear_arith);
    }
    x.times_plus(factor as u64, 0).shift_up((e / 32) as u64)
}

/// `num / den` units, rounded to the nearest binary64; `None` where that would
/// be infinite.
pub fn nearest(num: &BigNat, den: &BigNat) -> (r: Option<Magnitude>)
    requires
        den@ > 0,
    ensures
        r is Some <==> nearest_binary(num@, den@) < finite_limit(),
        r matches Some(m) ==> m@ == nearest_binary(num@, den@) && m.well_formed(),
{
    let ghost n = num@;
    let ghost d = den@;
    if shifted(den, 2098).at_most(num) {
        proof {
            lemma_too_large(n, d);
        }
        return None;
    }
    // The shift is the first one that leaves less than 2^53.
    let mut shift: u32 = 0;
    let mut high: u32 = 2045;
    while shift < high
        invariant
            n == num@,
            d == den@,
            shift <= high <= 2045,
            n < d * pow2((53 + high) as nat),
            shift > 0 ==> d * pow2((52 + shift) as nat) <= n,
        decreases high - shift,
    {
        let middle: u32 = shift + (high - shift) / 2;
        if shifted(den, 53 + middle).at_most(num) {
            shift = middle + 1;
        } else {
            high = middle;
        }
    }
    let scaled: BigNat = shifted(den, shift);
    let ghost unit = pow2(shift as nat);
    let ghost e = d * unit;
    proof {
        lemma_pow2_pos(shift as nat);
        lemma_div_below(n, d, pow2((53 + shift) as nat));
        lemma_div_below(n, d, pow2((52 + shift) as nat));
        lemma_excess_bits(n / d, shift as nat);
        assert(e > 0) by (nonlinear_arith)
            requires
                d > 0,
                unit > 0,
                e == d * unit,
        ;
        lemma_pow2_adds(53, shift as nat);
        assert(pow2(53) == 0x20_0000_0000_0000) by {
            lemma2_to64_rest();
        }
        assert(d * (0x20_0000_0000_0000 * unit) == 0x20_0000_0000_0000 * e) by (nonlinear_arith)
            requires
                e == d * unit,
        ;
    }
    let mantissa: u64 = half_even_ratio(num, &scaled);
    let ghost value = mantissa as nat * unit;
    proof {
        // Only a mantissa that was rounded up at the largest shift is too large.
        lemma_pow2_adds(53, 2045);
        if shift == 2045 && mantissa == 0x20_0000_0000_0000 {
            assert(value == finite_limit());
        } else {
            lemma_below_limit(mantissa as nat, shift as nat);
        }
    }
    if shift == 2045 && mantissa == 0x20_0000_0000_0000 {
        None
    } else {
        Some(Magnitude { mantissa, shift })
    }
}

/// Two magnitudes multiplied, in double precision; `None` where the product is
/// infinite.
pub fn multiplied(a: &Magnitude, b: &Magnitude) -> (r: Option<Magnitude>)
    ensures
        r is Some <==> times(a@, b@) < finite_limit(),
        r matches Some(m) ==> m@ == times(a@, b@) && m.well_formed(),
{
    proof {
        lemma_pow2_pos(1074);
        let m = b.mantissa as nat;
        let u = pow2(b.shift as nat);
        assert((a@ * m) * u == a@ * (m * u)) by (nonlinear_arith);
    }
    let num: BigNat = shifted(&a.units().times_plus(b.mantissa, 0), b.shift);
    nearest(&num, &shifted(&BigNat::from_u128(1), 1074))
}

/// A ratio of `2^2098` or more rounds to no less.
proof fn lemma_too_large(n: nat, d: nat)
    requires
        d > 0,
        d * pow2(2098) <= n,
    ensures
        nearest_binary(n, d) >= finite_limit(),
{
    let q = n / d;
    let s = excess_bits(q);
    let unit = pow2(s);
    lemma_div_below(n, d, pow2(2098));
    lemma_pow2_pos(s);
    lemma_excess_bits_fit(q);
    let v = pow2((52 + s) as nat);
    // The kept bits are at least 2^52, and the shift is at least 2046.
    if s <= 2045 {
        if s < 2045 {
            lemma_pow2_strictly_increases(53 + s, 2098);
        }
        assert(false);
    }
    assert(v <= q);
    lemma_div_below(n, d, v);
    lemma_pow2_adds(52, s);
    assert(d * unit > 0) by (nonlinear_arith)
        requires
            d > 0,
            unit > 0,
    ;
    assert(pow2(52) * (d * unit) == d * (pow2(52) * unit)) by (nonlinear_arith);
    lemma_half_even_at_least(n, d * unit, pow2(52));
    let m = half_even(n, d * unit);
    assert(m * unit >= pow2(52) * unit) by (nonlinear_arith)
        requires
            m >= pow2(52),
    ;
    if 52 + s > 2098 {
        lemma_pow2_strictly_increases(2098, (52 + s) as nat);
    }
}

/// Every pair but the largest mantissa with the largest shift stays finite.
proof fn lemma_below_limit(mantissa: nat, shift: nat)
    requires
        mantissa <= 0x20_0000_0000_0000,
        shift <= 2045,
        mantissa < 0x20_0000_0000_0000 || shift < 2045,
    ensures
        mantissa * pow2(shift) < finite_limit(),
{
    lemma2_to64_rest();
    assert(pow2(53) == 0x20_0000_0000_0000);
    lemma_pow2_pos(shift);
    lemma_pow2_adds(53, shift);
    if shift < 2045 {
        assert(mantissa * pow2(shift) <= pow2(53) * pow2(shift)) by (nonlinear_arith)
            requires
                mantissa <= pow2(53),
        ;
        lemma_pow2_strictly_increases(53 + shift, 2098);
    } else {
        assert(mantissa * pow2(shift) < pow2(53) * pow2(shift)) by (nonlinear_arith)
            requires
                mantissa < pow2(53),
                pow2(shift) > 0,
        ;
    }
}

/// `num / den`, rounded to the nearest integer, where that has at most 53 bits.
fn half_even_ratio(num: &BigNat, den: &BigNat) -> (r: u64)
    requires
        den@ > 0,
        num@ < 0x20_0000_0000_0000 * den@,
    ensures
        r == half_even(num@, den@),
        r <= 0x20_0000_0000_0000,
{
    let ghost n = num@;
    let ghost d = den@;
    let mut low: u64 = 0;
    let mut high: u64 = 0x20_0000_0000_0000;
    while high - low > 1
        invariant
            n == num@,
            d == den@,
            low < high <= 0x20_0000_0000_0000,
            d * low <= n < d * high,
        decreases high - low,
    {
        let middle: u64 = low + (high - low) / 2;
        if den.times_plus(middle, 0).at_most(num) {
            low = middle;
        } else {
            high = middle;
        }
    }
    let twice: BigNat = num.times_plus(2, 0);
    let between: BigNat = den.times_plus(2 * low + 1, 0);
    let ghost rest = n - d * low;
    proof {
        assert(d * (low + 1) == d * low + d) by (nonlinear_arith);
        assert(d * (2 * low + 1) == 2 * (d * low) + d) by (nonlinear_arith);
        assert(d * low == low * d) by (nonlinear_arith);
        lemma_fundamental_div_mod_converse(n as int, d as int, low as int, rest);
    }
    if twice.at_most(&between) && (low % 2 == 0 || !between.at_most(&twice)) {
        low
    } else {
        low + 1
    }
}

/// The first bits stand for zero, and the bits `0x3ff0...` for 1.
pub proof fn law_zero_and_one_have_their_bits()
    ensures
        decoded(0) == (Number::Finite { negative: false, units: 0 }),
        decoded(0x3ff0_0000_0000_0000) == (Number::Finite { negative: false, units: one() }),
{
    lemma2_to64_rest();
    lemma_pow2_adds(52, 1022);
    assert(0x3ff0_0000_0000_0000u64 / 0x10_0000_0000_0000 == 0x3ff);
    assert(0x3ffu64 % 0x800 == 0x3ff);
    assert(0x3ff0_0000_0000_0000u64 % 0x10_0000_0000_0000 == 0);
}

/// From the bits of one finite number to the next is one unit in the last
/// place: `2^-1074` up to twice the smallest number of 53 bits, and twice as
/// much with every exponent after that.
pub proof fn law_bits_count_up_by_the_last_place(bits: u64)
    requires
        bits < 0x7fef_ffff_ffff_ffff,
    ensures
        decoded(bits) matches Number::Finite { negative, units } && !negative && decoded(
            (bits + 1) as u64,
        ) == (Number::Finite {
            negative: false,
            units: units + pow2(
                if bits < 0x20_0000_0000_0000 {
                    0
                } else {
                    (bits as int / 0x10_0000_0000_0000 - 1) as nat
                },
            ),
        }),
{
    let e = bits / 0x10_0000_0000_0000;
    let f = bits % 0x10_0000_0000_0000;
    let next = (bits + 1) as u64;
    assert(e < 0x7ff);
    lemma2_to64();
    assert(0x10_0000_0000_0000 * pow2(0) == 0x10_0000_0000_0000);
    if f == 0xf_ffff_ffff_ffff {
        assert(next / 0x10_0000_0000_0000 == e + 1);
        assert(next % 0x10_0000_0000_0000 == 0);
        if e > 0 {
            lemma_pow2_unfold(e as nat);
            let p = pow2((e - 1) as nat);
            assert(0x1f_ffff_ffff_ffff * p + p == 0x10_0000_0000_0000 * (2 * p))
                by (nonlinear_arith);
        }
    } else {
        assert(next / 0x10_0000_0000_0000 == e);
        assert(next % 0x10_0000_0000_0000 == f + 1);
        if e > 0 {
            let p = pow2((e - 1) as nat);
            let m = 0x10_0000_0000_0000 + f as nat;
            assert((m + 1) * p == m * p + p) by (nonlinear_arith);
        }
    }
}

/// One more in the exponent field doubles a number that has all 53 bits.
pub proof fn law_exponent_doubles(bits: u64)
    requires
        0x10_0000_0000_0000 <= bits < 0x7fe0_0000_0000_0000,
    ensures
        decoded(bits) matches Number::Finite { negative, units } && !negative && decoded(
            (bits + 0x10_0000_0000_0000) as u64,
        ) == (Number::Finite { negative: false, units: 2 * units }),
{
    let e = bits / 0x10_0000_0000_0000;
    let f = bits % 0x10_0000_0000_0000;
    let next = (bits + 0x10_0000_0000_0000) as u64;
    assert(1 <= e < 0x7fe);
    assert(next / 0x10_0000_0000_0000 == e + 1);
    assert(next % 0x10_0000_0000_0000 == f);
    lemma_pow2_unfold(e as nat);
    let p = pow2((e - 1) as nat);
    let m = 0x10_0000_0000_0000 + f as nat;
    assert(m * (2 * p) == 2 * (m * p)) by (nonlinear_arith);
}

/// The highest bit is the sign, and nothing else.
pub proof fn law_highest_bit_is_the_sign(bits: u64)
    requires
        bits < 0x8000_0000_0000_0000,
    ensures
        decoded((bits + 0x8000_0000_0000_0000) as u64) == match decoded(bits) {
            Number::Nan => Number::Nan,
            Number::Infinite { negative } => Number::Infinite { negative: true },
            Number::Finite { negative, units } => Number::Finite { negative: true, units },
        },
        decoded(bits) matches Number::Infinite { negative } ==> !negative,
        decoded(bits) matches Number::Finite { negative, units } ==> !negative,
{
    let other = (bits + 0x8000_0000_0000_0000) as u64;
    let e = bits / 0x10_0000_0000_0000;
    assert(e < 0x800);
    assert(other / 0x10_0000_0000_0000 == e + 0x800);
    assert(e % 0x800 == e && (e + 0x800) % 0x800 == e) by (nonlinear_arith)
        requires
            e < 0x800,
    ;
    assert(other % 0x10_0000_0000_0000 == bits % 0x10_0000_0000_0000);
}

/// After the bits of the finite numbers come those of infinity, and then only
/// such as stand for no number; the largest finite number is `2^2045` units, one
/// in the last place, below what is too large.
pub proof fn law_bits_beyond_the_finite_numbers(bits: u64)
    requires
        0x7ff0_0000_0000_0000 < bits < 0x8000_0000_0000_0000,
    ensures
        decoded(0x7ff0_0000_0000_0000) == (Number::Infinite { negative: false }),
        decoded(bits) == Number::Nan,
        decoded(0x7fef_ffff_ffff_ffff) == (Number::Finite {
            negative: false,
            units: (finite_limit() - pow2(2045)) as nat,
        }),
{
    lemma2_to64_rest();
    lemma_pow2_adds(53, 2045);
    lemma_pow2_pos(2045);
    let p = pow2(2045);
    assert(0x1f_ffff_ffff_ffff * p == 0x20_0000_0000_0000 * p - p) by (nonlinear_arith);
    assert(0x7fef_ffff_ffff_ffffu64 / 0x10_0000_0000_0000 == 0x7fe);
    assert(0x7fef_ffff_ffff_ffffu64 % 0x10_0000_0000_0000 == 0xf_ffff_ffff_ffff);
    assert(0x7ff0_0000_0000_0000u64 / 0x10_0000_0000_0000 == 0x7ff);
    assert(0x7ff0_0000_0000_0000u64 % 0x10_0000_0000_0000 == 0);
    assert(bits / 0x10_0000_0000_0000 == 0x7ff);
    assert(bits % 0x10_0000_0000_0000 > 0);
}

/// Larger bits stand for the larger number, as long as both are finite.
pub proof fn law_bits_are_in_order(a: u64, b: u64)
    requires
        a < b <= 0x7fef_ffff_ffff_ffff,
    ensures
        match (decoded(a), decoded(b)) {
            (
                Number::Finite { negative: minus, units: less },
                Number::Finite { negative: sign, units: more },
            ) => !minus && !sign && less < more,
            _ => false,
        },
    decreases b - a,
{
    let before = (b - 1) as u64;
    law_bits_count_up_by_the_last_place(a);
    law_bits_count_up_by_the_last_place(before);
    let e = if before < 0x20_0000_0000_0000 {
        0
    } else {
        (before as int / 0x10_0000_0000_0000 - 1) as nat
    };
    lemma_pow2_pos(e);
    if a < before {
        law_bits_are_in_order(a, before);
    }
}

/// Every finite number that 53 bits hold has its bits: these.
pub proof fn law_every_number_has_bits(v: nat) -> (bits: u64)
    requires
        representable(v),
        v < finite_limit(),
    ensures
        bits < 0x7ff0_0000_0000_0000,
        decoded(bits) == (Number::Finite { negative: false, units: v }),
{
    let (m, s) = law_representable_has_53_bits(v);
    lemma2_to64();
    lemma2_to64_rest();
    if m < 0x10_0000_0000_0000 {
        assert(m * 1 == m);
        let bits = m as u64;
        assert(bits / 0x10_0000_0000_0000 == 0);
        bits
    } else {
        assert(s <= 2045) by {
            if s > 2045 {
                lemma_pow2_adds(52, s);
                assert(pow2(52) * pow2(s) <= m * pow2(s)) by (nonlinear_arith)
                    requires
                        pow2(52) <= m,
                ;
                if 52 + s > 2098 {
                    lemma_pow2_strictly_increases(2098, 52 + s);
                }
            }
        }
        let f = (m - 0x10_0000_0000_0000) as nat;
        let bits = ((s + 1) * 0x10_0000_0000_0000 + f) as u64;
        assert(bits / 0x10_0000_0000_0000 == s + 1);
        assert(bits % 0x10_0000_0000_0000 == f);
        bits
    }
}

/// A whole number up to `2^53` has bits that stand for exactly that number.
pub proof fn law_whole_numbers_have_bits(k: nat) -> (bits: u64)
    requires
        k <= pow2(53),
    ensures
        bits < 0x7ff0_0000_0000_0000,
        decoded(bits) == (Number::Finite { negative: false, units: k * one() }),
{
    lemma_representable(k, 1074);
    lemma_pow2_adds(53, 1074);
    lemma_pow2_strictly_increases(1127, 2098);
    assert(k * one() <= pow2(53) * one()) by (nonlinear_arith)
        requires
            k <= pow2(53),
    ;
    law_every_number_has_bits(k * one())
}

/// A product is rounded to a number that 53 bits hold, and no other such number
/// is nearer to it; where another one is as near, the one chosen is divisible by
/// twice the gap between them.
pub proof fn law_no_product_is_nearer(a: nat, b: nat, w: nat)
    requires
        representable(w),
    ensures
        representable(times(a, b)),
        abs(times(a, b) * pow2(1074) - a * b) <= abs(w * pow2(1074) - a * b),
        w != times(a, b) && abs(times(a, b) * pow2(1074) - a * b) == abs(w * pow2(1074) - a * b)
            ==> times(a, b) % (2 * abs(w - times(a, b))) == 0,
{
    lemma_pow2_pos(1074);
    law_no_number_is_nearer(a * b, one(), w);
}

/// What is taken apart is a mantissa times a power of two.
pub proof fn law_magnitude_is_its_mantissa_shifted(m: Magnitude)
    ensures
        m@ == m.mantissa * pow2(m.shift as nat),
{
}

} // verus!
