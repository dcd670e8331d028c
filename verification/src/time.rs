//! Spans of time, counted in nanoseconds, and their conversion to and from
//! double-precision seconds.

use crate::bignat::BigNat;
use crate::binary64::{finite_limit, nearest, one, power_of_two, shifted, Magnitude};
use crate::rounding::{
    half_even, law_no_integer_is_nearer, lemma_excess_bits, lemma_half_even_at_most,
    lemma_half_even_close, lemma_half_even_exact, lemma_half_even_same_ratio,
    lemma_nearest_at_least, lemma_nearest_at_most, lemma_nearest_error, lemma_nearest_exact,
    lemma_nearest_monotone, lemma_nearest_relative_error, lemma_nearest_representable,
    lemma_representable, nearest_binary, representable,
};
use vstd::arithmetic::div_mod::lemma_fundamental_div_mod_converse;
use vstd::arithmetic::power2::{
    lemma2_to64, lemma2_to64_rest, lemma_pow2_adds, lemma_pow2_pos, lemma_pow2_strictly_increases,
    lemma_pow2_unfold, pow2,
};
use vstd::math::abs;
use vstd::prelude::*;

verus! {

/// The nanoseconds in a second.
pub const NANOS_PER_SEC: u64 = 1_000_000_000;

/// The longest span, in nanoseconds: `u64::MAX` seconds and 999,999,999 more.
pub const MAX_NANOS: u128 = 18_446_744_073_709_551_615_999_999_999;

/// A span of time.
#[derive(Clone, Copy, Debug, PartialEq, Eq, Structural)]
pub struct Duration {
    nanos: u128,
}

impl View for Duration {
    type V = nat;

    /// The nanoseconds of the span.
    closed spec fn view(&self) -> nat {
        self.nanos as nat
    }
}

/// A span of `nanos` nanoseconds as double-precision seconds: the whole seconds
/// and the rest are converted apart and then added, each step rounded.
pub open spec fn to_seconds(nanos: nat) -> nat {
    let whole = nearest_binary(nanos / (NANOS_PER_SEC as nat) * one(), 1);
    let rest = nearest_binary(nanos % (NANOS_PER_SEC as nat) * one(), NANOS_PER_SEC as nat);
    nearest_binary(whole + rest, 1)
}

/// Double-precision seconds in nanoseconds, to the nearest one.
pub open spec fn to_nanos(seconds: nat) -> nat {
    half_even(seconds * (NANOS_PER_SEC as nat), one())
}

/// Whether double-precision seconds fit in a span of time.
pub open spec fn fits(seconds: nat) -> bool {
    seconds < 0x1_0000_0000_0000_0000 * one()
}

impl Duration {
    #[verifier::type_invariant]
    spec fn in_range(self) -> bool {
        self.nanos <= MAX_NANOS
    }

    /// No time at all.
    pub fn zero() -> (r: Duration)
        ensures
            r@ == 0,
    {
        Duration { nanos: 0 }
    }

    /// A number of whole seconds.
    pub fn from_secs(secs: u64) -> (r: Duration)
        ensures
            r@ == secs * NANOS_PER_SEC,
    {
        Duration { nanos: secs as u128 * 1_000_000_000 }
    }

    /// A number of milliseconds.
    pub fn from_millis(millis: u64) -> (r: Duration)
        ensures
            r@ == millis * 1_000_000,
    {
        Duration { nanos: millis as u128 * 1_000_000 }
    }

    /// A number of nanoseconds.
    pub fn from_nanos(nanos: u128) -> (r: Duration)
        requires
            nanos <= MAX_NANOS,
        ensures
            r@ == nanos,
    {
        Duration { nanos }
    }

    /// The span in nanoseconds.
    pub fn as_nanos(&self) -> (r: u128)
        ensures
            r == self@,
            r <= MAX_NANOS,
    {
        proof {
            use_type_invariant(self);
        }
        self.nanos
    }

    /// The whole seconds in the span.
    pub fn as_secs(&self) -> (r: u64)
        ensures
            r == self@ / (NANOS_PER_SEC as nat),
    {
        (self.as_nanos() / NANOS_PER_SEC as u128) as u64
    }

    /// The nanoseconds after the last whole second.
    pub fn subsec_nanos(&self) -> (r: u32)
        ensures
            r == self@ % (NANOS_PER_SEC as nat),
    {
        (self.as_nanos() % NANOS_PER_SEC as u128) as u32
    }

    /// The span in double-precision seconds.
    pub fn seconds(&self) -> (r: Magnitude)
        ensures
            r@ == to_seconds(self@),
            r.well_formed(),
            r@ <= 0x1_0000_0000_0000_0000 * one(),
            r@ < finite_limit(),
            representable(r@),
    {
        let whole: u64 = self.as_secs();
        let rest: u32 = self.subsec_nanos();
        proof {
            lemma_seconds_bound(self@);
        }
        let whole_units: BigNat = shifted(&BigNat::from_u128(whole as u128), 1074);
        let rest_units: BigNat = shifted(&BigNat::from_u128(rest as u128), 1074);
        let unit: BigNat = BigNat::from_u128(1);
        let a: Magnitude = nearest(&whole_units, &unit).unwrap();
        let b: Magnitude = nearest(&rest_units, &BigNat::from_u128(NANOS_PER_SEC as u128)).unwrap();
        proof {
            lemma_nearest_representable(a@ + b@, 1);
        }
        nearest(&sum(&a, &b), &unit).unwrap()
    }

    /// The span of this many double-precision seconds, to the nearest
    /// nanosecond.
    pub fn from_seconds(seconds: &Magnitude) -> (r: Duration)
        requires
            seconds.well_formed(),
            fits(seconds@),
        ensures
            r@ == to_nanos(seconds@),
    {
        let nanos: u128 = scaled_seconds(seconds, NANOS_PER_SEC);
        Duration { nanos }
    }
}

/// A span in double-precision seconds is far from the largest finite number.
proof fn lemma_seconds_bound(nanos: nat)
    requires
        nanos <= MAX_NANOS,
    ensures
        nearest_binary(nanos / (NANOS_PER_SEC as nat) * one(), 1) < finite_limit(),
        nearest_binary(nanos % (NANOS_PER_SEC as nat) * one(), NANOS_PER_SEC as nat)
            < finite_limit(),
        to_seconds(nanos) <= 0x1_0000_0000_0000_0000 * one(),
        to_seconds(nanos) < finite_limit(),
{
    let secs = nanos / (NANOS_PER_SEC as nat);
    let sub = nanos % (NANOS_PER_SEC as nat);
    let whole = nearest_binary(secs * one(), 1);
    let rest = nearest_binary(sub * one(), NANOS_PER_SEC as nat);
    lemma2_to64();
    lemma2_to64_rest();
    lemma_pow2_adds(64, 1074);
    lemma_pow2_pos(1074);
    lemma_representable(1, 1074);
    lemma_representable(1, 1138);
    assert(secs * one() <= pow2(1138)) by (nonlinear_arith)
        requires
            secs <= 0x1_0000_0000_0000_0000,
            pow2(1138) == 0x1_0000_0000_0000_0000 * one(),
    ;
    lemma_nearest_at_most(secs * one(), 1, pow2(1138));
    assert(sub * one() <= one() * NANOS_PER_SEC) by (nonlinear_arith)
        requires
            sub <= NANOS_PER_SEC,
    ;
    lemma_nearest_at_most(sub * one(), NANOS_PER_SEC as nat, one());
    // What the fraction adds to 2^64 seconds is lost.
    let top = pow2(1138) + one();
    lemma_pow2_adds(12, 1074);
    lemma_pow2_adds(52, 1086);
    lemma_pow2_unfold(1139);
    lemma_pow2_strictly_increases(1074, 1138);
    lemma_excess_bits(top, 1086);
    lemma_pow2_pos(1086);
    lemma_fundamental_div_mod_converse(
        top as int,
        pow2(1086) as int,
        pow2(52) as int,
        one() as int,
    );
    assert(nearest_binary(top, 1) == pow2(1138));
    lemma_nearest_monotone(whole + rest, 1, top, 1);
    lemma_pow2_strictly_increases(1138, 2098);
}

/// Double-precision seconds in parts of which there are `per_second` in a
/// second, to the nearest one.
pub fn scaled_seconds(seconds: &Magnitude, per_second: u64) -> (r: u128)
    requires
        seconds.well_formed(),
        seconds@ <= 0x1_0000_0000_0000_0000 * one(),
        per_second <= NANOS_PER_SEC,
    ensures
        r == half_even(seconds@ * per_second as nat, one()),
        fits(seconds@) ==> r <= MAX_NANOS,
        r <= 0x1_0000_0000_0000_0000 * per_second,
{
    let mantissa: u128 = seconds.mantissa as u128;
    let shift: u32 = seconds.shift;
    let ghost m = mantissa as nat;
    let ghost p = per_second as nat;
    assert(m * p <= 0x20_0000_0000_0000 * 1_000_000_000) by (nonlinear_arith)
        requires
            m <= 0x20_0000_0000_0000,
            p <= 1_000_000_000,
    ;
    let parts: u128 = mantissa * per_second as u128;
    proof {
        lemma_pow2_pos(1074);
        lemma2_to64();
        lemma2_to64_rest();
    }
    if shift >= 1074 {
        if mantissa == 0 {
            proof {
                assert(seconds@ == 0) by (nonlinear_arith)
                    requires
                        seconds@ == m * pow2(shift as nat),
                        m == 0,
                ;
                lemma_half_even_exact(0, one());
                assert(seconds@ * p == 0 * one()) by (nonlinear_arith)
                    requires
                        seconds@ == 0,
                ;
            }
            return 0;
        }
        let up: u32 = shift - 1074;
        let ghost u = pow2(up as nat);
        proof {
            lemma_pow2_adds(up as nat, 1074);
            lemma_pow2_pos(up as nat);
            assert(seconds@ == (m * u) * one()) by (nonlinear_arith)
                requires
                    seconds@ == m * pow2(shift as nat),
                    pow2(shift as nat) == u * one(),
            ;
            assert(m * u <= 0x1_0000_0000_0000_0000) by (nonlinear_arith)
                requires
                    (m * u) * one() <= 0x1_0000_0000_0000_0000 * one(),
                    one() > 0,
            ;
            assert(fits(seconds@) ==> m * u < 0x1_0000_0000_0000_0000) by (nonlinear_arith)
                requires
                    seconds@ == (m * u) * one(),
                    fits(seconds@) == (seconds@ < 0x1_0000_0000_0000_0000 * one()),
            ;
            assert(u <= m * u) by (nonlinear_arith)
                requires
                    m >= 1,
            ;
            if up > 64 {
                lemma_pow2_strictly_increases(64, up as nat);
                assert(false);
            }
            assert((m * p) * u == (m * u) * p) by (nonlinear_arith);
            assert((m * u) * p <= 0x1_0000_0000_0000_0000 * p) by (nonlinear_arith)
                requires
                    m * u <= 0x1_0000_0000_0000_0000,
            ;
            assert(m * u <= 0xffff_ffff_ffff_ffff ==> (m * u) * p <= 0xffff_ffff_ffff_ffff
                * 1_000_000_000) by (nonlinear_arith)
                requires
                    p <= 1_000_000_000,
            ;
            assert(seconds@ * p == ((m * p) * u) * one()) by (nonlinear_arith)
                requires
                    seconds@ == (m * u) * one(),
            ;
            lemma_half_even_exact((m * p) * u, one());
        }
        return parts * power_of_two(up);
    }
    let down: u32 = 1074 - shift;
    let ghost d = pow2(down as nat);
    proof {
        let u = pow2(shift as nat);
        lemma_pow2_pos(down as nat);
        lemma_pow2_adds(shift as nat, down as nat);
        assert((seconds@ * p) * d == (m * p) * one()) by (nonlinear_arith)
            requires
                seconds@ == m * u,
                one() == u * d,
        ;
        lemma_half_even_same_ratio(seconds@ * p, one(), m * p, d);
        lemma_pow2_unfold(down as nat);
        let h = pow2((down - 1) as nat);
        lemma_pow2_pos((down - 1) as nat);
        assert(m * p <= (0x10_0000_0000_0000 * p) * d) by (nonlinear_arith)
            requires
                m <= 0x20_0000_0000_0000,
                d == 2 * h,
                h >= 1,
        ;
        lemma_half_even_at_most(m * p, d, 0x10_0000_0000_0000 * p);
    }
    if down >= 84 {
        proof {
            lemma_pow2_adds(20, 64);
            assert(pow2(20) == 0x10_0000);
            if down > 84 {
                lemma_pow2_strictly_increases(84, down as nat);
            }
            lemma_fundamental_div_mod_converse((m * p) as int, d as int, 0, (m * p) as int);
        }
        return 0;
    }
    let unit: u128 = power_of_two(down);
    let whole: u128 = parts / unit;
    let rest: u128 = parts % unit;
    proof {
        lemma_pow2_adds(20, 64);
        lemma_pow2_strictly_increases(down as nat, 84);
    }
    if 2 * rest < unit || (2 * rest == unit && whole % 2 == 0) {
        whole
    } else {
        whole + 1
    }
}

/// A span of less than `2^23` seconds, which is some 97 days, comes back
/// unchanged from its conversion to double-precision seconds.
pub proof fn law_short_spans_survive(nanos: nat)
    requires
        nanos < 0x80_0000 * NANOS_PER_SEC,
    ensures
        to_nanos(to_seconds(nanos)) == nanos,
{
    let u = one();
    let g = NANOS_PER_SEC as nat;
    let secs = nanos / g;
    let sub = nanos % g;
    let whole = nearest_binary(secs * u, 1);
    let rest = nearest_binary(sub * u, g);
    let seconds = nearest_binary(whole + rest, 1);
    lemma2_to64();
    lemma2_to64_rest();
    lemma_pow2_pos(1074);
    lemma_pow2_pos(53);
    // The whole seconds are exact.
    lemma_representable(secs, 1074);
    lemma_nearest_exact(secs * u, 1);
    assert(whole == secs * u);
    // The rest is off by at most 2^-54 seconds.
    assert(sub * u < g * u) by (nonlinear_arith)
        requires
            sub < g,
            u > 0,
    ;
    lemma_nearest_error(sub * u, g, 1021);
    lemma_representable(1, 1074);
    lemma_nearest_at_most(sub * u, g, u);
    // The sum is off by at most 2^-31 seconds.
    lemma_pow2_adds(23, 1074);
    assert(whole + rest <= 0x80_0000 * u) by (nonlinear_arith)
        requires
            whole == secs * u,
            rest <= u,
            secs + 1 <= 0x80_0000,
    ;
    lemma_representable(1, 1097);
    lemma_nearest_error_closed(whole + rest, 1044);
    lemma_pow2_adds(23, 1021);
    lemma_pow2_adds(53, 1021);
    let e = pow2(1021);
    assert(2 * (seconds * g) <= 2 * (nanos * u) + (0x80_0000 * g + g) * e) by (nonlinear_arith)
        requires
            2 * seconds <= 2 * (whole + rest) + 0x80_0000 * e,
            2 * (rest * g) <= 2 * (sub * u) + g * e,
            whole == secs * u,
            nanos == secs * g + sub,
    {
        assert(2 * seconds * g <= (2 * (whole + rest) + 0x80_0000 * e) * g);
    }
    assert(2 * (nanos * u) <= 2 * (seconds * g) + (0x80_0000 * g + g) * e) by (nonlinear_arith)
        requires
            2 * (whole + rest) <= 2 * seconds + 0x80_0000 * e,
            2 * (sub * u) <= 2 * (rest * g) + g * e,
            whole == secs * u,
            nanos == secs * g + sub,
    {
        assert(2 * (whole + rest) * g <= (2 * seconds + 0x80_0000 * e) * g);
    }
    lemma_pow2_pos(1021);
    assert((0x80_0000 * g + g) * e < u) by (nonlinear_arith)
        requires
            g == 1_000_000_000,
            u == 0x20_0000_0000_0000 * e,
            e > 0,
    ;
    lemma_half_even_close(seconds * g, u, nanos);
}

/// Whole seconds up to `2^53` are converted without rounding, either way.
pub proof fn law_whole_seconds_are_exact(secs: nat)
    requires
        secs <= pow2(53),
    ensures
        to_seconds(secs * NANOS_PER_SEC as nat) == secs * one(),
        to_nanos(secs * one()) == secs * NANOS_PER_SEC,
{
    let u = one();
    let g = NANOS_PER_SEC as nat;
    lemma_pow2_pos(1074);
    lemma_fundamental_div_mod_converse((secs * g) as int, g as int, secs as int, 0);
    lemma_representable(secs, 1074);
    lemma_nearest_exact(secs * u, 1);
    lemma_pow2_pos(53);
    lemma_representable(0, 0);
    lemma_nearest_exact(0, g);
    assert(0 * u == 0 && 0 * g == 0 && (secs * u) * 1 == secs * u);
    assert(0 * pow2(0) == 0);
    assert((secs * u) * g == (secs * g) * u) by (nonlinear_arith);
    lemma_half_even_exact(secs * g, u);
}

/// A number up to `2^(53 + t)` is rounded by at most half of `2^t`.
proof fn lemma_nearest_error_closed(n: nat, t: nat)
    requires
        n <= pow2(53 + t),
    ensures
        2 * nearest_binary(n, 1) <= 2 * n + pow2(t),
        2 * n <= 2 * nearest_binary(n, 1) + pow2(t),
{
    if n < pow2(53 + t) {
        lemma_nearest_error(n, 1, t);
    } else {
        lemma_pow2_pos(53);
        lemma_representable(1, 53 + t);
        lemma_nearest_exact(n, 1);
    }
}

/// Whether double-precision seconds fit in a span of time.
pub fn seconds_fit(seconds: &Magnitude) -> (r: bool)
    ensures
        r == fits(seconds@),
{
    proof {
        lemma2_to64_rest();
        lemma_pow2_adds(64, 1074);
    }
    !shifted(&BigNat::from_u128(1), 1138).at_most(&seconds.units())
}

/// Spans of the same length are the same span.
pub proof fn law_spans_are_their_nanoseconds(a: Duration, b: Duration)
    ensures
        a == b <==> a@ == b@,
{
}

/// Two magnitudes added.
fn sum(a: &Magnitude, b: &Magnitude) -> (r: BigNat)
    ensures
        r@ == a@ + b@,
{
    let (high, low): (&Magnitude, &Magnitude) = if a.shift >= b.shift {
        (a, b)
    } else {
        (b, a)
    };
    let gap: u32 = high.shift - low.shift;
    let aligned: BigNat = shifted(&BigNat::from_u128(high.mantissa as u128), gap);
    proof {
        lemma_pow2_adds(gap as nat, low.shift as nat);
        let m = high.mantissa as nat;
        let n = low.mantissa as nat;
        let g = pow2(gap as nat);
        let l = pow2(low.shift as nat);
        assert((m * g * 1 + n) * l == m * (g * l) + n * l) by (nonlinear_arith);
    }
    shifted(&aligned.times_plus(1, low.mantissa), low.shift)
}

/// No whole number of nanoseconds is nearer to double-precision seconds than the
/// one they are converted to; where another is as near, that one is odd.
pub proof fn law_no_nanosecond_is_nearer(seconds: nat, v: nat)
    ensures
        abs(to_nanos(seconds) * pow2(1074) - seconds * 1_000_000_000) <= abs(
            v * pow2(1074) - seconds * 1_000_000_000,
        ),
        v != to_nanos(seconds) && abs(to_nanos(seconds) * pow2(1074) - seconds * 1_000_000_000)
            == abs(v * pow2(1074) - seconds * 1_000_000_000) ==> to_nanos(seconds) % 2 == 0,
{
    lemma_pow2_pos(1074);
    law_no_integer_is_nearer(seconds * 1_000_000_000, one(), v);
}

/// A span is converted to seconds in two parts, the whole seconds and the
/// nanoseconds after them, each of them to the nearest number, and their sum is
/// rounded to the nearest number again.
pub proof fn law_seconds_are_a_sum(secs: nat, nanos: nat)
    requires
        nanos < 1_000_000_000,
    ensures
        to_seconds(secs * 1_000_000_000 + nanos) == nearest_binary(
            nearest_binary(secs * pow2(1074), 1) + nearest_binary(
                nanos * pow2(1074),
                1_000_000_000,
            ),
            1,
        ),
{
    let n = secs * 1_000_000_000 + nanos;
    lemma_fundamental_div_mod_converse(n as int, 1_000_000_000, secs as int, nanos as int);
}

/// Seconds are off from the span they stand for by no more than two roundings in
/// a row can make of it, each of them by one part in `2^53`.
pub proof fn law_seconds_are_close(nanos: nat)
    requires
        nanos > 0,
    ensures
        ({
            let parts = pow2(53);
            let exact = nanos * pow2(1074);
            let found = to_seconds(nanos) * 1_000_000_000;
            &&& (parts - 1) * ((parts - 1) * exact) <= parts * (parts * found)
            &&& parts * (parts * found) <= (parts + 1) * ((parts + 1) * exact)
        }),
{
    let u = one();
    let e = pow2(53);
    let g: nat = 1_000_000_000;
    let secs = nanos / g;
    let sub = nanos % g;
    let whole = nearest_binary(secs * u, 1);
    let rest = nearest_binary(sub * u, g);
    let sum = whole + rest;
    let seconds = nearest_binary(sum, 1);
    let least = pow2(1044);
    lemma_pow2_pos(53);
    lemma_pow2_pos(1074);
    lemma_pow2_adds(30, 1044);
    lemma2_to64();
    lemma_pow2_strictly_increases(52, 1044);
    lemma_representable(1, 1044);
    assert(1 * least == least && least * 1 == least);
    let g1 = (e - 1) as nat;
    let g2 = e + 1;
    // Each part on its own.
    assert(g1 * (secs * u) <= e * whole && e * whole <= g2 * (secs * u) && (secs > 0 ==> whole
        >= least)) by {
        if secs > 0 {
            assert(least <= secs * u) by (nonlinear_arith)
                requires
                    secs >= 1,
                    u == 0x4000_0000 * least,
            ;
            lemma_nearest_at_least(secs * u, 1, least);
            lemma_nearest_relative_error(secs * u, 1);
            assert(whole * 1 == whole);
        } else {
            lemma_representable(0, 0);
            assert(0 * pow2(0) == 0 && 0 * u == 0 && 0 * 1 == 0);
            lemma_nearest_exact(0, 1);
            assert(g1 * 0 == 0 && g2 * 0 == 0 && e * 0 == 0);
        }
    }
    assert(g1 * (sub * u) <= e * (rest * g) && e * (rest * g) <= g2 * (sub * u) && (sub > 0
        ==> rest >= least)) by {
        if sub > 0 {
            assert(least * g <= sub * u) by (nonlinear_arith)
                requires
                    sub >= 1,
                    u == 0x4000_0000 * least,
                    g == 1_000_000_000,
            ;
            lemma_nearest_at_least(sub * u, g, least);
            lemma_nearest_relative_error(sub * u, g);
        } else {
            lemma_representable(0, 0);
            assert(0 * pow2(0) == 0 && 0 * u == 0 && 0 * g == 0);
            lemma_nearest_exact(0, g);
            assert(g1 * 0 == 0 && g2 * 0 == 0 && e * 0 == 0);
        }
    }
    // Their sum.
    lemma_nearest_at_least(sum, 1, least);
    lemma_nearest_relative_error(sum, 1);
    assert(seconds * 1 == seconds);
    let exact = nanos * u;
    let middle = sum * g;
    let found = seconds * g;
    assert(exact == (secs * u) * g + sub * u) by (nonlinear_arith)
        requires
            exact == nanos * u,
            nanos == secs * g + sub,
    ;
    assert(g1 * exact <= e * middle) by (nonlinear_arith)
        requires
            g1 * (secs * u) <= e * whole,
            g1 * (sub * u) <= e * (rest * g),
            exact == (secs * u) * g + sub * u,
            middle == (whole + rest) * g,
    {
        assert((g1 * (secs * u)) * g <= (e * whole) * g);
    }
    assert(e * middle <= g2 * exact) by (nonlinear_arith)
        requires
            e * whole <= g2 * (secs * u),
            e * (rest * g) <= g2 * (sub * u),
            exact == (secs * u) * g + sub * u,
            middle == (whole + rest) * g,
    {
        assert((e * whole) * g <= (g2 * (secs * u)) * g);
    }
    assert(g1 * middle <= e * found && e * found <= g2 * middle) by (nonlinear_arith)
        requires
            g1 * sum <= e * seconds,
            e * seconds <= g2 * sum,
            middle == sum * g,
            found == seconds * g,
    ;
    assert(g1 * (g1 * exact) <= e * (e * found)) by (nonlinear_arith)
        requires
            g1 * exact <= e * middle,
            g1 * middle <= e * found,
    {
        assert(g1 * (g1 * exact) <= g1 * (e * middle));
        assert(e * (g1 * middle) <= e * (e * found));
    }
    assert(e * (e * found) <= g2 * (g2 * exact)) by (nonlinear_arith)
        requires
            e * middle <= g2 * exact,
            e * found <= g2 * middle,
    {
        assert(e * (e * found) <= e * (g2 * middle));
        assert(g2 * (e * middle) <= g2 * (g2 * exact));
    }
}

/// Whole seconds fit exactly up to `u64::MAX`, and what is shorter than
/// something that fits, fits.
pub proof fn law_whole_seconds_fit_in_64_bits(secs: nat, a: nat, b: nat)
    requires
        a <= b,
        fits(b),
    ensures
        fits(secs * pow2(1074)) <==> secs <= 0xffff_ffff_ffff_ffff,
        fits(a),
{
    lemma_pow2_pos(1074);
    let u = one();
    if secs <= 0xffff_ffff_ffff_ffff {
        assert(secs * u < 0x1_0000_0000_0000_0000 * u) by (nonlinear_arith)
            requires
                secs < 0x1_0000_0000_0000_0000,
                u > 0,
        ;
    } else {
        assert(secs * u >= 0x1_0000_0000_0000_0000 * u) by (nonlinear_arith)
            requires
                secs >= 0x1_0000_0000_0000_0000,
        ;
    }
}

} // verus!
