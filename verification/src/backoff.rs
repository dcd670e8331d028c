//! The delay before each restart: exponential, and capped.

use crate::binary64::{
    decoded, finite_limit, multiplied, one, times, Binary64, Magnitude, Number, Parts,
};
use crate::rounding::{
    excess_bits, lemma_excess_bits_fit, lemma_half_even_exact, lemma_half_even_monotone,
    lemma_nearest_at_least, lemma_nearest_exact, lemma_nearest_relative_error,
    lemma_nearest_representable, lemma_nearest_same_ratio, lemma_power_adds, lemma_power_positive,
    lemma_representable, nearest_binary, power, representable,
};
use crate::squaring::{
    are_exact_powers, lemma_exact_power, lemma_one_representable, lemma_power_is_close,
    lemma_power_never_shrinks, lemma_times_monotone, lemma_times_one, raised, to_power,
};
use crate::time::{
    fits, law_no_nanosecond_is_nearer, law_whole_seconds_are_exact, seconds_fit, to_nanos,
    to_seconds, Duration, NANOS_PER_SEC,
};
use vstd::arithmetic::div_mod::lemma_fundamental_div_mod;
use vstd::arithmetic::power2::{
    lemma2_to64, lemma2_to64_rest, lemma_pow2_adds, lemma_pow2_pos, lemma_pow2_strictly_increases,
    lemma_pow2_unfold, pow2,
};
use vstd::math::abs;
use vstd::prelude::*;

verus! {

/// The smaller of `v` and `cap`.
pub open spec fn capped(v: nat, cap: nat) -> nat {
    if v < cap {
        v
    } else {
        cap
    }
}

/// `base * multiplier^steps` in double precision, in units: the power is
/// rounded first, and then the product.
pub open spec fn grown(base: nat, multiplier: nat, steps: nat) -> nat {
    times(base, to_power(multiplier, steps))
}

/// The delay before restart number `attempt`, in double-precision seconds:
/// `base * multiplier^(attempt - 1)`, not below zero and at most `max`.
///
/// A product that has no value, or an infinite one, counts as over the cap.
pub open spec fn delay_seconds(attempt: nat, base: nat, max: nat, multiplier: Number) -> nat {
    let steps = (attempt - 1) as nat;
    let start = to_seconds(base);
    let cap = to_seconds(max);
    if attempt == 0 {
        0
    } else if steps == 0 {
        capped(start, cap)
    } else {
        match multiplier {
            Number::Nan => cap,
            Number::Infinite { negative } => if start > 0 && negative && steps % 2 == 1 {
                0
            } else {
                cap
            },
            Number::Finite { negative, units } => if negative && steps % 2 == 1 {
                0
            } else {
                capped(grown(start, units, steps), cap)
            },
        }
    }
}

/// The delay before restart number `attempt`, in nanoseconds.
pub open spec fn delay_nanos(attempt: nat, base: nat, max: nat, multiplier: Number) -> nat {
    to_nanos(delay_seconds(attempt, base, max, multiplier))
}

/// The smaller of two magnitudes.
fn smaller(a: &Magnitude, b: &Magnitude) -> (r: Magnitude)
    ensures
        r@ == capped(a@, b@),
        r == *a || r == *b,
{
    if b.units().at_most(&a.units()) {
        *b
    } else {
        *a
    }
}

/// More seconds are never fewer nanoseconds.
pub proof fn lemma_to_nanos_monotone(a: nat, b: nat)
    requires
        a <= b,
    ensures
        to_nanos(a) <= to_nanos(b),
{
    let u = one();
    lemma_pow2_pos(1074);
    assert((a * NANOS_PER_SEC as nat) * u <= (b * NANOS_PER_SEC as nat) * u) by (nonlinear_arith)
        requires
            a <= b,
    ;
    lemma_half_even_monotone(a * NANOS_PER_SEC as nat, u, b * NANOS_PER_SEC as nat, u);
}

/// A span that is not empty has at least `2^-30` seconds.
proof fn lemma_seconds_at_least(nanos: nat)
    ensures
        nanos > 0 ==> to_seconds(nanos) >= pow2(1044),
        nanos == 0 ==> to_seconds(nanos) == 0,
{
    let u = one();
    let g = NANOS_PER_SEC as nat;
    let secs = nanos / g;
    let sub = nanos % g;
    let whole = nearest_binary(secs * u, 1);
    let rest = nearest_binary(sub * u, g);
    let least = pow2(1044);
    lemma_pow2_pos(1074);
    lemma_pow2_pos(53);
    lemma_pow2_adds(30, 1044);
    lemma2_to64();
    lemma_representable(1, 1044);
    assert(1 * least == least && least * 1 == least);
    if nanos == 0 {
        lemma_representable(0, 0);
        assert(0 * pow2(0) == 0 && 0 * u == 0 && 0 * g == 0 && 0 * 1 == 0);
        lemma_nearest_exact(0, 1);
        lemma_nearest_exact(0, g);
    } else {
        if secs > 0 {
            assert(least <= secs * u) by (nonlinear_arith)
                requires
                    secs >= 1,
                    u == 0x4000_0000 * least,
            ;
            lemma_nearest_at_least(secs * u, 1, least);
        } else {
            assert(least * g <= sub * u) by (nonlinear_arith)
                requires
                    sub >= 1,
                    u == 0x4000_0000 * least,
                    g == 1_000_000_000,
            ;
            lemma_nearest_at_least(sub * u, g, least);
        }
        lemma_nearest_at_least(whole + rest, 1, least);
    }
}

/// With a power that is too large for a finite number, the delay of a span that
/// is not empty is over every cap.
proof fn lemma_infinite_power(start: nat, factor: nat)
    requires
        start >= pow2(1044),
        factor >= finite_limit(),
    ensures
        times(start, factor) >= 0x1_0000_0000_0000_0000 * one(),
{
    let u = one();
    let v = pow2(1138);
    lemma_pow2_pos(1074);
    lemma_pow2_pos(53);
    lemma_pow2_adds(64, 1074);
    lemma2_to64_rest();
    lemma_pow2_adds(1138, 1074);
    lemma_pow2_adds(1044, 2098);
    lemma_pow2_strictly_increases(2212, 3142);
    assert(v * u <= start * factor) by (nonlinear_arith)
        requires
            v * u <= pow2(1044) * finite_limit(),
            pow2(1044) <= start,
            finite_limit() <= factor,
    ;
    lemma_representable(1, 1138);
    assert(1 * v == v);
    lemma_nearest_at_least(start * factor, u, v);
}

/// Nothing comes of a base of zero.
proof fn lemma_grown_from_zero(multiplier: nat, steps: nat)
    ensures
        grown(0, multiplier, steps) == 0,
{
    lemma_pow2_pos(1074);
    lemma_pow2_pos(53);
    lemma_representable(0, 0);
    assert(0 * pow2(0) == 0 && 0 * one() == 0);
    assert(0 * to_power(multiplier, steps) == 0) by (nonlinear_arith);
    lemma_nearest_exact(0, one());
}

/// The number 1 to any power.
proof fn lemma_power_of_one(steps: nat)
    ensures
        to_power(one(), steps) == one(),
{
    let u = one();
    let powers = |k: nat| u;
    lemma_one_representable();
    assert forall|k: nat| k <= steps implies {
        &&& representable(#[trigger] powers(k))
        &&& powers(k) * power(u, k) == power(u, k) * u
    } by {
        assert(u * power(u, k) == power(u, k) * u) by (nonlinear_arith);
    }
    lemma_exact_power(powers, u, steps);
}

/// The delay before restart attempt number `attempt`, in double-precision
/// seconds.
pub fn delay(attempt: u32, base: Duration, max: Duration, multiplier: Binary64) -> (r: Magnitude)
    ensures
        r@ == delay_seconds(attempt as nat, base@, max@, multiplier@),
        r.well_formed(),
{
    let none: Magnitude = Magnitude { mantissa: 0, shift: 0 };
    assert(none@ == 0) by {
        assert(0 * pow2(0) == 0);
    }
    if attempt == 0 {
        return none;
    }
    let steps: u32 = attempt - 1;
    let start: Magnitude = base.seconds();
    let cap: Magnitude = max.seconds();
    proof {
        lemma_pow2_pos(start.shift as nat);
        assert(start@ > 0 <==> start.mantissa > 0) by (nonlinear_arith)
            requires
                start@ == start.mantissa as nat * pow2(start.shift as nat),
                pow2(start.shift as nat) > 0,
        ;
    }
    if steps == 0 {
        return smaller(&start, &cap);
    }
    match multiplier.parts() {
        Parts::Nan => cap,
        Parts::Infinite { negative } => if start.mantissa > 0 && negative && steps % 2 == 1 {
            none
        } else {
            cap
        },
        Parts::Finite { negative, magnitude } => {
            if start.mantissa == 0 || (negative && steps % 2 == 1) {
                proof {
                    lemma_grown_from_zero(magnitude@, steps as nat);
                }
                return none;
            }
            proof {
                lemma_finite(magnitude);
                lemma_seconds_at_least(base@);
            }
            match raised(&magnitude, steps) {
                Some(factor) => match multiplied(&start, &factor) {
                    Some(product) => smaller(&product, &cap),
                    None => cap,
                },
                None => {
                    proof {
                        lemma_infinite_power(start@, to_power(magnitude@, steps as nat));
                    }
                    cap
                },
            }
        },
    }
}

/// A magnitude of at most 53 bits is a finite number.
proof fn lemma_finite(m: Magnitude)
    requires
        m.mantissa < 0x20_0000_0000_0000,
        m.shift <= 2045,
    ensures
        m@ < finite_limit(),
        representable(m@),
{
    let p = pow2(m.shift as nat);
    lemma2_to64_rest();
    lemma_pow2_pos(m.shift as nat);
    lemma_pow2_adds(53, m.shift as nat);
    lemma_representable(m.mantissa as nat, m.shift as nat);
    assert(m.mantissa as nat * p < pow2(53) * p) by (nonlinear_arith)
        requires
            (m.mantissa as nat) < pow2(53),
            p > 0,
    ;
    if m.shift < 2045 {
        lemma_pow2_strictly_increases((53 + m.shift) as nat, 2098);
    }
}

/// Computes the delay before restart attempt number `attempt` (counted from 1:
/// the first restart after a crash is attempt 1): the delay is
/// `base * multiplier^(attempt - 1)`, capped at `max`.
pub fn next_delay(attempt: u32, base: Duration, max: Duration, multiplier: Binary64) -> (r:
    Duration)
    requires
        fits(delay_seconds(attempt as nat, base@, max@, multiplier@)),
    ensures
        r@ == delay_nanos(attempt as nat, base@, max@, multiplier@),
{
    Duration::from_seconds(&delay(attempt, base, max, multiplier))
}

/// Whether the delay before restart attempt number `attempt` fits in a span of
/// time.
pub fn delay_fits(attempt: u32, base: Duration, max: Duration, multiplier: Binary64) -> (r: bool)
    ensures
        r == fits(delay_seconds(attempt as nat, base@, max@, multiplier@)),
{
    seconds_fit(&delay(attempt, base, max, multiplier))
}

/// Whether a multiplier is 1 or more.
pub open spec fn at_least_one(multiplier: Number) -> bool {
    match multiplier {
        Number::Nan => false,
        Number::Infinite { negative } => !negative,
        Number::Finite { negative, units } => !negative && units >= one(),
    }
}

/// Whether 53 bits hold a multiplier, as they do every [`Binary64`].
pub open spec fn in_double_precision(multiplier: Number) -> bool {
    multiplier matches Number::Finite { units, .. } ==> representable(units)
}

/// 53 bits hold every finite [`Binary64`].
pub proof fn law_numbers_are_in_double_precision(bits: u64)
    ensures
        in_double_precision(decoded(bits)),
{
    let exponent = (bits / 0x10_0000_0000_0000) % 0x800;
    let fraction = bits % 0x10_0000_0000_0000;
    lemma2_to64();
    lemma2_to64_rest();
    if exponent == 0 {
        lemma_representable(fraction as nat, 0);
        assert(fraction as nat * 1 == fraction);
    } else {
        lemma_representable(0x10_0000_0000_0000 + fraction as nat, (exponent - 1) as nat);
    }
}

/// Seconds from a span of time are held by 53 bits.
proof fn lemma_seconds_representable(nanos: nat)
    ensures
        representable(to_seconds(nanos)),
{
    let whole = nearest_binary(nanos / (NANOS_PER_SEC as nat) * one(), 1);
    let rest = nearest_binary(nanos % (NANOS_PER_SEC as nat) * one(), NANOS_PER_SEC as nat);
    lemma_nearest_representable(whole + rest, 1);
}

/// The backoff never grows past what `max` comes to in double-precision
/// seconds, and so not past `max` itself, unless that conversion rounds `max`
/// up.
pub proof fn law_delay_never_exceeds_max(attempt: nat, base: nat, max: nat, multiplier: Number)
    ensures
        delay_nanos(attempt, base, max, multiplier) <= to_nanos(to_seconds(max)),
        to_nanos(to_seconds(max)) <= max ==> delay_nanos(attempt, base, max, multiplier) <= max,
{
    lemma_to_nanos_monotone(delay_seconds(attempt, base, max, multiplier), to_seconds(max));
}

/// The first delay is `base`, or `max` where that is shorter, whatever the
/// multiplier: as they come out of their conversion to double-precision
/// seconds, and exactly where they survive it.
pub proof fn law_first_delay_is_base(base: nat, max: nat, multiplier: Number)
    ensures
        delay_nanos(1, base, max, multiplier) == capped(
            to_nanos(to_seconds(base)),
            to_nanos(to_seconds(max)),
        ),
        to_nanos(to_seconds(base)) == base && to_nanos(to_seconds(max)) == max ==> delay_nanos(
            1,
            base,
            max,
            multiplier,
        ) == capped(base, max),
{
    if to_seconds(base) < to_seconds(max) {
        lemma_to_nanos_monotone(to_seconds(base), to_seconds(max));
    } else {
        lemma_to_nanos_monotone(to_seconds(max), to_seconds(base));
    }
}

/// With a multiplier of 1 or more, no delay is shorter than the one before it,
/// and a delay that has reached the cap stays there.
pub proof fn law_delays_never_shrink(attempt: nat, base: nat, max: nat, multiplier: Number)
    requires
        at_least_one(multiplier),
        in_double_precision(multiplier),
    ensures
        delay_seconds(attempt, base, max, multiplier) <= delay_seconds(
            attempt + 1,
            base,
            max,
            multiplier,
        ),
        delay_nanos(attempt, base, max, multiplier) <= delay_nanos(
            attempt + 1,
            base,
            max,
            multiplier,
        ),
        attempt > 0 && delay_seconds(attempt, base, max, multiplier) == to_seconds(max)
            ==> delay_seconds(attempt + 1, base, max, multiplier) == to_seconds(max),
{
    let start = to_seconds(base);
    if attempt > 0 {
        if let Number::Finite { negative, units } = multiplier {
            let steps = (attempt - 1) as nat;
            lemma_power_never_shrinks(units, steps);
            lemma_times_monotone(
                start,
                to_power(units, steps),
                start,
                to_power(units, steps + 1),
            );
            if steps == 0 {
                lemma_seconds_representable(base);
                lemma_times_one(start);
                assert(to_power(units, 0) == one());
            }
        }
    }
    lemma_to_nanos_monotone(
        delay_seconds(attempt, base, max, multiplier),
        delay_seconds(attempt + 1, base, max, multiplier),
    );
}

/// Where 53 bits hold every power of the multiplier, each delay is the exact
/// `base * multiplier^(attempt - 1)`, rounded once and capped, and so the next
/// one is that product times the multiplier.
pub proof fn law_delays_are_multiplied(
    attempt: nat,
    base: nat,
    max: nat,
    multiplier: nat,
    powers: spec_fn(nat) -> nat,
)
    requires
        attempt >= 1,
        are_exact_powers(powers, multiplier, attempt),
    ensures
        ({
            let number = Number::Finite { negative: false, units: multiplier };
            let num = to_seconds(base) * power(multiplier, (attempt - 1) as nat);
            let den = power(one(), (attempt - 1) as nat);
            &&& delay_seconds(attempt, base, max, number) == capped(
                nearest_binary(num, den),
                to_seconds(max),
            )
            &&& delay_seconds(attempt + 1, base, max, number) == capped(
                nearest_binary(num * multiplier, den * one()),
                to_seconds(max),
            )
        }),
{
    let start = to_seconds(base);
    let steps = (attempt - 1) as nat;
    let p = power(multiplier, steps);
    let d = power(one(), steps);
    assert((start * p) * multiplier == start * (multiplier * p)) by (nonlinear_arith);
    assert(d * one() == one() * d) by (nonlinear_arith);
    assert(power(multiplier, steps + 1) == multiplier * p && power(one(), steps + 1) == one() * d);
    lemma_grown_exactly(start, multiplier, steps, powers);
    lemma_grown_exactly(start, multiplier, steps + 1, powers);
    lemma_seconds_representable(base);
    lemma_times_one(start);
    assert(to_power(multiplier, 0) == one());
}

/// A product with an exact power is rounded once.
proof fn lemma_grown_exactly(
    start: nat,
    multiplier: nat,
    steps: nat,
    powers: spec_fn(nat) -> nat,
)
    requires
        are_exact_powers(powers, multiplier, steps),
    ensures
        grown(start, multiplier, steps) == nearest_binary(
            start * power(multiplier, steps),
            power(one(), steps),
        ),
{
    let u = one();
    let f = powers(steps);
    let p = power(multiplier, steps);
    let d = power(u, steps);
    lemma_exact_power(powers, multiplier, steps);
    lemma_pow2_pos(1074);
    lemma_power_positive(u, steps);
    assert((start * f) * d == (start * p) * u) by (nonlinear_arith)
        requires
            f * d == p * u,
    {
        assert(start * (f * d) == start * (p * u));
    }
    lemma_nearest_same_ratio(start * f, u, start * p, d);
}

/// Before it is capped, a delay differs from the exact
/// `base * multiplier^(attempt - 1)` by no more than `attempt` roundings in a
/// row can make of it, each of them by one part in `2^53`, as long as neither
/// the power nor the delay in seconds is so small that it has fewer than 53
/// bits.
pub proof fn law_delays_are_close(attempt: nat, base: nat, max: nat, multiplier: Number)
    requires
        attempt >= 1,
        in_double_precision(multiplier),
        multiplier matches Number::Finite { negative, units } && !negative && {
            let steps = (attempt - 1) as nat;
            to_power(units, steps) > pow2(52) && grown(to_seconds(base), units, steps) > pow2(52)
        },
    ensures
        ({
            let units = multiplier->Finite_units;
            let steps = (attempt - 1) as nat;
            let found = grown(to_seconds(base), units, steps) * power(one(), steps);
            let exact = to_seconds(base) * power(units, steps);
            let parts = pow2(53);
            &&& delay_seconds(attempt, base, max, multiplier) == capped(
                grown(to_seconds(base), units, steps),
                to_seconds(max),
            )
            &&& power((parts - 1) as nat, attempt) * exact <= power(parts, attempt) * found
            &&& power(parts, attempt) * found <= power(parts + 1, attempt) * exact
        }),
{
    let u = one();
    let e = pow2(53);
    let units = multiplier->Finite_units;
    let steps = (attempt - 1) as nat;
    let start = to_seconds(base);
    let f = to_power(units, steps);
    let z = times(start, f);
    let p = power(units, steps);
    let q = power(u, steps);
    lemma_pow2_pos(1074);
    lemma_pow2_pos(53);
    lemma_seconds_representable(base);
    lemma_times_one(start);
    lemma_power_is_close(units, steps);
    lemma_nearest_relative_error(start * f, u);
    assert(to_power(units, 0) == u);
    let a = power((e - 1) as nat, steps);
    let b = power(e, steps);
    let c = power(e + 1, steps);
    let k = start * p;
    let v = z * q;
    let w = b * q;
    assert(start * (a * (p * u)) == (a * k) * u) by (nonlinear_arith)
        requires
            k == start * p,
    ;
    assert(start * (c * (p * u)) == (c * k) * u) by (nonlinear_arith)
        requires
            k == start * p,
    ;
    assert(start * (b * (f * q)) == w * (start * f)) by (nonlinear_arith)
        requires
            w == b * q,
    ;
    assert(w * (z * u) == (b * v) * u) by (nonlinear_arith)
        requires
            w == b * q,
            v == z * q,
    ;
    let g = (e - 1) as nat;
    let h = e + 1;
    assert(start * (a * (p * u)) <= start * (b * (f * q))) by (nonlinear_arith)
        requires
            a * (p * u) <= b * (f * q),
    ;
    assert(start * (b * (f * q)) <= start * (c * (p * u))) by (nonlinear_arith)
        requires
            b * (f * q) <= c * (p * u),
    ;
    lemma_one_more_below(g, (a * k) * u, w, start * f, e, z * u, (b * v) * u);
    lemma_one_more_above(e, z * u, w, start * f, h, (c * k) * u, (b * v) * u);
    let ak = a * k;
    let bv = b * v;
    let ck = c * k;
    assert(g * (ak * u) == (g * ak) * u) by (nonlinear_arith);
    assert(e * (bv * u) == (e * bv) * u) by (nonlinear_arith);
    assert(h * (ck * u) == (h * ck) * u) by (nonlinear_arith);
    assert(g * (a * k) <= e * (b * v)) by (nonlinear_arith)
        requires
            (g * (a * k)) * u <= (e * (b * v)) * u,
            u > 0,
    ;
    assert(e * (b * v) <= h * (c * k)) by (nonlinear_arith)
        requires
            (e * (b * v)) * u <= (h * (c * k)) * u,
            u > 0,
    ;
    assert((g * a) * k == g * (a * k)) by (nonlinear_arith);
    assert((e * b) * v == e * (b * v)) by (nonlinear_arith);
    assert((h * c) * k == h * (c * k)) by (nonlinear_arith);
    assert(power(g, attempt) == g * a && power(e, attempt) == e * b && power(h, attempt) == h * c);
}

/// The lower bounds of a factor and of a product with it, together.
proof fn lemma_one_more_below(g: nat, x: nat, w: nat, y: nat, e: nat, z: nat, r: nat)
    requires
        x <= w * y,
        g * y <= e * z,
        w * z == r,
    ensures
        g * x <= e * r,
{
    assert(g * x <= g * (w * y)) by (nonlinear_arith)
        requires
            x <= w * y,
    ;
    assert(g * (w * y) == w * (g * y)) by (nonlinear_arith);
    assert(w * (g * y) <= w * (e * z)) by (nonlinear_arith)
        requires
            g * y <= e * z,
    ;
    assert(w * (e * z) == e * (w * z)) by (nonlinear_arith);
}

/// The upper bounds of a factor and of a product with it, together.
proof fn lemma_one_more_above(e: nat, z: nat, w: nat, y: nat, h: nat, x: nat, r: nat)
    requires
        w * y <= x,
        e * z <= h * y,
        w * z == r,
    ensures
        e * r <= h * x,
{
    assert(e * (w * z) == w * (e * z)) by (nonlinear_arith);
    assert(w * (e * z) <= w * (h * y)) by (nonlinear_arith)
        requires
            e * z <= h * y,
    ;
    assert(w * (h * y) == h * (w * y)) by (nonlinear_arith);
    assert(h * (w * y) <= h * x) by (nonlinear_arith)
        requires
            w * y <= x,
    ;
}

/// With a multiplier of 1, every delay is the first one.
pub proof fn law_multiplier_one_never_grows(attempt: nat, base: nat, max: nat)
    requires
        attempt >= 1,
    ensures
        delay_nanos(attempt, base, max, Number::Finite { negative: false, units: one() })
            == delay_nanos(1, base, max, Number::Finite { negative: false, units: one() }),
{
    lemma_seconds_representable(base);
    lemma_power_of_one((attempt - 1) as nat);
    lemma_times_one(to_seconds(base));
}

/// With a multiplier of 2, every delay in seconds is exactly twice the one
/// before it, up to the cap.
pub proof fn law_multiplier_two_doubles(attempt: nat, base: nat, max: nat)
    requires
        attempt >= 1,
    ensures
        delay_seconds(attempt + 1, base, max, Number::Finite { negative: false, units: 2 * one() })
            == capped(
            2 * delay_seconds(
                attempt,
                base,
                max,
                Number::Finite { negative: false, units: 2 * one() },
            ),
            to_seconds(max),
        ),
{
    let start = to_seconds(base);
    let steps = (attempt - 1) as nat;
    lemma_seconds_representable(base);
    lemma_doubled(start, steps);
    lemma_doubled(start, steps + 1);
    lemma_pow2_unfold(steps + 1);
    let p = pow2(steps);
    assert(start * (2 * p) == 2 * (start * p)) by (nonlinear_arith);
    if steps == 0 {
        lemma2_to64();
        assert(start * 1 == start);
    }
}

/// Doubling never rounds.
proof fn lemma_doubled(start: nat, steps: nat)
    requires
        representable(start),
    ensures
        grown(start, 2 * one(), steps) == start * pow2(steps),
{
    let u = one();
    let powers = |k: nat| pow2(k) * u;
    lemma_pow2_pos(53);
    lemma_pow2_pos(1074);
    assert forall|k: nat| k <= steps implies {
        &&& representable(#[trigger] powers(k))
        &&& powers(k) * power(u, k) == power(2 * u, k) * u
    } by {
        lemma_pow2_adds(k, 1074);
        lemma_representable(1, k + 1074);
        assert(1 * pow2(k + 1074) == pow2(k + 1074));
        lemma_power_of_double(k);
        let p = pow2(k);
        let q = power(u, k);
        assert((p * u) * q == (p * q) * u) by (nonlinear_arith);
    }
    lemma_exact_power(powers, 2 * u, steps);
    lemma_doubled_representable(start, steps);
    let v = start * pow2(steps);
    assert(start * (pow2(steps) * u) == v * u) by (nonlinear_arith)
        requires
            v == start * pow2(steps),
    ;
    lemma_nearest_exact(v, u);
}

/// 53 bits hold a number that is doubled, if they held it before.
proof fn lemma_doubled_representable(start: nat, steps: nat)
    requires
        representable(start),
    ensures
        representable(start * pow2(steps)),
{
    let s = excess_bits(start);
    let m = start / pow2(s);
    lemma_pow2_pos(s);
    lemma_excess_bits_fit(start);
    lemma_fundamental_div_mod(start as int, pow2(s) as int);
    lemma_pow2_adds(53, s);
    assert(pow2(s) * m == m * pow2(s)) by (nonlinear_arith);
    assert(m <= pow2(53)) by (nonlinear_arith)
        requires
            m * pow2(s) < pow2(53) * pow2(s),
    ;
    lemma_pow2_adds(s, steps);
    lemma_representable(m, s + steps);
    let v = start * pow2(steps);
    assert(v == m * (pow2(s) * pow2(steps))) by (nonlinear_arith)
        requires
            v == start * pow2(steps),
            start == m * pow2(s),
    ;
}

proof fn lemma_power_of_double(steps: nat)
    ensures
        power(2 * one(), steps) == pow2(steps) * power(one(), steps),
    decreases steps,
{
    if steps == 0 {
        lemma2_to64();
        assert(power(2 * one(), 0) == 1 && power(one(), 0) == 1);
    } else {
        let f = (steps - 1) as nat;
        lemma_power_of_double(f);
        lemma_pow2_unfold(steps);
        let p = pow2(f);
        let q = power(one(), f);
        let u = one();
        assert((2 * u) * (p * q) == (2 * p) * (u * q)) by (nonlinear_arith);
    }
}

/// Nothing is waited for before an attempt that is none.
pub proof fn law_attempt_zero_has_no_delay(base: nat, max: nat, multiplier: Number)
    ensures
        delay_seconds(0, base, max, multiplier) == 0,
        delay_nanos(0, base, max, multiplier) == 0,
{
    lemma_pow2_pos(1074);
    lemma_half_even_exact(0, one());
    assert(0 * one() == 0 && 0 * NANOS_PER_SEC as nat == 0);
}

/// With a multiplier that is not negative, a delay in seconds is the smaller one
/// of `max` and the product of `base` and the multiplier to the power of the
/// attempts before it.
pub proof fn law_delay_is_the_smaller_one(attempt: nat, base: nat, max: nat, multiplier: nat)
    requires
        attempt >= 1,
    ensures
        ({
            let number = Number::Finite { negative: false, units: multiplier };
            let delay = delay_seconds(attempt, base, max, number);
            let product = times(to_seconds(base), to_power(multiplier, (attempt - 1) as nat));
            let cap = to_seconds(max);
            &&& delay <= product
            &&& delay <= cap
            &&& delay == product || delay == cap
        }),
{
    lemma_seconds_representable(base);
    lemma_times_one(to_seconds(base));
    assert(to_power(multiplier, 0) == one());
}

/// A negative multiplier has negative powers, and so no delay, at every second
/// attempt from the second one on; at the others it does what the positive one
/// does.
pub proof fn law_negative_multiplier_skips_every_second_delay(
    attempt: nat,
    base: nat,
    max: nat,
    multiplier: nat,
)
    requires
        attempt >= 1,
    ensures
        attempt % 2 == 0 ==> delay_seconds(
            attempt,
            base,
            max,
            Number::Finite { negative: true, units: multiplier },
        ) == 0,
        attempt % 2 == 1 ==> delay_seconds(
            attempt,
            base,
            max,
            Number::Finite { negative: true, units: multiplier },
        ) == delay_seconds(
            attempt,
            base,
            max,
            Number::Finite { negative: false, units: multiplier },
        ),
{
}

/// From the second attempt on, a multiplier that is not a number or infinite
/// leads to `max`; only a negative infinite one, with a base above zero, leads
/// to no delay at every second attempt.
pub proof fn law_other_multipliers_lead_to_max(attempt: nat, base: nat, max: nat)
    requires
        attempt >= 2,
    ensures
        delay_seconds(attempt, base, max, Number::Nan) == to_seconds(max),
        delay_seconds(attempt, base, max, Number::Infinite { negative: false }) == to_seconds(max),
        delay_seconds(attempt, base, max, Number::Infinite { negative: true }) == if base > 0
            && attempt % 2 == 0 {
            0
        } else {
            to_seconds(max)
        },
{
    lemma_seconds_at_least(base);
    lemma_pow2_pos(1044);
}

/// No whole number of nanoseconds is nearer to a delay in seconds than the delay
/// in nanoseconds; where another is as near, that one is odd.
pub proof fn law_delay_is_the_nearest_nanosecond(
    attempt: nat,
    base: nat,
    max: nat,
    multiplier: Number,
    v: nat,
)
    ensures
        ({
            let exact = delay_seconds(attempt, base, max, multiplier) * 1_000_000_000;
            let delay = delay_nanos(attempt, base, max, multiplier);
            &&& abs(delay * pow2(1074) - exact) <= abs(v * pow2(1074) - exact)
            &&& v != delay && abs(delay * pow2(1074) - exact) == abs(v * pow2(1074) - exact)
                ==> delay % 2 == 0
        }),
{
    law_no_nanosecond_is_nearer(delay_seconds(attempt, base, max, multiplier), v);
}

/// With a base, a cap and a multiplier that are whole numbers, every delay is
/// exactly `base * multiplier^(attempt - 1)` seconds, or the cap where that is
/// less, as long as none of these is over `2^53`.
pub proof fn law_whole_delays_are_exact(attempt: nat, base: nat, max: nat, multiplier: nat)
    requires
        attempt >= 1,
        base > 0,
        multiplier > 0,
        max <= pow2(53),
        base * power(multiplier, (attempt - 1) as nat) <= pow2(53),
    ensures
        ({
            let product = base * power(multiplier, (attempt - 1) as nat);
            delay_nanos(
                attempt,
                base * 1_000_000_000,
                max * 1_000_000_000,
                Number::Finite { negative: false, units: multiplier * pow2(1074) },
            ) == (if product < max {
                product
            } else {
                max
            }) * 1_000_000_000
        }),
{
    let u = one();
    let m = multiplier * u;
    let steps = (attempt - 1) as nat;
    let top = power(multiplier, steps);
    let powers = |k: nat| power(multiplier, k) * u;
    lemma_pow2_pos(1074);
    lemma_power_positive(multiplier, steps);
    assert(top <= pow2(53) && base <= pow2(53)) by (nonlinear_arith)
        requires
            base * top <= pow2(53),
            base > 0,
            top > 0,
    ;
    assert forall|k: nat| k <= steps implies {
        &&& representable(#[trigger] powers(k))
        &&& powers(k) * power(u, k) == power(m, k) * u
    } by {
        let rest = (steps - k) as nat;
        lemma_power_adds(multiplier, k, rest);
        lemma_power_positive(multiplier, rest);
        let p = power(multiplier, k);
        let r = power(multiplier, rest);
        assert(p <= p * r) by (nonlinear_arith)
            requires
                r >= 1,
        ;
        lemma_representable(p, 1074);
        lemma_power_of_product(multiplier, u, k);
        let q = power(u, k);
        assert((p * u) * q == (p * q) * u) by (nonlinear_arith);
    }
    lemma_exact_power(powers, m, steps);
    law_whole_seconds_are_exact(base);
    law_whole_seconds_are_exact(max);
    let start = base * u;
    let product = base * top;
    law_delay_is_the_smaller_one(attempt, base * 1_000_000_000, max * 1_000_000_000, m);
    assert(start * (top * u) == (product * u) * u) by (nonlinear_arith)
        requires
            start == base * u,
            product == base * top,
    ;
    lemma_representable(product, 1074);
    lemma_nearest_exact(product * u, u);
    law_whole_seconds_are_exact(product);
    if product < max {
        assert(product * u < max * u) by (nonlinear_arith)
            requires
                product < max,
                u > 0,
        ;
    } else {
        assert(max * u <= product * u) by (nonlinear_arith)
            requires
                max <= product,
        ;
    }
}

/// The power of a product is the product of the powers.
proof fn lemma_power_of_product(a: nat, b: nat, e: nat)
    ensures
        power(a * b, e) == power(a, e) * power(b, e),
    decreases e,
{
    if e == 0 {
        assert(power(a * b, 0) == 1 && power(a, 0) == 1 && power(b, 0) == 1);
    } else {
        let f = (e - 1) as nat;
        lemma_power_of_product(a, b, f);
        let p = power(a, f);
        let q = power(b, f);
        assert((a * b) * (p * q) == (a * p) * (b * q)) by (nonlinear_arith);
    }
}

} // verus!
