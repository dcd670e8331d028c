//! Rounding of exact ratios: to the nearest integer, and to the nearest
//! number that 53 significant bits can hold.

use vstd::arithmetic::div_mod::{lemma_fundamental_div_mod, lemma_fundamental_div_mod_converse};
use vstd::arithmetic::power2::{
    lemma2_to64, lemma_pow2_adds, lemma_pow2_pos, lemma_pow2_strictly_increases, lemma_pow2_unfold,
    pow2,
};
use vstd::math::abs;
use vstd::prelude::*;

verus! {

/// The integer nearest to `n / d`; of two that are equally near, the even one.
pub open spec fn half_even(n: nat, d: nat) -> nat {
    let q = n / d;
    let r = n % d;
    if 2 * r < d || (2 * r == d && q % 2 == 0) {
        q
    } else {
        q + 1
    }
}

/// `b^e`.
pub open spec fn power(b: nat, e: nat) -> nat
    decreases e,
{
    if e == 0 {
        1
    } else {
        b * power(b, (e - 1) as nat)
    }
}

/// How often `q` has to be halved until at most 53 bits of it are left.
pub open spec fn excess_bits(q: nat) -> nat
    decreases q,
{
    if q < pow2(53) {
        0
    } else {
        proof {
            lemma_pow2_pos(53);
        }
        excess_bits(q / 2) + 1
    }
}

/// `n / d` rounded to 53 significant bits, but never finer than to an integer;
/// of two candidates that are equally near, the one whose last kept bit is 0.
pub open spec fn nearest_binary(n: nat, d: nat) -> nat {
    let unit = pow2(excess_bits(n / d));
    half_even(n, d * unit) * unit
}

/// What nearness means: `half_even(n, d)` is at most a half away from `n / d`,
/// and even where it is exactly a half away.
pub proof fn lemma_half_even_near(n: nat, d: nat)
    requires
        d > 0,
    ensures
        2 * (half_even(n, d) * d) <= 2 * n + d,
        2 * n <= 2 * (half_even(n, d) * d) + d,
        2 * (half_even(n, d) * d) == 2 * n + d ==> half_even(n, d) % 2 == 0,
        2 * n == 2 * (half_even(n, d) * d) + d ==> half_even(n, d) % 2 == 0,
{
    let q = n / d;
    let r = n % d;
    lemma_fundamental_div_mod(n as int, d as int);
    assert(n == q * d + r) by (nonlinear_arith)
        requires
            n == d * q + r,
    ;
    assert((q + 1) * d == q * d + d) by (nonlinear_arith);
}

/// A larger ratio never rounds to a smaller integer.
pub proof fn lemma_half_even_monotone(n1: nat, d1: nat, n2: nat, d2: nat)
    requires
        d1 > 0,
        d2 > 0,
        n1 * d2 <= n2 * d1,
    ensures
        half_even(n1, d1) <= half_even(n2, d2),
{
    let v1 = half_even(n1, d1);
    let v2 = half_even(n2, d2);
    lemma_half_even_near(n1, d1);
    lemma_half_even_near(n2, d2);
    if v1 > v2 {
        // Over the common denominator: (2 v1 - 1) <= 2 n1/d1 <= 2 n2/d2 <= (2 v2 + 1).
        assert((2 * v1 - 1) * (d1 * d2) <= 2 * (n1 * d2)) by (nonlinear_arith)
            requires
                2 * (v1 * d1) <= 2 * n1 + d1,
                d2 > 0,
        ;
        assert(2 * (n2 * d1) <= (2 * v2 + 1) * (d1 * d2)) by (nonlinear_arith)
            requires
                2 * n2 <= 2 * (v2 * d2) + d2,
                d1 > 0,
        ;
        assert(d1 * d2 > 0) by (nonlinear_arith)
            requires
                d1 > 0,
                d2 > 0,
        ;
        assert(2 * v1 - 1 <= 2 * v2 + 1) by (nonlinear_arith)
            requires
                (2 * v1 - 1) * (d1 * d2) <= (2 * v2 + 1) * (d1 * d2),
                d1 * d2 > 0,
        ;
        assert(v1 == v2 + 1);
        assert(2 * (n1 * d2) == (2 * v1 - 1) * (d1 * d2));
        assert(2 * (n2 * d1) == (2 * v2 + 1) * (d1 * d2));
        assert(2 * (v1 * d1) == 2 * n1 + d1) by (nonlinear_arith)
            requires
                2 * (n1 * d2) == (2 * v1 - 1) * (d1 * d2),
                d2 > 0,
        ;
        assert(2 * n2 == 2 * (v2 * d2) + d2) by (nonlinear_arith)
            requires
                2 * (n2 * d1) == (2 * v2 + 1) * (d1 * d2),
                d1 > 0,
        ;
        assert(false);
    }
}

/// Equal ratios round to the same integer.
pub proof fn lemma_half_even_same_ratio(n1: nat, d1: nat, n2: nat, d2: nat)
    requires
        d1 > 0,
        d2 > 0,
        n1 * d2 == n2 * d1,
    ensures
        half_even(n1, d1) == half_even(n2, d2),
{
    lemma_half_even_monotone(n1, d1, n2, d2);
    lemma_half_even_monotone(n2, d2, n1, d1);
}

/// A ratio that is an integer rounds to itself.
pub proof fn lemma_half_even_exact(v: nat, d: nat)
    requires
        d > 0,
    ensures
        half_even(v * d, d) == v,
{
    lemma_fundamental_div_mod_converse((v * d) as int, d as int, v as int, 0);
}

/// A ratio less than a half away from `v` rounds to `v`.
pub proof fn lemma_half_even_close(n: nat, d: nat, v: nat)
    requires
        d > 0,
        2 * n < 2 * (v * d) + d,
        2 * (v * d) < 2 * n + d,
    ensures
        half_even(n, d) == v,
{
    let h = half_even(n, d);
    lemma_half_even_near(n, d);
    if h > v {
        assert(v * d + d <= h * d) by (nonlinear_arith)
            requires
                v + 1 <= h,
        ;
    } else if h < v {
        assert(h * d + d <= v * d) by (nonlinear_arith)
            requires
                h + 1 <= v,
        ;
    }
}

/// A ratio of at least `v` rounds to at least `v`.
pub proof fn lemma_half_even_at_least(n: nat, d: nat, v: nat)
    requires
        d > 0,
        v * d <= n,
    ensures
        half_even(n, d) >= v,
{
    lemma_half_even_exact(v, d);
    assert((v * d) * d <= n * d) by (nonlinear_arith)
        requires
            v * d <= n,
    ;
    lemma_half_even_monotone(v * d, d, n, d);
}

/// A ratio of at most `v` rounds to at most `v`.
pub proof fn lemma_half_even_at_most(n: nat, d: nat, v: nat)
    requires
        d > 0,
        n <= v * d,
    ensures
        half_even(n, d) <= v,
{
    lemma_half_even_exact(v, d);
    assert(n * d <= (v * d) * d) by (nonlinear_arith)
        requires
            n <= v * d,
    ;
    lemma_half_even_monotone(n, d, v * d, d);
}

/// Whether 53 significant bits hold `v` without rounding.
pub open spec fn representable(v: nat) -> bool {
    v % pow2(excess_bits(v)) == 0
}

/// `excess_bits(q)` is the one count of halvings that leaves no more than 53
/// bits, and all 53 where there are any halvings.
pub proof fn lemma_excess_bits(q: nat, s: nat)
    requires
        q < pow2(53 + s),
        s > 0 ==> pow2((52 + s) as nat) <= q,
    ensures
        excess_bits(q) == s,
    decreases s,
{
    if s > 0 {
        lemma_pow2_unfold(53 + s);
        lemma_pow2_unfold((52 + s) as nat);
        let t = (s - 1) as nat;
        assert(q / 2 < pow2(53 + t));
        if t > 0 {
            assert(pow2((52 + t) as nat) <= q / 2);
        }
        lemma_excess_bits(q / 2, t);
        assert(pow2(53) <= q) by {
            if t > 0 {
                lemma_pow2_strictly_increases(53, (52 + s) as nat);
            }
        }
    }
}

/// A ratio lies below a bound exactly if its integer part does.
pub proof fn lemma_div_below(n: nat, d: nat, bound: nat)
    requires
        d > 0,
    ensures
        n < d * bound <==> n / d < bound,
{
    let q = n / d;
    let r = n % d;
    lemma_fundamental_div_mod(n as int, d as int);
    if q < bound {
        assert(d * q + d <= d * bound) by (nonlinear_arith)
            requires
                q + 1 <= bound,
        ;
    } else {
        assert(d * bound <= d * q) by (nonlinear_arith)
            requires
                bound <= q,
        ;
    }
}

/// `excess_bits(q)` halvings leave at most 53 bits, and 53 where any are made.
pub proof fn lemma_excess_bits_fit(q: nat)
    ensures
        q < pow2(53 + excess_bits(q)),
        excess_bits(q) > 0 ==> pow2((52 + excess_bits(q)) as nat) <= q,
    decreases q,
{
    if q >= pow2(53) {
        lemma_pow2_pos(53);
        lemma_excess_bits_fit(q / 2);
        let s = excess_bits(q);
        lemma_pow2_unfold(53 + s);
        lemma_pow2_unfold((52 + s) as nat);
    }
}

/// A larger number never loses fewer bits.
proof fn lemma_excess_bits_monotone(q1: nat, q2: nat)
    requires
        q1 <= q2,
    ensures
        excess_bits(q1) <= excess_bits(q2),
    decreases q1,
{
    if q1 >= pow2(53) {
        lemma_pow2_pos(53);
        lemma_excess_bits_monotone(q1 / 2, q2 / 2);
    }
}

/// The bits that `nearest_binary` keeps: at most `2^53`, and at least `2^52`
/// where any bits are dropped.
proof fn lemma_kept_bits(n: nat, d: nat)
    requires
        d > 0,
    ensures
        d * pow2(excess_bits(n / d)) > 0,
        half_even(n, d * pow2(excess_bits(n / d))) <= pow2(53),
        excess_bits(n / d) > 0 ==> half_even(n, d * pow2(excess_bits(n / d))) >= pow2(52),
{
    let q = n / d;
    let s = excess_bits(q);
    let unit = pow2(s);
    lemma_pow2_pos(s);
    lemma_excess_bits_fit(q);
    lemma_div_below(n, d, pow2(53 + s));
    lemma_div_below(n, d, pow2((52 + s) as nat));
    lemma_pow2_adds(53, s);
    lemma_pow2_adds(52, s);
    assert(d * unit > 0) by (nonlinear_arith)
        requires
            d > 0,
            unit > 0,
    ;
    assert(pow2(53) * (d * unit) == d * (pow2(53) * unit)) by (nonlinear_arith);
    assert(pow2(52) * (d * unit) == d * (pow2(52) * unit)) by (nonlinear_arith);
    lemma_half_even_at_most(n, d * unit, pow2(53));
    if s > 0 {
        lemma_half_even_at_least(n, d * unit, pow2(52));
    }
}

/// A larger ratio never rounds to a smaller number.
pub proof fn lemma_nearest_monotone(n1: nat, d1: nat, n2: nat, d2: nat)
    requires
        d1 > 0,
        d2 > 0,
        n1 * d2 <= n2 * d1,
    ensures
        nearest_binary(n1, d1) <= nearest_binary(n2, d2),
{
    let q1 = n1 / d1;
    let q2 = n2 / d2;
    let s1 = excess_bits(q1);
    let s2 = excess_bits(q2);
    let u1 = pow2(s1);
    let u2 = pow2(s2);
    assert(q1 <= q2) by {
        // Otherwise n1/d1 >= q1 > n2/d2.
        if q1 > q2 {
            lemma_div_below(n2, d2, q1);
            lemma_div_below(n1, d1, q1);
            assert(n2 * d1 < (d2 * q1) * d1) by (nonlinear_arith)
                requires
                    n2 < d2 * q1,
                    d1 > 0,
            ;
            assert((d1 * q1) * d2 <= n1 * d2) by (nonlinear_arith)
                requires
                    d1 * q1 <= n1,
            ;
            assert((d1 * q1) * d2 == (d2 * q1) * d1) by (nonlinear_arith);
        }
    }
    lemma_excess_bits_monotone(q1, q2);
    lemma_kept_bits(n1, d1);
    lemma_kept_bits(n2, d2);
    let m1 = half_even(n1, d1 * u1);
    let m2 = half_even(n2, d2 * u2);
    if s1 == s2 {
        assert(n1 * (d2 * u2) <= n2 * (d1 * u1)) by (nonlinear_arith)
            requires
                n1 * d2 <= n2 * d1,
                u1 == u2,
        ;
        lemma_half_even_monotone(n1, d1 * u1, n2, d2 * u2);
        assert(m1 * u1 <= m2 * u2) by (nonlinear_arith)
            requires
                m1 <= m2,
                u1 == u2,
        ;
    } else {
        lemma_pow2_adds(53, s1);
        lemma_pow2_adds(52, s2);
        assert(m1 * u1 <= pow2(53) * u1) by (nonlinear_arith)
            requires
                m1 <= pow2(53),
        ;
        assert(pow2(52) * u2 <= m2 * u2) by (nonlinear_arith)
            requires
                pow2(52) <= m2,
        ;
        if 53 + s1 < 52 + s2 {
            lemma_pow2_strictly_increases(53 + s1, (52 + s2) as nat);
        }
    }
}

/// Equal ratios round to the same number.
pub proof fn lemma_nearest_same_ratio(n1: nat, d1: nat, n2: nat, d2: nat)
    requires
        d1 > 0,
        d2 > 0,
        n1 * d2 == n2 * d1,
    ensures
        nearest_binary(n1, d1) == nearest_binary(n2, d2),
{
    lemma_nearest_monotone(n1, d1, n2, d2);
    lemma_nearest_monotone(n2, d2, n1, d1);
}

/// A number that 53 bits hold rounds to itself.
pub proof fn lemma_nearest_exact(v: nat, d: nat)
    requires
        d > 0,
        representable(v),
    ensures
        nearest_binary(v * d, d) == v,
{
    lemma_fundamental_div_mod_converse((v * d) as int, d as int, v as int, 0);
    let unit = pow2(excess_bits(v));
    lemma_pow2_pos(excess_bits(v));
    lemma_fundamental_div_mod(v as int, unit as int);
    let m = v / unit;
    assert(v == m * unit) by (nonlinear_arith)
        requires
            v == unit * m,
    ;
    assert(v * d == m * (d * unit)) by (nonlinear_arith)
        requires
            v == m * unit,
    ;
    assert(d * unit > 0) by (nonlinear_arith)
        requires
            d > 0,
            unit > 0,
    ;
    lemma_half_even_exact(m, d * unit);
}

/// A ratio of at most `v` rounds to at most `v`, where 53 bits hold `v`.
pub proof fn lemma_nearest_at_most(n: nat, d: nat, v: nat)
    requires
        d > 0,
        representable(v),
        n <= v * d,
    ensures
        nearest_binary(n, d) <= v,
{
    lemma_nearest_exact(v, d);
    assert(n * d <= (v * d) * d) by (nonlinear_arith)
        requires
            n <= v * d,
    ;
    lemma_nearest_monotone(n, d, v * d, d);
}

/// A ratio of at least `v` rounds to at least `v`, where 53 bits hold `v`.
pub proof fn lemma_nearest_at_least(n: nat, d: nat, v: nat)
    requires
        d > 0,
        representable(v),
        v * d <= n,
    ensures
        nearest_binary(n, d) >= v,
{
    lemma_nearest_exact(v, d);
    assert((v * d) * d <= n * d) by (nonlinear_arith)
        requires
            v * d <= n,
    ;
    lemma_nearest_monotone(v * d, d, n, d);
}

/// 53 bits hold every product of at most `2^53` and a power of two.
pub proof fn lemma_representable(m: nat, t: nat)
    requires
        m <= pow2(53),
    ensures
        representable(m * pow2(t)),
{
    let v = m * pow2(t);
    let s = excess_bits(v);
    lemma_excess_bits_fit(v);
    lemma_pow2_pos(s);
    lemma_pow2_pos(t);
    lemma_pow2_adds(53, t);
    assert(v <= pow2(53) * pow2(t)) by (nonlinear_arith)
        requires
            m <= pow2(53),
            v == m * pow2(t),
    ;
    if s > 0 {
        if t + 1 < s {
            lemma_pow2_strictly_increases(53 + t, (52 + s) as nat);
            assert(false);
        }
        if t >= s {
            lemma_pow2_adds(s, (t - s) as nat);
            let k = m * pow2((t - s) as nat);
            assert(v == k * pow2(s)) by (nonlinear_arith)
                requires
                    v == m * pow2(t),
                    pow2(t) == pow2(s) * pow2((t - s) as nat),
                    k == m * pow2((t - s) as nat),
            ;
            lemma_fundamental_div_mod_converse(v as int, pow2(s) as int, k as int, 0);
        } else {
            assert(v == pow2((52 + s) as nat));
            lemma_pow2_adds(52, s);
            lemma_fundamental_div_mod_converse(v as int, pow2(s) as int, pow2(52) as int, 0);
        }
    } else {
        lemma2_to64();
    }
}

/// A ratio below `2^(53 + t)` is rounded by at most half of `2^t`.
pub proof fn lemma_nearest_error(n: nat, d: nat, t: nat)
    requires
        d > 0,
        n < d * pow2(53 + t),
    ensures
        2 * (nearest_binary(n, d) * d) <= 2 * n + d * pow2(t),
        2 * n <= 2 * (nearest_binary(n, d) * d) + d * pow2(t),
{
    let q = n / d;
    let s = excess_bits(q);
    let unit = pow2(s);
    lemma_div_below(n, d, pow2(53 + t));
    lemma_excess_bits_fit(q);
    if s > t {
        if 53 + t < 52 + s {
            lemma_pow2_strictly_increases(53 + t, (52 + s) as nat);
        }
        assert(false);
    }
    lemma_kept_bits(n, d);
    lemma_half_even_near(n, d * unit);
    let m = half_even(n, d * unit);
    assert(m * (d * unit) == (m * unit) * d) by (nonlinear_arith);
    if s < t {
        lemma_pow2_strictly_increases(s, t);
    }
    assert(d * unit <= d * pow2(t)) by (nonlinear_arith)
        requires
            unit <= pow2(t),
    ;
}

/// Where the result has more than 52 bits, rounding changes a ratio by no more
/// than one part in `2^53`.
pub proof fn lemma_nearest_relative_error(n: nat, d: nat)
    requires
        d > 0,
        nearest_binary(n, d) > pow2(52),
    ensures
        (pow2(53) - 1) * n <= pow2(53) * (nearest_binary(n, d) * d),
        pow2(53) * (nearest_binary(n, d) * d) <= (pow2(53) + 1) * n,
{
    let q = n / d;
    let s = excess_bits(q);
    let unit = pow2(s);
    let m = half_even(n, d * unit);
    let v = m * unit;
    lemma_kept_bits(n, d);
    lemma_half_even_near(n, d * unit);
    lemma_pow2_unfold(53);
    assert(m * (d * unit) == v * d) by (nonlinear_arith)
        requires
            v == m * unit,
    ;
    let h = pow2(52);
    assert(h * (d * unit) <= n) by {
        if s > 0 {
            lemma_excess_bits_fit(q);
            lemma_div_below(n, d, pow2((52 + s) as nat));
            lemma_pow2_adds(52, s);
            assert(d * (h * unit) == h * (d * unit)) by (nonlinear_arith);
        } else {
            lemma2_to64();
            assert(m * 1 == m && d * 1 == d);
            assert(h * d <= n) by (nonlinear_arith)
                requires
                    2 * (m * d) <= 2 * n + d,
                    m >= h + 1,
            ;
        }
    }
    let e = d * unit;
    assert((2 * h) * (v * d) <= (2 * h + 1) * n) by (nonlinear_arith)
        requires
            2 * (v * d) <= 2 * n + e,
            h * e <= n,
            h >= 0,
    {
        assert(h * (2 * (v * d)) <= h * (2 * n + e));
    }
    assert((2 * h - 1) * n <= (2 * h) * (v * d)) by (nonlinear_arith)
        requires
            2 * n <= 2 * (v * d) + e,
            h * e <= n,
            h >= 0,
    {
        assert(h * (2 * n) <= h * (2 * (v * d) + e));
    }
}

/// What `nearest_binary` gives, 53 bits hold.
pub proof fn lemma_nearest_representable(n: nat, d: nat)
    requires
        d > 0,
    ensures
        representable(nearest_binary(n, d)),
{
    lemma_kept_bits(n, d);
    let s = excess_bits(n / d);
    lemma_representable(half_even(n, d * pow2(s)), s);
}

/// Powers of a positive number are positive.
pub proof fn lemma_power_positive(b: nat, e: nat)
    requires
        b > 0,
    ensures
        power(b, e) > 0,
    decreases e,
{
    if e > 0 {
        lemma_power_positive(b, (e - 1) as nat);
        let p = power(b, (e - 1) as nat);
        assert(b * p > 0) by (nonlinear_arith)
            requires
                b > 0,
                p > 0,
        ;
    }
}

/// Exponents add.
pub proof fn lemma_power_adds(b: nat, e1: nat, e2: nat)
    ensures
        power(b, e1 + e2) == power(b, e1) * power(b, e2),
    decreases e1,
{
    if e1 > 0 {
        let f = (e1 - 1) as nat;
        lemma_power_adds(b, f, e2);
        let p = power(b, f);
        let q = power(b, e2);
        assert((b * p) * q == b * (p * q)) by (nonlinear_arith);
        assert(power(b, e1 + e2) == b * power(b, f + e2));
    } else {
        assert(1 * power(b, e2) == power(b, e2));
    }
}

/// Powers start at 1 and `b`, and multiply where exponents add.
pub proof fn law_powers_multiply(b: nat, e1: nat, e2: nat)
    ensures
        power(b, 0) == 1,
        power(b, 1) == b,
        power(b, e1 + e2) == power(b, e1) * power(b, e2),
{
    lemma_power_adds(b, e1, e2);
    reveal_with_fuel(power, 2);
    assert(power(b, 0) == 1);
    assert(b * 1 == b);
}

/// No integer is nearer to `n / d` than the one it is rounded to; where another
/// is as near, that one is odd.
pub proof fn law_no_integer_is_nearer(n: nat, d: nat, v: nat)
    requires
        d > 0,
    ensures
        abs(half_even(n, d) * d - n) <= abs(v * d - n),
        v != half_even(n, d) && abs(half_even(n, d) * d - n) == abs(v * d - n)
            ==> half_even(n, d) % 2 == 0,
{
    let h = half_even(n, d);
    lemma_half_even_near(n, d);
    if v > h {
        assert(h * d + d <= v * d) by (nonlinear_arith)
            requires
                h + 1 <= v,
        ;
    } else if v < h {
        assert(v * d + d <= h * d) by (nonlinear_arith)
            requires
                v + 1 <= h,
        ;
    }
}

/// A number is held by 53 bits exactly if it is some number of at most 53 bits
/// times a power of two: this is that number and the exponent.
pub proof fn law_representable_has_53_bits(v: nat) -> (r: (nat, nat))
    requires
        representable(v),
    ensures
        v == r.0 * pow2(r.1),
        r.0 < pow2(53),
        r.1 > 0 ==> pow2(52) <= r.0,
{
    let s = excess_bits(v);
    let p = pow2(s);
    let m = v / p;
    lemma_pow2_pos(s);
    lemma_excess_bits_fit(v);
    lemma_fundamental_div_mod(v as int, p as int);
    lemma_pow2_adds(53, s);
    lemma_pow2_adds(52, s);
    assert(p * m == m * p) by (nonlinear_arith);
    assert(m < pow2(53)) by (nonlinear_arith)
        requires
            m * p < pow2(53) * p,
            p > 0,
    ;
    if s > 0 {
        assert(pow2(52) <= m) by (nonlinear_arith)
            requires
                pow2(52) * p <= m * p,
                p > 0,
        ;
    }
    (m, s)
}

/// Whatever at most 53 bits times a power of two is, 53 bits hold it.
pub proof fn law_53_bits_are_representable(m: nat, t: nat)
    requires
        m <= pow2(53),
    ensures
        representable(m * pow2(t)),
{
    lemma_representable(m, t);
}

/// `n / d` is rounded to a number that 53 bits hold, and no other such number
/// is nearer; where another one is as near, the one chosen is the one that is
/// divisible by twice the gap between them.
pub proof fn law_no_number_is_nearer(n: nat, d: nat, w: nat)
    requires
        d > 0,
        representable(w),
    ensures
        representable(nearest_binary(n, d)),
        abs(nearest_binary(n, d) * d - n) <= abs(w * d - n),
        w != nearest_binary(n, d) && abs(nearest_binary(n, d) * d - n) == abs(w * d - n)
            ==> nearest_binary(n, d) % (2 * abs(w - nearest_binary(n, d))) == 0,
{
    let q = n / d;
    let s = excess_bits(q);
    let unit = pow2(s);
    let e = d * unit;
    let m = half_even(n, e);
    let r = m * unit;
    lemma_nearest_representable(n, d);
    lemma_kept_bits(n, d);
    lemma_pow2_pos(s);
    lemma_excess_bits_fit(q);
    assert(m * e == r * d) by (nonlinear_arith)
        requires
            e == d * unit,
            r == m * unit,
    ;
    let (a, t) = law_representable_has_53_bits(w);
    if t >= s {
        let k = a * pow2((t - s) as nat);
        lemma_pow2_adds((t - s) as nat, s);
        assert(w == k * unit) by (nonlinear_arith)
            requires
                w == a * pow2(t),
                k == a * pow2((t - s) as nat),
                pow2(t) == pow2((t - s) as nat) * unit,
        ;
        assert(k * e == w * d) by (nonlinear_arith)
            requires
                e == d * unit,
                w == k * unit,
        ;
        law_no_integer_is_nearer(n, e, k);
        if w != r && abs(r * d - n) == abs(w * d - n) {
            lemma_half_even_near(n, e);
            assert(k == m + 1 || m == k + 1) by {
                if k > m + 1 {
                    assert(m * e + 2 * e <= k * e) by (nonlinear_arith)
                        requires
                            m + 2 <= k,
                    ;
                } else if m > k + 1 {
                    assert(k * e + 2 * e <= m * e) by (nonlinear_arith)
                        requires
                            k + 2 <= m,
                    ;
                }
            }
            let h = m / 2;
            assert(abs(w - r) == unit) by (nonlinear_arith)
                requires
                    k == m + 1 || m == k + 1,
                    w == k * unit,
                    r == m * unit,
            ;
            assert(r == h * (2 * unit)) by (nonlinear_arith)
                requires
                    r == m * unit,
                    m == 2 * h,
            ;
            lemma_fundamental_div_mod_converse(r as int, (2 * unit) as int, h as int, 0);
        }
    } else {
        // Such a number is below the first one that loses bits.
        let b = pow2(52);
        let first = b * unit;
        lemma_pow2_adds(52, s);
        lemma_pow2_adds(53, t);
        lemma_pow2_pos(t);
        assert(w < pow2(53 + t)) by (nonlinear_arith)
            requires
                w == a * pow2(t),
                a < pow2(53),
                pow2(53 + t) == pow2(53) * pow2(t),
                pow2(t) > 0,
        ;
        if 53 + t < 52 + s {
            lemma_pow2_strictly_increases(53 + t, (52 + s) as nat);
        }
        lemma_div_below(n, d, first);
        law_no_integer_is_nearer(n, e, b);
        assert(b * e == d * first) by (nonlinear_arith)
            requires
                e == d * unit,
                first == b * unit,
        ;
        assert(w * d < d * first) by (nonlinear_arith)
            requires
                w < first,
                d > 0,
        ;
    }
}

} // verus!
