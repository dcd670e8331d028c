//! Whole powers of double-precision numbers, by repeated squaring.

use crate::binary64::{finite_limit, multiplied, one, times, Magnitude};
use crate::rounding::{
    lemma_nearest_exact, lemma_nearest_monotone, lemma_nearest_relative_error,
    lemma_nearest_representable, lemma_power_adds, lemma_power_positive, lemma_representable,
    power, representable,
};
use vstd::arithmetic::power2::{lemma_pow2_pos, lemma_pow2_strictly_increases, pow2};
use vstd::prelude::*;

verus! {

/// `product * square^n`, in units: the exponent is taken apart into its bits,
/// the last one first, and every product on the way is rounded.
pub open spec fn powered(product: nat, square: nat, n: nat) -> nat
    decreases n,
{
    if n == 0 {
        product
    } else {
        powered(
            if n % 2 == 1 {
                times(product, square)
            } else {
                product
            },
            times(square, square),
            n / 2,
        )
    }
}

/// `base^n` in double precision, by repeated squaring; in units.
pub open spec fn to_power(base: nat, n: nat) -> nat {
    powered(one(), base, n)
}

/// Larger factors never have the smaller product.
pub proof fn lemma_times_monotone(a: nat, b: nat, c: nat, d: nat)
    requires
        a <= c,
        b <= d,
    ensures
        times(a, b) <= times(c, d),
{
    lemma_pow2_pos(1074);
    let u = one();
    assert((a * b) * u <= (c * d) * u) by (nonlinear_arith)
        requires
            a <= c,
            b <= d,
    {
        assert(a * b <= c * d);
    }
    lemma_nearest_monotone(a * b, u, c * d, u);
}

/// Multiplying by 1 changes nothing.
pub proof fn lemma_times_one(a: nat)
    requires
        representable(a),
    ensures
        times(a, one()) == a,
        times(one(), a) == a,
{
    lemma_pow2_pos(1074);
    lemma_nearest_exact(a, one());
    assert(one() * a == a * one()) by (nonlinear_arith);
}

/// 53 bits hold the number 1.
pub proof fn lemma_one_representable()
    ensures
        representable(one()),
{
    lemma_pow2_pos(53);
    lemma_representable(1, 1074);
}

/// 53 bits hold every product.
pub proof fn lemma_times_representable(a: nat, b: nat)
    ensures
        representable(times(a, b)),
{
    lemma_pow2_pos(1074);
    lemma_nearest_representable(a * b, one());
}

/// A larger product so far never ends in a smaller power.
proof fn lemma_powered_monotone(a: nat, b: nat, square: nat, n: nat)
    requires
        a <= b,
    ensures
        powered(a, square, n) <= powered(b, square, n),
    decreases n,
{
    if n > 0 {
        if n % 2 == 1 {
            lemma_times_monotone(a, square, b, square);
            lemma_powered_monotone(
                times(a, square),
                times(b, square),
                times(square, square),
                n / 2,
            );
        } else {
            lemma_powered_monotone(a, b, times(square, square), n / 2);
        }
    }
}

/// What is 1 or more does not shrink.
proof fn lemma_powered_grows(product: nat, square: nat, n: nat)
    requires
        one() <= product,
        one() <= square,
        representable(product),
        representable(square),
    ensures
        product <= powered(product, square, n),
        n > 0 ==> square <= powered(product, square, n),
    decreases n,
{
    if n > 0 {
        let next = times(square, square);
        lemma_times_one(square);
        lemma_times_one(product);
        lemma_times_monotone(square, one(), square, square);
        lemma_times_monotone(product, one(), product, square);
        lemma_times_monotone(one(), square, product, square);
        lemma_times_representable(square, square);
        lemma_times_representable(product, square);
        lemma_powered_grows(
            if n % 2 == 1 {
                times(product, square)
            } else {
                product
            },
            next,
            n / 2,
        );
    }
}

/// What is 1 or less does not grow.
proof fn lemma_powered_shrinks(product: nat, square: nat, n: nat)
    requires
        product <= one(),
        square <= one(),
        representable(product),
        representable(square),
    ensures
        powered(product, square, n) <= product,
        n > 0 ==> powered(product, square, n) <= square,
    decreases n,
{
    if n > 0 {
        let next = times(square, square);
        lemma_times_one(square);
        lemma_times_one(product);
        lemma_times_monotone(square, square, square, one());
        lemma_times_monotone(product, square, product, one());
        lemma_times_monotone(product, square, one(), square);
        lemma_times_representable(square, square);
        lemma_times_representable(product, square);
        lemma_powered_shrinks(
            if n % 2 == 1 {
                times(product, square)
            } else {
                product
            },
            next,
            n / 2,
        );
    }
}

/// One factor more than `n` of them, which come on top of a product of at most
/// one such factor, never makes the power smaller.
proof fn lemma_powered_step(product: nat, square: nat, n: nat)
    requires
        product <= square,
        one() <= square,
        representable(square),
    ensures
        powered(product, square, n) <= powered(one(), square, n + 1),
    decreases n,
{
    let next = times(square, square);
    lemma_one_representable();
    lemma_times_one(square);
    assert(powered(one(), square, n + 1) == powered(
        if (n + 1) % 2 == 1 {
            times(one(), square)
        } else {
            one()
        },
        next,
        (n + 1) / 2,
    ));
    if n % 2 == 1 {
        lemma_times_monotone(product, square, square, square);
        lemma_times_monotone(square, one(), square, square);
        lemma_times_representable(square, square);
        lemma_powered_step(times(product, square), next, n / 2);
        assert((n + 1) / 2 == n / 2 + 1);
    } else {
        assert((n + 1) / 2 == n / 2);
        lemma_powered_monotone(product, square, next, n / 2);
        if n == 0 {
            assert(powered(square, next, 0) == square);
        }
    }
}

/// Powers of a number of 1 or more never get smaller.
pub proof fn lemma_power_never_shrinks(base: nat, n: nat)
    requires
        one() <= base,
        representable(base),
    ensures
        to_power(base, n) <= to_power(base, n + 1),
{
    lemma_powered_step(one(), base, n);
}

/// A number to the power of `n`, in double precision; `None` where that is
/// infinite.
pub fn raised(base: &Magnitude, n: u32) -> (r: Option<Magnitude>)
    requires
        base.well_formed(),
        base@ < finite_limit(),
        representable(base@),
    ensures
        r is Some <==> to_power(base@, n as nat) < finite_limit(),
        r matches Some(m) ==> m@ == to_power(base@, n as nat) && m.well_formed(),
{
    let mut product: Magnitude = Magnitude { mantissa: 1, shift: 1074 };
    let mut square: Magnitude = *base;
    let mut left: u32 = n;
    let ghost result = to_power(base@, n as nat);
    proof {
        lemma_one_representable();
        lemma_limit();
        assert(product@ == one());
    }
    while left > 0
        invariant
            result == to_power(base@, n as nat),
            result == powered(product@, square@, left as nat),
            product.well_formed(),
            square.well_formed(),
            product@ < finite_limit(),
            square@ < finite_limit(),
            representable(product@),
            representable(square@),
            square@ >= one() ==> product@ >= one(),
        decreases left,
    {
        proof {
            lemma_times_one(square@);
            lemma_times_one(product@);
            lemma_times_representable(square@, square@);
            lemma_times_representable(product@, square@);
            if square@ >= one() {
                lemma_times_monotone(square@, one(), square@, square@);
                lemma_times_monotone(one(), square@, product@, square@);
                lemma_times_monotone(product@, one(), product@, square@);
            } else {
                lemma_times_monotone(square@, square@, square@, one());
                lemma_times_monotone(product@, square@, product@, one());
            }
        }
        if left % 2 == 1 {
            match multiplied(&product, &square) {
                Some(m) => {
                    product = m;
                },
                None => {
                    proof {
                        lemma_powered_grows(
                            times(product@, square@),
                            times(square@, square@),
                            (left / 2) as nat,
                        );
                    }
                    return None;
                },
            }
        }
        left = left / 2;
        if left > 0 {
            match multiplied(&square, &square) {
                Some(m) => {
                    square = m;
                },
                None => {
                    proof {
                        lemma_powered_grows(product@, times(square@, square@), left as nat);
                    }
                    return None;
                },
            }
        } else {
            assert(powered(product@, times(square@, square@), 0) == product@);
            assert(powered(product@, square@, 0) == product@);
        }
    }
    Some(product)
}

/// The number 1 is finite.
proof fn lemma_limit()
    ensures
        one() < finite_limit(),
{
    lemma_pow2_strictly_increases(1074, 2098);
}

/// How much a number that was rounded `roundings` times can be off: by one part
/// in `2^53` each time, from `base^n`. All in units.
pub open spec fn close_to_power(v: nat, base: nat, n: nat, roundings: nat) -> bool {
    let exact = power(base, n) * one();
    let found = v * power(one(), n);
    &&& power((pow2(53) - 1) as nat, roundings) * exact <= power(pow2(53), roundings) * found
    &&& power(pow2(53), roundings) * found <= power(pow2(53) + 1, roundings) * exact
}

/// The product of two such numbers is rounded once more.
proof fn lemma_close_product(
    x: nat,
    j: nat,
    r1: nat,
    y: nat,
    k: nat,
    r2: nat,
    base: nat,
)
    requires
        close_to_power(x, base, j, r1),
        close_to_power(y, base, k, r2),
        times(x, y) > pow2(52),
    ensures
        close_to_power(times(x, y), base, j + k, r1 + r2 + 1),
{
    let u = one();
    let e = pow2(53);
    let z = times(x, y);
    lemma_pow2_pos(1074);
    lemma_pow2_pos(53);
    lemma_nearest_relative_error(x * y, u);
    lemma_power_adds(base, j, k);
    lemma_power_adds(u, j, k);
    lemma_power_adds((e - 1) as nat, r1, r2);
    lemma_power_adds(e, r1, r2);
    lemma_power_adds(e + 1, r1, r2);
    lemma_close_below(
        power((e - 1) as nat, r1),
        power(e, r1),
        power(base, j),
        power(u, j),
        x,
        power((e - 1) as nat, r2),
        power(e, r2),
        power(base, k),
        power(u, k),
        y,
        (e - 1) as nat,
        e,
        z,
        u,
    );
    lemma_close_above(
        power(e, r1),
        power(e + 1, r1),
        power(base, j),
        power(u, j),
        x,
        power(e, r2),
        power(e + 1, r2),
        power(base, k),
        power(u, k),
        y,
        e,
        e + 1,
        z,
        u,
    );
    assert(power((e - 1) as nat, r1 + r2 + 1) == (e - 1) as nat * power((e - 1) as nat, r1 + r2));
    assert(power(e, r1 + r2 + 1) == e * power(e, r1 + r2));
    assert(power(e + 1, r1 + r2 + 1) == (e + 1) * power(e + 1, r1 + r2));
}

proof fn lemma_product_of_products(a: nat, b: nat, c: nat, d: nat)
    ensures
        (a * b) * (c * d) == (a * c) * (b * d),
{
    assert((a * b) * (c * d) == (a * c) * (b * d)) by (nonlinear_arith);
}

/// The lower bounds of two factors and of the rounding give that of the product.
proof fn lemma_close_below(
    a1: nat,
    b1: nat,
    p1: nat,
    q1: nat,
    x: nat,
    a2: nat,
    b2: nat,
    p2: nat,
    q2: nat,
    y: nat,
    a3: nat,
    b3: nat,
    z: nat,
    u: nat,
)
    requires
        a1 * (p1 * u) <= b1 * (x * q1),
        a2 * (p2 * u) <= b2 * (y * q2),
        a3 * (x * y) <= b3 * (z * u),
        u > 0,
    ensures
        (a3 * (a1 * a2)) * ((p1 * p2) * u) <= (b3 * (b1 * b2)) * (z * (q1 * q2)),
{
    let l1 = a1 * (p1 * u);
    let l2 = a2 * (p2 * u);
    let h1 = b1 * (x * q1);
    let h2 = b2 * (y * q2);
    assert(l1 * l2 <= h1 * h2) by (nonlinear_arith)
        requires
            l1 <= h1,
            l2 <= h2,
    ;
    let c = (b1 * b2) * (q1 * q2);
    lemma_product_of_products(b1, x * q1, b2, y * q2);
    lemma_product_of_products(x, q1, y, q2);
    assert((b1 * b2) * ((x * y) * (q1 * q2)) == c * (x * y)) by (nonlinear_arith)
        requires
            c == (b1 * b2) * (q1 * q2),
    ;
    assert(a3 * (c * (x * y)) <= c * (b3 * (z * u))) by (nonlinear_arith)
        requires
            a3 * (x * y) <= b3 * (z * u),
    {
        assert(c * (a3 * (x * y)) <= c * (b3 * (z * u)));
    }
    assert(a3 * (l1 * l2) <= a3 * (h1 * h2)) by (nonlinear_arith)
        requires
            l1 * l2 <= h1 * h2,
    ;
    let left = (a3 * (a1 * a2)) * ((p1 * p2) * u);
    let right = (b3 * (b1 * b2)) * (z * (q1 * q2));
    let g = (p1 * p2) * u;
    lemma_product_of_products(a1, p1 * u, a2, p2 * u);
    assert((p1 * u) * (p2 * u) == g * u) by (nonlinear_arith)
        requires
            g == (p1 * p2) * u,
    ;
    assert(a3 * ((a1 * a2) * (g * u)) == ((a3 * (a1 * a2)) * g) * u) by (nonlinear_arith);
    assert(c * (b3 * (z * u)) == right * u) by (nonlinear_arith)
        requires
            c == (b1 * b2) * (q1 * q2),
            right == (b3 * (b1 * b2)) * (z * (q1 * q2)),
    ;
    assert(left <= right) by (nonlinear_arith)
        requires
            left * u <= right * u,
            u > 0,
    ;
}

/// The upper bounds of two factors and of the rounding give that of the product.
proof fn lemma_close_above(
    a1: nat,
    b1: nat,
    p1: nat,
    q1: nat,
    x: nat,
    a2: nat,
    b2: nat,
    p2: nat,
    q2: nat,
    y: nat,
    a3: nat,
    b3: nat,
    z: nat,
    u: nat,
)
    requires
        a1 * (x * q1) <= b1 * (p1 * u),
        a2 * (y * q2) <= b2 * (p2 * u),
        a3 * (z * u) <= b3 * (x * y),
        u > 0,
    ensures
        (a3 * (a1 * a2)) * (z * (q1 * q2)) <= (b3 * (b1 * b2)) * ((p1 * p2) * u),
{
    let l1 = a1 * (x * q1);
    let l2 = a2 * (y * q2);
    let h1 = b1 * (p1 * u);
    let h2 = b2 * (p2 * u);
    assert(l1 * l2 <= h1 * h2) by (nonlinear_arith)
        requires
            l1 <= h1,
            l2 <= h2,
    ;
    let c = (a1 * a2) * (q1 * q2);
    lemma_product_of_products(a1, x * q1, a2, y * q2);
    lemma_product_of_products(x, q1, y, q2);
    assert((a1 * a2) * ((x * y) * (q1 * q2)) == c * (x * y)) by (nonlinear_arith)
        requires
            c == (a1 * a2) * (q1 * q2),
    ;
    assert(c * (a3 * (z * u)) <= b3 * (c * (x * y))) by (nonlinear_arith)
        requires
            a3 * (z * u) <= b3 * (x * y),
    {
        assert(c * (a3 * (z * u)) <= c * (b3 * (x * y)));
    }
    assert(b3 * (l1 * l2) <= b3 * (h1 * h2)) by (nonlinear_arith)
        requires
            l1 * l2 <= h1 * h2,
    ;
    let left = (a3 * (a1 * a2)) * (z * (q1 * q2));
    let right = (b3 * (b1 * b2)) * ((p1 * p2) * u);
    assert(c * (a3 * (z * u)) == left * u) by (nonlinear_arith)
        requires
            c == (a1 * a2) * (q1 * q2),
            left == (a3 * (a1 * a2)) * (z * (q1 * q2)),
    ;
    let g = (p1 * p2) * u;
    lemma_product_of_products(b1, p1 * u, b2, p2 * u);
    assert((p1 * u) * (p2 * u) == g * u) by (nonlinear_arith)
        requires
            g == (p1 * p2) * u,
    ;
    assert(b3 * ((b1 * b2) * (g * u)) == ((b3 * (b1 * b2)) * g) * u) by (nonlinear_arith);
    assert(left <= right) by (nonlinear_arith)
        requires
            left * u <= right * u,
            u > 0,
    ;
}

/// Whether two numbers lie on the same side of 1.
spec fn same_side(a: nat, b: nat) -> bool {
    (a <= one() && b <= one()) || (one() <= a && one() <= b)
}

/// A product of `done` factors and a square of `width` of them, each rounded
/// less often than it has factors, end in a power that is as close.
proof fn lemma_powered_close(
    product: nat,
    square: nat,
    n: nat,
    base: nat,
    done: nat,
    width: nat,
)
    requires
        width > 0,
        representable(product),
        representable(square),
        same_side(product, square),
        close_to_power(product, base, done, done),
        close_to_power(square, base, width, (width - 1) as nat),
        powered(product, square, n) > pow2(52),
    ensures
        close_to_power(
            powered(product, square, n),
            base,
            done + width * n,
            done + width * n,
        ),
    decreases n,
{
    if n == 0 {
        assert(width * 0 == 0);
    } else {
        let next = times(square, square);
        let further = if n % 2 == 1 {
            times(product, square)
        } else {
            product
        };
        let half = n / 2;
        lemma_times_one(square);
        lemma_times_one(product);
        lemma_times_representable(square, square);
        lemma_times_representable(product, square);
        lemma_pow2_below_one();
        if one() <= square && one() <= product {
            lemma_times_monotone(square, one(), square, square);
            lemma_times_monotone(product, one(), product, square);
            lemma_times_monotone(one(), square, product, square);
        } else {
            lemma_times_monotone(square, square, square, one());
            lemma_times_monotone(product, square, product, one());
            lemma_powered_shrinks(further, next, half);
        }
        if n % 2 == 1 {
            lemma_close_product(
                product,
                done,
                done,
                square,
                width,
                (width - 1) as nat,
                base,
            );
            assert(done + width * n == (done + width) + (2 * width) * half) by (nonlinear_arith)
                requires
                    n == 2 * half + 1,
            ;
        } else {
            assert(done + width * n == done + (2 * width) * half) by (nonlinear_arith)
                requires
                    n == 2 * half,
            ;
        }
        if half > 0 {
            lemma_close_product(
                square,
                width,
                (width - 1) as nat,
                square,
                width,
                (width - 1) as nat,
                base,
            );
            lemma_powered_close(
                further,
                next,
                half,
                base,
                if n % 2 == 1 {
                    done + width
                } else {
                    done
                },
                2 * width,
            );
        } else {
            assert(powered(further, next, 0) == further);
            assert((2 * width) * 0 == 0);
        }
    }
}

/// The smallest number that has all 53 bits is less than 1.
proof fn lemma_pow2_below_one()
    ensures
        pow2(52) < one(),
{
    lemma_pow2_strictly_increases(52, 1074);
}

/// A power is off by at most one part in `2^53` for each of its factors, where
/// it has all 53 bits.
pub proof fn lemma_power_is_close(base: nat, n: nat)
    requires
        representable(base),
        to_power(base, n) > pow2(52),
    ensures
        close_to_power(to_power(base, n), base, n, n),
{
    let u = one();
    lemma_one_representable();
    reveal_with_fuel(power, 2);
    assert(power(base, 0) == 1 && power(u, 0) == 1);
    assert(power(pow2(53), 0) == 1 && power(pow2(53) + 1, 0) == 1);
    assert(power((pow2(53) - 1) as nat, 0) == 1);
    assert(power(base, 1) == base && power(u, 1) == u) by {
        assert(base * 1 == base && u * 1 == u);
    }
    assert(1 * u == u && 1 * (1 * u) == u && u * 1 == u && 1 * (u * 1) == u);
    assert(1 * (base * u) == base * u);
    lemma_powered_close(u, base, n, base, 0, 1);
    assert(1 * n == n);
}

/// Whether `powers(k)` is exactly `base^k` for every `k` up to `n`, and 53 bits
/// hold it. All in units.
pub open spec fn are_exact_powers(powers: spec_fn(nat) -> nat, base: nat, n: nat) -> bool {
    forall|k: nat|
        k <= n ==> {
            &&& representable(#[trigger] powers(k))
            &&& powers(k) * power(one(), k) == power(base, k) * one()
        }
}

/// Where 53 bits hold both factors and the product, it is not rounded.
proof fn lemma_exact_product(powers: spec_fn(nat) -> nat, base: nat, n: nat, i: nat, j: nat)
    requires
        are_exact_powers(powers, base, n),
        i + j <= n,
    ensures
        times(powers(i), powers(j)) == powers(i + j),
{
    let u = one();
    lemma_pow2_pos(1074);
    lemma_power_adds(u, i, j);
    lemma_power_adds(base, i, j);
    lemma_power_positive(u, i);
    lemma_power_positive(u, j);
    let a = powers(i);
    let b = powers(j);
    let c = powers(i + j);
    let p = power(u, i);
    let q = power(u, j);
    let s = power(base, i);
    let t = power(base, j);
    assert(a * p == s * u);
    assert(b * q == t * u);
    assert(c * (p * q) == (s * t) * u);
    assert((a * b) * (p * q) == (c * u) * (p * q)) by (nonlinear_arith)
        requires
            a * p == s * u,
            b * q == t * u,
            c * (p * q) == (s * t) * u,
    {
        assert((a * p) * (b * q) == (s * u) * (t * u));
        assert((c * (p * q)) * u == ((s * t) * u) * u);
    }
    assert(a * b == c * u) by (nonlinear_arith)
        requires
            (a * b) * (p * q) == (c * u) * (p * q),
            p > 0,
            q > 0,
    {
        assert(p * q > 0);
    }
    lemma_nearest_exact(c, u);
}

proof fn lemma_powered_exact(
    powers: spec_fn(nat) -> nat,
    base: nat,
    limit: nat,
    done: nat,
    width: nat,
    n: nat,
)
    requires
        are_exact_powers(powers, base, limit),
        done + width * n <= limit,
    ensures
        powered(powers(done), powers(width), n) == powers(done + width * n),
    decreases n,
{
    if n == 0 {
        assert(width * 0 == 0);
    } else {
        let half = n / 2;
        if n % 2 == 1 {
            assert(done + width * n == (done + width) + (2 * width) * half) by (nonlinear_arith)
                requires
                    n == 2 * half + 1,
            ;
            assert((2 * width) * half >= 0) by (nonlinear_arith);
            lemma_exact_product(powers, base, limit, done, width);
        } else {
            assert(done + width * n == done + (2 * width) * half) by (nonlinear_arith)
                requires
                    n == 2 * half,
            ;
        }
        let further = if n % 2 == 1 {
            done + width
        } else {
            done
        };
        if half > 0 {
            assert((2 * width) * half >= 2 * width) by (nonlinear_arith)
                requires
                    half >= 1,
            ;
            lemma_exact_product(powers, base, limit, width, width);
            lemma_powered_exact(powers, base, limit, further, 2 * width, half);
        } else {
            assert((2 * width) * 0 == 0);
            assert(powered(powers(further), times(powers(width), powers(width)), 0) == powers(
                further,
            ));
        }
    }
}

/// Where 53 bits hold every power on the way, the last one is exact.
pub proof fn lemma_exact_power(powers: spec_fn(nat) -> nat, base: nat, n: nat)
    requires
        are_exact_powers(powers, base, n),
    ensures
        to_power(base, n) == powers(n),
{
    let u = one();
    reveal_with_fuel(power, 2);
    assert(power(base, 0) == 1 && power(u, 0) == 1);
    assert(powers(0) == u) by {
        assert(powers(0) * power(u, 0) == power(base, 0) * u);
        assert(powers(0) * 1 == powers(0) && 1 * u == u);
    }
    if n > 0 {
        lemma_pow2_pos(1074);
        assert(power(base, 1) == base && power(u, 1) == u) by {
            assert(base * 1 == base && u * 1 == u);
        }
        assert(powers(1) * power(u, 1) == power(base, 1) * u);
        assert(powers(1) == base) by (nonlinear_arith)
            requires
                powers(1) * u == base * u,
                u > 0,
        ;
        assert(1 * n == n);
        lemma_powered_exact(powers, base, n, 0, 1, n);
    }
}

/// A power is taken from the bits of its exponent: nothing is left of an
/// exponent of zero; twice an exponent is one exponent of the square; and an odd
/// exponent takes one factor more, before that.
pub proof fn law_powers_are_taken_by_squaring(product: nat, square: nat, n: nat, base: nat)
    ensures
        powered(product, square, 0) == product,
        powered(product, square, 2 * n) == powered(product, times(square, square), n),
        powered(product, square, 2 * n + 1) == powered(
            times(product, square),
            times(square, square),
            n,
        ),
        to_power(base, n) == powered(pow2(1074), base, n),
{
    assert((2 * n) / 2 == n && (2 * n) % 2 == 0);
    assert((2 * n + 1) / 2 == n && (2 * n + 1) % 2 == 1);
    if n == 0 {
        assert(powered(product, times(square, square), 0) == product);
    }
}

} // verus!
