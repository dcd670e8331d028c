//! Natural numbers of any size, with the few operations that exact rounding
//! needs.

use vstd::arithmetic::power2::{lemma2_to64, lemma_pow2_adds, lemma_pow2_pos, pow2};
use vstd::prelude::*;

verus! {

/// The value of the limbs of a number, the lowest first.
pub open spec fn limbs_value(limbs: Seq<u32>) -> nat
    decreases limbs.len(),
{
    if limbs.len() == 0 {
        0
    } else {
        limbs_value(limbs.drop_last()) + limbs.last() as nat * limb_weight(
            (limbs.len() - 1) as nat,
        )
    }
}

/// What the limb at index `i` counts.
pub open spec fn limb_weight(i: nat) -> nat {
    pow2(32 * i)
}

proof fn lemma_weight_step(i: nat)
    ensures
        limb_weight(0) == 1,
        limb_weight(i) > 0,
        limb_weight(i + 1) == 0x1_0000_0000 * limb_weight(i),
{
    lemma2_to64();
    lemma_pow2_pos(32 * i);
    lemma_pow2_adds(32, 32 * i);
}

proof fn lemma_value_take_step(limbs: Seq<u32>, i: int)
    requires
        0 <= i < limbs.len(),
    ensures
        limbs_value(limbs.take(i + 1)) == limbs_value(limbs.take(i)) + limbs[i] as nat
            * limb_weight(i as nat),
{
    assert(limbs.take(i + 1).drop_last() =~= limbs.take(i));
}

proof fn lemma_value_push(limbs: Seq<u32>, x: u32)
    ensures
        limbs_value(limbs.push(x)) == limbs_value(limbs) + x as nat * limb_weight(limbs.len()),
{
    assert(limbs.push(x).drop_last() =~= limbs);
}

proof fn lemma_value_bound(limbs: Seq<u32>)
    ensures
        limbs_value(limbs) < limb_weight(limbs.len()),
    decreases limbs.len(),
{
    lemma_weight_step(0);
    if limbs.len() > 0 {
        let n = (limbs.len() - 1) as nat;
        lemma_value_bound(limbs.drop_last());
        lemma_weight_step(n);
        let w = limb_weight(n);
        let top = limbs.last() as nat;
        assert(top * w + w <= 0x1_0000_0000 * w) by (nonlinear_arith)
            requires
                top < 0x1_0000_0000,
        ;
    }
}

/// A number splits at any limb into a low and a high part.
proof fn lemma_value_split(limbs: Seq<u32>, f: int)
    requires
        0 <= f <= limbs.len(),
    ensures
        limbs_value(limbs) == limbs_value(limbs.take(f)) + limb_weight(f as nat) * limbs_value(
            limbs.skip(f),
        ),
    decreases limbs.len(),
{
    if f == limbs.len() {
        assert(limbs.take(f) =~= limbs);
        assert(limbs_value(limbs.skip(f)) == 0);
        let w = limb_weight(f as nat);
        assert(w * 0 == 0) by (nonlinear_arith);
    } else {
        let rest = limbs.drop_last();
        let n = (limbs.len() - 1) as nat;
        lemma_value_split(rest, f);
        assert(rest.take(f) =~= limbs.take(f));
        assert(limbs.skip(f).drop_last() =~= rest.skip(f));
        let w = limb_weight(f as nat);
        let h = limb_weight((n - f) as nat);
        let top = limbs.last() as nat;
        lemma_pow2_adds((32 * f) as nat, (32 * (n - f)) as nat);
        assert(limb_weight(n) == w * h);
        assert(limbs.skip(f).last() == limbs.last());
        let low = limbs_value(rest.skip(f));
        assert(limbs_value(limbs.skip(f)) == low + top * h);
        assert(w * (low + top * h) == w * low + top * (w * h)) by (nonlinear_arith);
        assert(limbs_value(rest) == limbs_value(limbs.take(f)) + w * low);
        assert(limbs_value(limbs) == limbs_value(rest) + top * limb_weight(n));
    }
}

proof fn lemma_value_zero(limbs: Seq<u32>)
    ensures
        limbs_value(limbs) == 0 <==> forall|i: int| 0 <= i < limbs.len() ==> limbs[i] == 0,
    decreases limbs.len(),
{
    if limbs.len() > 0 {
        let n = (limbs.len() - 1) as nat;
        let w = limb_weight(n);
        let top = limbs.last() as nat;
        lemma_weight_step(n);
        lemma_value_zero(limbs.drop_last());
        assert(top * w == 0 <==> top == 0) by (nonlinear_arith)
            requires
                w > 0,
        ;
        if limbs_value(limbs) == 0 {
            assert forall|i: int| 0 <= i < limbs.len() implies limbs[i] == 0 by {
                if i < n {
                    assert(limbs.drop_last()[i] == 0);
                }
            }
        }
    }
}

/// A natural number, held in limbs of 32 bits.
pub struct BigNat {
    limbs: Vec<u32>,
}

impl View for BigNat {
    type V = nat;

    closed spec fn view(&self) -> nat {
        limbs_value(self.limbs@)
    }
}

impl BigNat {
    /// The number `x`.
    pub fn from_u128(x: u128) -> (r: BigNat)
        ensures
            r@ == x,
    {
        let mut limbs: Vec<u32> = Vec::new();
        let mut rest: u128 = x;
        proof {
            lemma_weight_step(0);
            assert(limbs@.len() == 0);
            assert(x as nat * limb_weight(0) == x);
        }
        while rest > 0
            invariant
                limbs_value(limbs@) + rest as nat * limb_weight(limbs@.len()) == x,
            decreases rest,
        {
            let limb: u32 = (rest % 0x1_0000_0000) as u32;
            let ghost before = limbs@;
            proof {
                let w = limb_weight(before.len());
                lemma_value_push(before, limb);
                lemma_weight_step(before.len());
                let high = rest as nat / 0x1_0000_0000;
                assert(rest as nat == high * 0x1_0000_0000 + limb as nat);
                assert((high * 0x1_0000_0000 + limb as nat) * w == high * (0x1_0000_0000 * w)
                    + limb as nat * w) by (nonlinear_arith);
            }
            limbs.push(limb);
            rest = rest / 0x1_0000_0000;
        }
        BigNat { limbs }
    }

    /// The number times `m`, plus `a`.
    pub fn times_plus(&self, m: u64, a: u64) -> (r: BigNat)
        ensures
            r@ == self@ * m + a,
    {
        let mut limbs: Vec<u32> = Vec::new();
        let mut carry: u128 = a as u128;
        let n: usize = self.limbs.len();
        let mut i: usize = 0;
        proof {
            lemma_weight_step(0);
            assert(limbs_value(self.limbs@.take(0)) == 0);
        }
        while i < n
            invariant
                i <= n == self.limbs@.len(),
                limbs@.len() == i,
                carry <= 0x1_0000_0000_0000_0000,
                limbs_value(limbs@) + carry as nat * limb_weight(i as nat) == limbs_value(
                    self.limbs@.take(i as int),
                ) * m + a,
            decreases n - i,
        {
            let limb: u32 = self.limbs[i];
            assert(limb as u128 * m as u128 <= 0xffff_ffff * 0xffff_ffff_ffff_ffff)
                by (nonlinear_arith)
                requires
                    limb <= 0xffff_ffff,
                    m <= 0xffff_ffff_ffff_ffff,
            ;
            let t: u128 = limb as u128 * m as u128 + carry;
            let low: u32 = (t % 0x1_0000_0000) as u32;
            let high: u128 = t / 0x1_0000_0000;
            proof {
                let w = limb_weight(i as nat);
                let done = limbs_value(self.limbs@.take(i as int));
                lemma_value_take_step(self.limbs@, i as int);
                lemma_value_push(limbs@, low);
                lemma_weight_step(i as nat);
                assert(t as nat == high as nat * 0x1_0000_0000 + low as nat);
                assert((high as nat * 0x1_0000_0000 + low as nat) * w == high as nat * (
                0x1_0000_0000 * w) + low as nat * w) by (nonlinear_arith);
                assert((limb as nat * m as nat + carry as nat) * w == (limb as nat * w) * m as nat
                    + carry as nat * w) by (nonlinear_arith);
                assert((done + limb as nat * w) * m as nat == done * m as nat + (limb as nat * w)
                    * m as nat) by (nonlinear_arith);
            }
            limbs.push(low);
            carry = high;
            i = i + 1;
        }
        assert(self.limbs@.take(n as int) =~= self.limbs@);
        let ghost total = limbs_value(self.limbs@) * m + a;
        while carry > 0
            invariant
                limbs_value(limbs@) + carry as nat * limb_weight(limbs@.len()) == total,
            decreases carry,
        {
            let low: u32 = (carry % 0x1_0000_0000) as u32;
            let high: u128 = carry / 0x1_0000_0000;
            proof {
                let w = limb_weight(limbs@.len());
                lemma_value_push(limbs@, low);
                lemma_weight_step(limbs@.len());
                assert(carry as nat == high as nat * 0x1_0000_0000 + low as nat);
                assert((high as nat * 0x1_0000_0000 + low as nat) * w == high as nat * (
                0x1_0000_0000 * w) + low as nat * w) by (nonlinear_arith);
            }
            limbs.push(low);
            carry = high;
        }
        BigNat { limbs }
    }

    /// The number shifted up by `count` limbs.
    pub fn shift_up(&self, count: u64) -> (r: BigNat)
        ensures
            r@ == self@ * pow2(32 * count as nat),
    {
        let mut limbs: Vec<u32> = Vec::new();
        let mut zeros: u64 = 0;
        while zeros < count
            invariant
                zeros <= count,
                limbs@.len() == zeros,
                forall|i: int| 0 <= i < limbs@.len() ==> limbs@[i] == 0,
            decreases count - zeros,
        {
            limbs.push(0);
            zeros = zeros + 1;
        }
        let ghost low = limbs@;
        let n: usize = self.limbs.len();
        let mut i: usize = 0;
        while i < n
            invariant
                i <= n == self.limbs@.len(),
                limbs@ == low + self.limbs@.take(i as int),
            decreases n - i,
        {
            assert(self.limbs@.take(i + 1) =~= self.limbs@.take(i as int).push(
                self.limbs@[i as int],
            ));
            limbs.push(self.limbs[i]);
            i = i + 1;
        }
        proof {
            assert(self.limbs@.take(n as int) =~= self.limbs@);
            lemma_value_split(limbs@, count as int);
            assert(limbs@.take(count as int) =~= low);
            assert(limbs@.skip(count as int) =~= self.limbs@);
            lemma_value_zero(low);
            assert(limb_weight(count as nat) * limbs_value(self.limbs@) == limbs_value(self.limbs@)
                * limb_weight(count as nat)) by (nonlinear_arith);
        }
        BigNat { limbs }
    }

    /// Whether the number is at most `other`.
    pub fn at_most(&self, other: &BigNat) -> (r: bool)
        ensures
            r == (self@ <= other@),
    {
        let n: usize = if self.limbs.len() < other.limbs.len() {
            other.limbs.len()
        } else {
            self.limbs.len()
        };
        let ghost a = self.limbs@;
        let ghost b = other.limbs@;
        let mut i: usize = n;
        proof {
            lemma_padded(a, n as int);
            lemma_padded(b, n as int);
        }
        while i > 0
            invariant
                i <= n,
                a == self.limbs@,
                b == other.limbs@,
                a.len() <= n,
                b.len() <= n,
                limbs_value(a) == limbs_value(padded(a, n as int)),
                limbs_value(b) == limbs_value(padded(b, n as int)),
                limbs_value(padded(a, n as int)) - limbs_value(padded(a, i as int)) == limbs_value(
                    padded(b, n as int),
                ) - limbs_value(padded(b, i as int)),
            decreases i,
        {
            i = i - 1;
            let x: u32 = if i < self.limbs.len() {
                self.limbs[i]
            } else {
                0
            };
            let y: u32 = if i < other.limbs.len() {
                other.limbs[i]
            } else {
                0
            };
            proof {
                let pa = padded(a, i + 1);
                let pb = padded(b, i + 1);
                assert(pa.drop_last() =~= padded(a, i as int));
                assert(pb.drop_last() =~= padded(b, i as int));
                assert(pa.last() == x);
                assert(pb.last() == y);
                lemma_value_bound(padded(a, i as int));
                lemma_value_bound(padded(b, i as int));
                let w = limb_weight(i as nat);
                if x < y {
                    assert(x as nat * w + w <= y as nat * w) by (nonlinear_arith)
                        requires
                            x + 1 <= y,
                    ;
                } else if y < x {
                    assert(y as nat * w + w <= x as nat * w) by (nonlinear_arith)
                        requires
                            y + 1 <= x,
                    ;
                }
            }
            if x < y {
                return true;
            }
            if y < x {
                return false;
            }
        }
        assert(padded(a, 0) =~= Seq::<u32>::empty());
        assert(padded(b, 0) =~= Seq::<u32>::empty());
        true
    }
}

/// The lowest `n` limbs, with zeros where there are fewer.
spec fn padded(limbs: Seq<u32>, n: int) -> Seq<u32> {
    Seq::new(
        n as nat,
        |i: int|
            if i < limbs.len() {
                limbs[i]
            } else {
                0
            },
    )
}

proof fn lemma_padded(limbs: Seq<u32>, n: int)
    requires
        limbs.len() <= n,
    ensures
        limbs_value(padded(limbs, n)) == limbs_value(limbs),
{
    let p = padded(limbs, n);
    let f = limbs.len() as int;
    lemma_value_split(p, f);
    assert(p.take(f) =~= limbs);
    lemma_value_zero(p.skip(f));
    assert(limb_weight(f as nat) * 0 == 0);
}

} // verus!
