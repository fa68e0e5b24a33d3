//! Natural numbers of any size, as little-endian 32-bit limbs.

use vstd::arithmetic::power2::{lemma_pow2_adds, lemma_pow2_pos, pow2};
use vstd::prelude::*;

use crate::order::Order;

verus! {

/// The weight of limb `i`.
pub open spec fn weight(i: nat) -> nat {
    pow2(32 * i)
}

/// Limb `i`, with zeros beyond the end.
pub open spec fn limb(s: Seq<u32>, i: int) -> nat {
    if 0 <= i < s.len() {
        s[i] as nat
    } else {
        0
    }
}

/// The value of the `n` lowest limbs.
pub open spec fn low_value(s: Seq<u32>, n: nat) -> nat
    decreases n,
{
    if n == 0 {
        0
    } else {
        low_value(s, (n - 1) as nat) + limb(s, n - 1) * weight((n - 1) as nat)
    }
}

pub open spec fn value(s: Seq<u32>) -> nat {
    low_value(s, s.len())
}

proof fn lemma_weight_step(i: nat)
    ensures
        weight(i + 1) == 0x1_0000_0000 * weight(i),
        weight(i) > 0,
        weight(0) == 1,
{
    lemma_pow2_adds(32, 32 * i);
    lemma_pow2_pos(32 * i);
    vstd::arithmetic::power2::lemma2_to64();
}

proof fn lemma_low_value_prefix(s: Seq<u32>, t: Seq<u32>, n: nat)
    requires
        forall|i: int| 0 <= i < n ==> limb(s, i) == limb(t, i),
    ensures
        low_value(s, n) == low_value(t, n),
    decreases n,
{
    if n > 0 {
        lemma_low_value_prefix(s, t, (n - 1) as nat);
    }
}

proof fn lemma_low_value_beyond(s: Seq<u32>, n: nat)
    requires
        n >= s.len(),
    ensures
        low_value(s, n) == value(s),
    decreases n,
{
    if n > s.len() {
        lemma_low_value_beyond(s, (n - 1) as nat);
        assert(limb(s, n - 1) * weight((n - 1) as nat) == 0) by (nonlinear_arith)
            requires
                limb(s, n - 1) == 0,
        ;
    }
}

proof fn lemma_low_value_bound(s: Seq<u32>, n: nat)
    ensures
        low_value(s, n) < weight(n),
    decreases n,
{
    lemma_weight_step(0);
    if n > 0 {
        let k = (n - 1) as nat;
        lemma_low_value_bound(s, k);
        lemma_weight_step(k);
        let l = limb(s, k as int);
        let w = weight(k);
        assert(l * w + w <= 0x1_0000_0000 * w) by (nonlinear_arith)
            requires
                l + 1 <= 0x1_0000_0000,
        ;
    }
}

proof fn lemma_value_push(s: Seq<u32>, x: u32)
    ensures
        value(s.push(x)) == value(s) + x * weight(s.len()),
{
    lemma_low_value_prefix(s, s.push(x), s.len());
}

proof fn lemma_zero_limbs(s: Seq<u32>, z: Seq<u32>, n: nat)
    requires
        forall|i: int| 0 <= i < z.len() ==> z[i] == 0,
    ensures
        low_value(z + s, z.len() + n) == weight(z.len()) * low_value(s, n),
    decreases n,
{
    if n == 0 {
        lemma_low_value_zeros(z + s, z.len());
        assert(weight(z.len()) * 0 == 0);
    } else {
        let k = (n - 1) as nat;
        lemma_zero_limbs(s, z, k);
        lemma_pow2_adds(32 * z.len(), 32 * k);
        assert(limb(z + s, (z.len() + k) as int) == limb(s, k as int));
        let l = limb(s, k as int);
        assert(weight(z.len() + k) == weight(z.len()) * weight(k));
        let (a, b, v) = (weight(z.len()), weight(k), low_value(s, k));
        assert(a * v + l * (a * b) == a * (v + l * b)) by (nonlinear_arith);
        assert(32 * z.len() + 32 * k == 32 * (z.len() + k));
        assert(z.len() + n - 1 == z.len() + k);
    }
}

proof fn lemma_low_value_zeros(s: Seq<u32>, n: nat)
    requires
        forall|i: int| 0 <= i < n ==> limb(s, i) == 0,
    ensures
        low_value(s, n) == 0,
    decreases n,
{
    if n > 0 {
        lemma_low_value_zeros(s, (n - 1) as nat);
        assert(limb(s, n - 1) * weight((n - 1) as nat) == 0) by (nonlinear_arith)
            requires
                limb(s, n - 1) == 0,
        ;
    }
}

/// A natural number without an upper bound.
pub struct Natural {
    limbs: Vec<u32>,
}

impl View for Natural {
    type V = nat;

    closed spec fn view(&self) -> nat {
        value(self.limbs@)
    }
}

impl Natural {
    pub fn zero() -> (r: Self)
        ensures
            r@ == 0,
    {
        Natural { limbs: Vec::new() }
    }

    pub fn one() -> (r: Self)
        ensures
            r@ == 1,
    {
        let mut limbs: Vec<u32> = Vec::new();
        limbs.push(1);
        proof {
            lemma_value_push(Seq::empty(), 1);
            lemma_weight_step(0);
        }
        assert(limbs@ =~= Seq::<u32>::empty().push(1));
        Natural { limbs }
    }

    /// `self * k + c`.
    pub fn mul_add(&self, k: u64, c: u64) -> (r: Self)
        requires
            c <= k,
        ensures
            r@ == self@ * k + c,
    {
        let mut out: Vec<u32> = Vec::new();
        let mut carry: u64 = c;
        let ghost s = self.limbs@;
        proof {
            lemma_weight_step(0);
        }
        assert(low_value(s, 0) * k == 0) by (nonlinear_arith)
            requires
                low_value(s, 0) == 0,
        ;
        assert(c * weight(0) == c) by (nonlinear_arith)
            requires
                weight(0) == 1,
        ;
        for i in 0..self.limbs.len()
            invariant
                s == self.limbs@,
                out@.len() == i,
                carry <= k,
                value(out@) + carry * weight(i as nat) == low_value(s, i as nat) * k + c,
        {
            let l = self.limbs[i];
            assert(l * k + carry <= 0xffff_ffff * k + k) by (nonlinear_arith)
                requires
                    l <= 0xffff_ffff,
                    carry <= k,
            ;
            assert(l as u128 * k as u128 == l * k);
            let p: u128 = l as u128 * k as u128 + carry as u128;
            let low: u32 = (p % 0x1_0000_0000) as u32;
            let high: u64 = (p / 0x1_0000_0000) as u64;
            proof {
                lemma_value_push(out@, low);
                lemma_weight_step(i as nat);
                let w = weight(i as nat);
                let v = value(out@);
                let (kk, cc, ll, lo, hi) = (k as nat, carry as nat, l as nat, low as nat, high as nat);
                let lv = low_value(s, i as nat);
                assert(ll * kk + cc == lo + 0x1_0000_0000 * hi);
                assert((v + lo * w) + hi * (0x1_0000_0000 * w) == (lv + ll * w) * kk + c)
                    by (nonlinear_arith)
                    requires
                        ll * kk + cc == lo + 0x1_0000_0000 * hi,
                        v + cc * w == lv * kk + c,
                ;
            }
            out.push(low);
            carry = high;
        }
        let n = self.limbs.len();
        let c0: u32 = (carry % 0x1_0000_0000) as u32;
        let c1: u32 = (carry / 0x1_0000_0000) as u32;
        proof {
            lemma_value_push(out@, c0);
            lemma_value_push(out@.push(c0), c1);
            lemma_weight_step(n as nat);
            let w = weight(n as nat);
            let (cc, x0, x1) = (carry as nat, c0 as nat, c1 as nat);
            assert(x0 * w + x1 * (0x1_0000_0000 * w) == cc * w) by (nonlinear_arith)
                requires
                    cc == x0 + 0x1_0000_0000 * x1,
            ;
        }
        out.push(c0);
        if c1 != 0 {
            out.push(c1);
        }
        Natural { limbs: out }
    }

    /// `self * 2^n`.
    pub fn shift_left(&self, n: u32) -> (r: Self)
        ensures
            r@ == self@ * pow2(n as nat),
    {
        let words = n / 32;
        let bits = n % 32;
        let mut out: Vec<u32> = Vec::new();
        for i in 0..words
            invariant
                out@.len() == i,
                forall|j: int| 0 <= j < i ==> out@[j] == 0,
        {
            out.push(0);
        }
        let ghost z = out@;
        for i in 0..self.limbs.len()
            invariant
                out@ == z + self.limbs@.take(i as int),
        {
            out.push(self.limbs[i]);
            assert(self.limbs@.take(i + 1) =~= self.limbs@.take(i as int).push(
                self.limbs@[i as int],
            ));
        }
        assert(self.limbs@.take(self.limbs@.len() as int) =~= self.limbs@);
        let wide = Natural { limbs: out };
        proof {
            lemma_zero_limbs(self.limbs@, z, self.limbs@.len());
            lemma_pow2_adds(32 * words as nat, bits as nat);
            lemma_pow2_pos(bits as nat);
            assert(32 * words + bits == n);
        }
        let factor: u64 = 1u64 << bits;
        proof {
            assert(pow2(bits as nat) <= u64::MAX) by {
                vstd::arithmetic::power2::lemma_pow2_strictly_increases(bits as nat, 32);
                vstd::arithmetic::power2::lemma2_to64();
            }
            assert(1 * pow2(bits as nat) == pow2(bits as nat));
            vstd::bits::lemma_u64_shl_is_mul(1, bits as u64);
            assert(factor == pow2(bits as nat));
            let (a, b, v) = (pow2(32 * words as nat), pow2(bits as nat), self@);
            assert((a * v) * b == v * (a * b)) by (nonlinear_arith);
        }
        wide.mul_add(factor, 0)
    }

    /// Compares two numbers.
    pub fn order(&self, other: &Self) -> (r: Order)
        ensures
            r is Before <==> self@ < other@,
            r is Same <==> self@ == other@,
            r is After <==> self@ > other@,
    {
        let n = if self.limbs.len() < other.limbs.len() {
            other.limbs.len()
        } else {
            self.limbs.len()
        };
        let mut r = Order::Same;
        let ghost a = self.limbs@;
        let ghost b = other.limbs@;
        for i in 0..n
            invariant
                a == self.limbs@,
                b == other.limbs@,
                n >= a.len(),
                n >= b.len(),
                r is Before <==> low_value(a, i as nat) < low_value(b, i as nat),
                r is Same <==> low_value(a, i as nat) == low_value(b, i as nat),
        {
            let x: u32 = if i < self.limbs.len() {
                self.limbs[i]
            } else {
                0
            };
            let y: u32 = if i < other.limbs.len() {
                other.limbs[i]
            } else {
                0
            };
            proof {
                lemma_low_value_bound(a, i as nat);
                lemma_low_value_bound(b, i as nat);
                let w = weight(i as nat);
                let (xx, yy) = (x as nat, y as nat);
                if x < y {
                    assert(xx * w + w <= yy * w) by (nonlinear_arith)
                        requires
                            xx + 1 <= yy,
                    ;
                } else if y < x {
                    assert(yy * w + w <= xx * w) by (nonlinear_arith)
                        requires
                            yy + 1 <= xx,
                    ;
                }
            }
            if x < y {
                r = Order::Before;
            } else if y < x {
                r = Order::After;
            }
        }
        proof {
            lemma_low_value_beyond(a, n as nat);
            lemma_low_value_beyond(b, n as nat);
        }
        r
    }

    /// `self - other`.
    pub fn minus(&self, other: &Self) -> (r: Self)
        requires
            other@ <= self@,
        ensures
            r@ == self@ - other@,
    {
        let n = if self.limbs.len() < other.limbs.len() {
            other.limbs.len()
        } else {
            self.limbs.len()
        };
        let mut out: Vec<u32> = Vec::new();
        let mut borrow: u64 = 0;
        let ghost a = self.limbs@;
        let ghost b = other.limbs@;
        for i in 0..n
            invariant
                a == self.limbs@,
                b == other.limbs@,
                out@.len() == i,
                borrow <= 1,
                value(out@) + low_value(b, i as nat) == low_value(a, i as nat) + borrow * weight(
                    i as nat,
                ),
        {
            let x: u64 = if i < self.limbs.len() {
                self.limbs[i] as u64
            } else {
                0
            };
            let y: u64 = if i < other.limbs.len() {
                other.limbs[i] as u64
            } else {
                0
            };
            let t: u64 = x + 0x1_0000_0000 - y - borrow;
            let low: u32 = (t % 0x1_0000_0000) as u32;
            let next: u64 = if t < 0x1_0000_0000 {
                1
            } else {
                0
            };
            proof {
                lemma_value_push(out@, low);
                lemma_weight_step(i as nat);
                let w = weight(i as nat) as int;
                let (xx, yy, ll, bb, nn) = (x as int, y as int, low as int, borrow as int, next as int);
                let (v, av, bv) = (
                    value(out@) as int,
                    low_value(a, i as nat) as int,
                    low_value(b, i as nat) as int,
                );
                assert(ll + yy + bb == xx + 0x1_0000_0000 * nn);
                assert((v + ll * w) + (bv + yy * w) == (av + xx * w) + nn * (0x1_0000_0000 * w))
                    by (nonlinear_arith)
                    requires
                        ll + yy + bb == xx + 0x1_0000_0000 * nn,
                        v + bv == av + bb * w,
                ;
            }
            out.push(low);
            borrow = next;
        }
        proof {
            lemma_low_value_beyond(a, n as nat);
            lemma_low_value_beyond(b, n as nat);
            lemma_low_value_bound(out@, n as nat);
            let w = weight(n as nat);
            assert(borrow == 1 ==> borrow * w == w) by (nonlinear_arith);
            assert(borrow == 0 ==> borrow * w == 0) by (nonlinear_arith);
        }
        Natural { limbs: out }
    }
}

} // verus!
