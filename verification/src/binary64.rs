//! IEEE 754 binary64 numbers as 64-bit patterns: the value of a pattern and the
//! pattern nearest to a rational.

use vstd::arithmetic::power::{lemma_pow_adds, lemma_pow_positive, pow};
use vstd::arithmetic::power2::{lemma_pow2_adds, lemma_pow2_pos, pow2};
use vstd::prelude::*;

use crate::natural::Natural;
use crate::order::Order;

verus! {

/// The pattern of positive infinity, which follows the largest finite pattern.
pub const INFINITY: u64 = 0x7ff0_0000_0000_0000;

/// The pattern of the quiet not-a-number.
pub const NAN: u64 = 0x7ff8_0000_0000_0000;

/// The sign bit.
pub const SIGN: u64 = 0x8000_0000_0000_0000;

/// The value of a non-negative pattern, in units of 2^-1074. Infinity stands
/// for 2^1024, the value at which rounding overflows to it.
pub open spec fn magnitude(b: nat) -> nat {
    let e = b / 0x10_0000_0000_0000;
    let f = b % 0x10_0000_0000_0000;
    if e == 0 {
        f
    } else {
        (f + 0x10_0000_0000_0000) * pow2((e - 1) as nat)
    }
}

/// The pattern is not that of a number.
pub open spec fn is_nan(bits: u64) -> bool {
    bits % SIGN > INFINITY
}

/// The patterns denote the same number: no not-a-number equals anything, and the
/// two zeros are equal.
pub open spec fn same_number(a: u64, b: u64) -> bool {
    !is_nan(a) && !is_nan(b) && (a == b || (a % SIGN == 0 && b % SIGN == 0))
}

/// Whether the patterns denote the same number.
pub fn number_eq(a: u64, b: u64) -> (r: bool)
    ensures
        r == same_number(a, b),
{
    let (m, n) = (a % SIGN, b % SIGN);
    m <= INFINITY && n <= INFINITY && (a == b || (m == 0 && n == 0))
}

/// The distance from the value of a pattern to that of the next one.
pub open spec fn gap(b: nat) -> nat {
    let e = b / 0x10_0000_0000_0000;
    pow2(if e == 0 {
        0
    } else {
        (e - 1) as nat
    })
}

/// How far the value of pattern `b` is from `n / m`, in units of 2^-1074 / m.
pub open spec fn miss(n: nat, m: nat, b: nat) -> nat {
    let x = n * pow2(1074);
    let y = magnitude(b) * m;
    if x <= y {
        (y - x) as nat
    } else {
        (x - y) as nat
    }
}

/// Pattern `b` is the nearest to `n / m`, and the even one of two nearest.
pub open spec fn nearest(n: nat, m: nat, b: nat) -> bool {
    &&& b <= INFINITY
    &&& forall|c: nat|
        c <= INFINITY && c != b ==> miss(n, m, b) < #[trigger] miss(n, m, c) || (miss(n, m, b)
            == miss(n, m, c) && b % 2 == 0)
}

/// The non-negative pattern nearest to `n / m`, ties to even.
pub open spec fn round(n: nat, m: nat) -> nat {
    choose|b: nat| nearest(n, m, b)
}

pub open spec fn ten(k: nat) -> nat {
    pow(10, k) as nat
}

/// The numerator of `d * 10^p`.
pub open spec fn num(d: nat, p: int) -> nat {
    if p >= 0 {
        d * ten(p as nat)
    } else {
        d
    }
}

/// The denominator of `d * 10^p`.
pub open spec fn den(p: int) -> nat {
    if p >= 0 {
        1
    } else {
        ten((-p) as nat)
    }
}

pub proof fn lemma_ten(k: nat)
    ensures
        ten(k) == pow(10, k),
        ten(k) > 0,
        ten(0) == 1,
        ten(k + 1) == 10 * ten(k),
{
    reveal(pow);
    lemma_pow_positive(10, k);
    lemma_pow_positive(10, k + 1);
}

pub proof fn lemma_ten_adds(a: nat, b: nat)
    ensures
        ten(a + b) == ten(a) * ten(b),
{
    lemma_pow_adds(10, a, b);
    lemma_ten(a);
    lemma_ten(b);
    lemma_ten(a + b);
}

pub proof fn lemma_ten_exceeds_pow2(k: nat)
    ensures
        ten(k) >= pow2(3 * k),
    decreases k,
{
    vstd::arithmetic::power2::lemma2_to64();
    lemma_ten(0);
    if k > 0 {
        let j = (k - 1) as nat;
        lemma_ten_exceeds_pow2(j);
        lemma_ten(j);
        lemma_pow2_adds(3, 3 * j);
        lemma_pow2_pos(3 * j);
    }
}

pub proof fn lemma_gap(b: nat)
    ensures
        magnitude(b + 1) == magnitude(b) + gap(b),
        gap(b) > 0,
{
    let p: nat = 0x10_0000_0000_0000;
    let e = b / p;
    let f = b % p;
    vstd::arithmetic::power2::lemma2_to64();
    if e > 0 {
        lemma_pow2_pos((e - 1) as nat);
    }
    if f + 1 < p {
        assert((b + 1) / p == e && (b + 1) % p == f + 1);
        if e > 0 {
            let g = pow2((e - 1) as nat);
            assert((f + 1 + p) * g == (f + p) * g + g) by (nonlinear_arith);
        }
    } else {
        assert((b + 1) / p == e + 1 && (b + 1) % p == 0);
        if e > 0 {
            let g = pow2((e - 1) as nat);
            lemma_pow2_adds(1, (e - 1) as nat);
            assert(pow2(e) == 2 * g);
            assert(magnitude(b + 1) == p * (2 * g));
            assert(p * (2 * g) == (f + p) * g + g) by (nonlinear_arith)
                requires
                    f + 1 == p,
            ;
        } else {
            let one = pow2(0);
            assert(p * one == p) by (nonlinear_arith)
                requires
                    one == 1,
            ;
            assert(magnitude(b + 1) == p * one);
        }
    }
}

pub proof fn lemma_magnitude_increases(a: nat, b: nat)
    requires
        a < b,
    ensures
        magnitude(a) < magnitude(b),
    decreases b,
{
    lemma_gap((b - 1) as nat);
    if a < b - 1 {
        lemma_magnitude_increases(a, (b - 1) as nat);
    }
}

proof fn lemma_times_increases(a: nat, b: nat, m: nat)
    requires
        a < b,
        m > 0,
    ensures
        magnitude(a) * m < magnitude(b) * m,
{
    lemma_magnitude_increases(a, b);
    let (x, y) = (magnitude(a), magnitude(b));
    assert(x * m < y * m) by (nonlinear_arith)
        requires
            x < y,
            m > 0,
    ;
}

/// Within one cell of the patterns, the halfway point decides.
pub proof fn lemma_nearest_in_cell(n: nat, m: nat, b: nat)
    requires
        m > 0,
        b < INFINITY,
        magnitude(b) * m <= n * pow2(1074) <= magnitude(b + 1) * m,
    ensures
        2 * (n * pow2(1074)) < magnitude(b) * m + magnitude(b + 1) * m ==> nearest(n, m, b),
        2 * (n * pow2(1074)) > magnitude(b) * m + magnitude(b + 1) * m ==> nearest(n, m, b + 1),
        2 * (n * pow2(1074)) == magnitude(b) * m + magnitude(b + 1) * m ==> nearest(
            n,
            m,
            if b % 2 == 0 {
                b
            } else {
                b + 1
            },
        ),
{
    let x = n * pow2(1074);
    assert forall|c: nat| c < b implies miss(n, m, b) < #[trigger] miss(n, m, c) by {
        lemma_times_increases(c, b, m);
    }
    assert forall|c: nat| c > b + 1 implies miss(n, m, b + 1) < #[trigger] miss(n, m, c) by {
        lemma_times_increases(b + 1, c, m);
    }
    let near = if 2 * x < magnitude(b) * m + magnitude(b + 1) * m {
        b
    } else if 2 * x > magnitude(b) * m + magnitude(b + 1) * m {
        b + 1
    } else if b % 2 == 0 {
        b
    } else {
        b + 1
    };
    assert forall|c: nat| c <= INFINITY && c != near implies miss(n, m, near) < #[trigger] miss(
        n,
        m,
        c,
    ) || (miss(n, m, near) == miss(n, m, c) && near % 2 == 0) by {
        assert(miss(n, m, b) + miss(n, m, b + 1) == magnitude(b + 1) * m - magnitude(b) * m);
        if c < b {
            assert(miss(n, m, b) < miss(n, m, c));
        } else if c > b + 1 {
            assert(miss(n, m, b + 1) < miss(n, m, c));
        }
    }
}

pub proof fn lemma_nearest_infinity(n: nat, m: nat)
    requires
        m > 0,
        magnitude(INFINITY as nat) * m <= n * pow2(1074),
    ensures
        nearest(n, m, INFINITY as nat),
{
    assert forall|c: nat| c < INFINITY implies miss(n, m, INFINITY as nat) < #[trigger] miss(
        n,
        m,
        c,
    ) by {
        lemma_times_increases(c, INFINITY as nat, m);
    }
}

pub proof fn lemma_nearest_unique(n: nat, m: nat, a: nat, b: nat)
    requires
        m > 0,
        nearest(n, m, a),
        nearest(n, m, b),
    ensures
        a == b,
{
    if a != b {
        let (low, high) = if a < b {
            (a, b)
        } else {
            (b, a)
        };
        assert(miss(n, m, low) <= miss(n, m, high));
        assert(miss(n, m, high) <= miss(n, m, low));
        lemma_times_increases(low, low + 1, m);
        if low + 1 < high {
            lemma_times_increases(low + 1, high, m);
        }
        assert(miss(n, m, low + 1) >= miss(n, m, low));
    }
}

pub proof fn lemma_round(n: nat, m: nat, b: nat)
    requires
        m > 0,
        nearest(n, m, b),
    ensures
        round(n, m) == b,
{
    lemma_nearest_unique(n, m, round(n, m), b);
}

/// Below the value of a pattern there is a pattern whose value and that of the
/// next one enclose the ratio.
proof fn lemma_cell(n: nat, m: nat, b: nat) -> (c: nat)
    requires
        n * pow2(1074) < magnitude(b) * m,
    ensures
        c < b,
        magnitude(c) * m <= n * pow2(1074) <= magnitude(c + 1) * m,
    decreases b,
{
    if b == 0 {
        assert(0 * m == 0) by (nonlinear_arith);
        assert(magnitude(0) == 0);
        b
    } else if n * pow2(1074) < magnitude((b - 1) as nat) * m {
        lemma_cell(n, m, (b - 1) as nat)
    } else {
        (b - 1) as nat
    }
}

/// Every ratio has a nearest pattern.
pub proof fn lemma_round_is_nearest(n: nat, m: nat)
    requires
        m > 0,
    ensures
        nearest(n, m, round(n, m)),
{
    if magnitude(INFINITY as nat) * m <= n * pow2(1074) {
        lemma_nearest_infinity(n, m);
    } else {
        let c = lemma_cell(n, m, INFINITY as nat);
        lemma_nearest_in_cell(n, m, c);
    }
}

/// The nearest pattern depends on the ratio alone.
pub proof fn lemma_nearest_ratio(n1: nat, m1: nat, n2: nat, m2: nat, b: nat)
    requires
        m1 > 0,
        m2 > 0,
        n1 * m2 == n2 * m1,
    ensures
        nearest(n1, m1, b) == nearest(n2, m2, b),
{
    lemma_nearest_ratio_half(n1, m1, n2, m2, b);
    lemma_nearest_ratio_half(n2, m2, n1, m1, b);
}

pub proof fn lemma_miss_ratio(n1: nat, m1: nat, n2: nat, m2: nat, c: nat)
    requires
        n1 * m2 == n2 * m1,
    ensures
        miss(n1, m1, c) * m2 == miss(n2, m2, c) * m1,
{
    let p = pow2(1074);
    let g = magnitude(c);
    let x1 = n1 * p;
    let x2 = n2 * p;
    let y1 = g * m1;
    let y2 = g * m2;
    assert(x1 * m2 == x2 * m1) by (nonlinear_arith)
        requires
            n1 * m2 == n2 * m1,
            x1 == n1 * p,
            x2 == n2 * p,
    ;
    assert(y1 * m2 == y2 * m1) by (nonlinear_arith)
        requires
            y1 == g * m1,
            y2 == g * m2,
    ;
    let d1 = x1 - y1;
    let d2 = x2 - y2;
    assert(d1 * m2 == d2 * m1) by (nonlinear_arith)
        requires
            x1 * m2 == x2 * m1,
            y1 * m2 == y2 * m1,
            d1 == x1 - y1,
            d2 == x2 - y2,
    ;
    let (e1, e2) = (miss(n1, m1, c) as int, miss(n2, m2, c) as int);
    assert(e1 * m2 == e2 * m1) by (nonlinear_arith)
        requires
            d1 * m2 == d2 * m1,
            m1 >= 0,
            m2 >= 0,
            e1 == d1 && d1 >= 0 || e1 == -d1 && d1 <= 0,
            e2 == d2 && d2 >= 0 || e2 == -d2 && d2 <= 0,
    ;
}

proof fn lemma_nearest_ratio_half(n1: nat, m1: nat, n2: nat, m2: nat, b: nat)
    requires
        m1 > 0,
        m2 > 0,
        n1 * m2 == n2 * m1,
    ensures
        nearest(n1, m1, b) ==> nearest(n2, m2, b),
{
    if nearest(n1, m1, b) {
        assert forall|c: nat| c <= INFINITY && c != b implies miss(n2, m2, b) < #[trigger] miss(
            n2,
            m2,
            c,
        ) || (miss(n2, m2, b) == miss(n2, m2, c) && b % 2 == 0) by {
            lemma_miss_ratio(n1, m1, n2, m2, b);
            lemma_miss_ratio(n1, m1, n2, m2, c);
            let (b1, c1, b2, c2) = (
                miss(n1, m1, b),
                miss(n1, m1, c),
                miss(n2, m2, b),
                miss(n2, m2, c),
            );
            assert(b1 < c1 || (b1 == c1 && b % 2 == 0));
            if b1 < c1 {
                assert(b2 < c2) by (nonlinear_arith)
                    requires
                        b1 < c1,
                        b1 * m2 == b2 * m1,
                        c1 * m2 == c2 * m1,
                        m1 > 0,
                        m2 > 0,
                ;
            } else {
                assert(b2 == c2) by (nonlinear_arith)
                    requires
                        b1 == c1,
                        b1 * m2 == b2 * m1,
                        c1 * m2 == c2 * m1,
                        m1 > 0,
                ;
            }
        }
    }
}

/// `magnitude(b) * m`.
pub(crate) fn scaled(b: u64, m: &Natural) -> (r: Natural)
    requires
        b <= INFINITY,
    ensures
        r@ == magnitude(b as nat) * m@,
{
    let e: u64 = b / 0x10_0000_0000_0000;
    let f: u64 = b % 0x10_0000_0000_0000;
    if e == 0 {
        let r = m.mul_add(f, 0);
        assert(m@ * f == f * m@) by (nonlinear_arith);
        r
    } else {
        let r = m.mul_add(f + 0x10_0000_0000_0000, 0).shift_left((e - 1) as u32);
        proof {
            let (x, y, z) = (m@, (f + 0x10_0000_0000_0000) as nat, pow2((e - 1) as nat));
            assert((x * y) * z == (y * z) * x) by (nonlinear_arith);
        }
        r
    }
}

/// `(magnitude(b) + magnitude(b + 1)) * m`.
fn halfway(b: u64, m: &Natural) -> (r: Natural)
    requires
        b < INFINITY,
    ensures
        r@ == magnitude(b as nat) * m@ + magnitude((b + 1) as nat) * m@,
{
    let e: u64 = b / 0x10_0000_0000_0000;
    let f: u64 = b % 0x10_0000_0000_0000;
    proof {
        lemma_gap(b as nat);
        vstd::arithmetic::power2::lemma2_to64();
    }
    if e == 0 {
        let r = m.mul_add(2 * f + 1, 0);
        proof {
            let (x, y) = (m@, f as nat);
            assert(x * (2 * y + 1) == y * x + (y + 1) * x) by (nonlinear_arith);
        }
        r
    } else {
        let r = m.mul_add(2 * (f + 0x10_0000_0000_0000) + 1, 0).shift_left((e - 1) as u32);
        proof {
            let (x, y, z) = (m@, (f + 0x10_0000_0000_0000) as nat, pow2((e - 1) as nat));
            assert((x * (2 * y + 1)) * z == (y * z) * x + (y * z + z) * x) by (nonlinear_arith);
        }
        r
    }
}

/// The non-negative pattern nearest to `n / m`, ties to even.
pub fn round_ratio(n: &Natural, m: &Natural) -> (r: u64)
    requires
        m@ > 0,
    ensures
        r == round(n@, m@),
        nearest(n@, m@, r as nat),
{
    let x = n.shift_left(1074);
    let top = scaled(INFINITY, m);
    if x.order(&top) != Order::Before {
        proof {
            lemma_nearest_infinity(n@, m@);
            lemma_round(n@, m@, INFINITY as nat);
        }
        return INFINITY;
    }
    let mut low: u64 = 0;
    let mut high: u64 = INFINITY;
    assert(magnitude(0) * m@ == 0) by (nonlinear_arith)
        requires
            magnitude(0) == 0,
    ;
    while high - low > 1
        invariant
            low < high <= INFINITY,
            m@ > 0,
            x@ == n@ * pow2(1074),
            magnitude(low as nat) * m@ <= x@ < magnitude(high as nat) * m@,
        decreases high - low,
    {
        let mid: u64 = low + (high - low) / 2;
        if scaled(mid, m).order(&x) == Order::After {
            high = mid;
        } else {
            low = mid;
        }
    }
    let twice = x.mul_add(2, 0);
    proof {
        lemma_nearest_in_cell(n@, m@, low as nat);
    }
    let r: u64 = match twice.order(&halfway(low, m)) {
        Order::Before => low,
        Order::After => high,
        Order::Same => if low % 2 == 0 {
            low
        } else {
            high
        },
    };
    proof {
        lemma_round(n@, m@, r as nat);
    }
    r
}

} // verus!
