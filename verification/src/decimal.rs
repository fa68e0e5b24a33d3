//! Decimal numerals of binary64 numbers: reading a numeral to the nearest
//! pattern, and writing a pattern as its shortest numeral.

use vstd::arithmetic::power2::{lemma_pow2_adds, lemma_pow2_pos, pow2};
use vstd::prelude::*;
use vstd::slice::slice_subrange;

use crate::binary64::{
    den, gap, lemma_gap, lemma_magnitude_increases, lemma_miss_ratio, lemma_nearest_in_cell,
    lemma_nearest_infinity, lemma_nearest_ratio, lemma_round, lemma_ten, lemma_ten_adds,
    lemma_ten_exceeds_pow2, magnitude, miss, nearest, num, round, round_ratio, scaled, ten,
    INFINITY, NAN, SIGN,
};
use crate::natural::Natural;
use crate::numeral::{
    all_digits, dec, digit_value, digits_only, digits_value, lemma_dec, lemma_dec_of_digits,
    lemma_digits_value_bound, lemma_digits_value_concat, lemma_digits_value_prefix,
    lemma_digits_value_push,
};
use crate::order::Order;
use crate::text::{
    chars_eq_ignore_case, find_char, index_of, index_where, is_char, is_digit, lemma_index_where_is,
    lower_text, push_chars,
};

verus! {

/// The pattern nearest to `d * 10^p`.
pub open spec fn decimal_bits(d: nat, p: int) -> nat {
    round(num(d, p), den(p))
}

pub open spec fn is_sign(c: char) -> bool {
    c == '+' || c == '-'
}

/// A text without its sign, if it has one.
pub open spec fn unsigned_part(s: Seq<char>) -> Seq<char> {
    if s.len() > 0 && is_sign(s[0]) {
        s.skip(1)
    } else {
        s
    }
}

pub open spec fn is_negative(s: Seq<char>) -> bool {
    s.len() > 0 && s[0] == '-'
}

/// The exponent that the text after an exponent mark denotes: digits, after at
/// most one sign.
pub open spec fn exponent_value(s: Seq<char>) -> Option<int> {
    let body = unsigned_part(s);
    if body.len() > 0 && all_digits(body) {
        Some(
            if is_negative(s) {
                -(digits_value(body) as int)
            } else {
                digits_value(body) as int
            },
        )
    } else {
        None
    }
}

pub open spec fn exponent_mark() -> spec_fn(char) -> bool {
    |c: char| c == 'e' || c == 'E'
}

/// The `(d, p)` for which a numeral without a sign denotes `d * 10^p`: digits
/// with at most one point among them and at least one digit, and then possibly
/// an exponent.
pub open spec fn decimal_value(s: Seq<char>) -> Option<(nat, int)> {
    let x = index_where(s, exponent_mark());
    let mantissa = s.take(x);
    let exponent = if x < s.len() {
        exponent_value(s.skip(x + 1))
    } else {
        Some(0int)
    };
    let dot = index_of(mantissa, '.');
    let whole = mantissa.take(dot);
    let fraction = if dot < mantissa.len() {
        mantissa.skip(dot + 1)
    } else {
        seq![]
    };
    match exponent {
        Some(e) => if all_digits(whole) && all_digits(fraction) && whole.len() + fraction.len()
            > 0 {
            Some((digits_value(whole + fraction), e - fraction.len()))
        } else {
            None
        },
        None => None,
    }
}

/// The pattern that a text without a sign denotes.
pub open spec fn magnitude_bits(s: Seq<char>) -> Option<nat> {
    let name = lower_text(s);
    if name == "inf"@ || name == "infinity"@ {
        Some(INFINITY as nat)
    } else if name == "nan"@ {
        Some(NAN as nat)
    } else {
        match decimal_value(s) {
            Some((d, p)) => Some(decimal_bits(d, p)),
            None => None,
        }
    }
}

/// The pattern that a text denotes: a decimal numeral, an infinity or a
/// not-a-number, after at most one sign.
pub open spec fn number_bits(s: Seq<char>) -> Option<u64> {
    match magnitude_bits(unsigned_part(s)) {
        Some(b) => Some(
            (if is_negative(s) {
                b + SIGN
            } else {
                b as int
            }) as u64,
        ),
        None => None,
    }
}

/// 2^1024 in units of 2^-1074.
pub proof fn lemma_infinity()
    ensures
        magnitude(INFINITY as nat) == pow2(2098),
{
    let p: nat = 0x10_0000_0000_0000;
    let b = INFINITY as nat;
    assert(b / p == 2047 && b % p == 0);
    vstd::arithmetic::power2::lemma2_to64_rest();
    lemma_pow2_adds(52, 2046);
}

/// A number of at least 10^400 overflows.
proof fn lemma_huge(d: nat, k: nat, p: int)
    requires
        d >= ten(k),
        k + p >= 400,
    ensures
        nearest(num(d, p), den(p), INFINITY as nat),
        den(p) > 0,
{
    let n = num(d, p);
    let m = den(p);
    lemma_infinity();
    lemma_ten_exceeds_pow2(400);
    lemma_ten(k);
    lemma_ten(400);
    assert(n >= ten(400) * m) by {
        if p >= 0 {
            lemma_ten(p as nat);
            lemma_ten_adds(k, p as nat);
            lemma_ten_adds(400, (k + p - 400) as nat);
            lemma_ten((k + p - 400) as nat);
            let (a, b, c) = (ten(k), ten(p as nat), ten((k + p - 400) as nat));
            assert(d * b >= a * b) by (nonlinear_arith)
                requires
                    d >= a,
            ;
            assert(ten(400) * c >= ten(400)) by (nonlinear_arith)
                requires
                    c >= 1,
            ;
        } else {
            lemma_ten((-p) as nat);
            lemma_ten_adds(400, (-p) as nat);
            lemma_ten_adds((400 - p) as nat, (k + p - 400) as nat);
            lemma_ten((k + p - 400) as nat);
            let (a, c) = (ten((400 - p) as nat), ten((k + p - 400) as nat));
            assert(a * c >= a) by (nonlinear_arith)
                requires
                    c >= 1,
            ;
        }
    }
    if p < 0 {
        lemma_ten((-p) as nat);
    }
    lemma_pow2_adds(1200, 1074);
    lemma_pow2_adds(2098, 176);
    lemma_pow2_pos(176);
    lemma_pow2_pos(2098);
    lemma_pow2_pos(1074);
    let (x, y, z, t) = (pow2(2098), pow2(1074), pow2(1200), ten(400));
    assert(x * m <= n * y) by (nonlinear_arith)
        requires
            n >= t * m,
            t >= z,
            x * pow2(176) == z * y,
            pow2(176) >= 1,
            m >= 0,
            y >= 0,
    {
        assert(n * y >= t * m * y);
        assert(t * m * y >= z * m * y);
        assert(z * m * y == (z * y) * m);
        assert((z * y) * m == x * m * pow2(176));
        assert(x * m * pow2(176) >= x * m);
    }
    lemma_nearest_infinity(n, m);
}

/// A number below 10^-400 underflows.
proof fn lemma_tiny(d: nat, k: nat, p: int)
    requires
        d < ten(k),
        k + p <= -400,
    ensures
        nearest(num(d, p), den(p), 0),
        den(p) > 0,
{
    let n = num(d, p);
    let m = den(p);
    let q = (-p) as nat;
    lemma_ten(q);
    lemma_ten(k);
    lemma_ten((q - k - 400) as nat);
    lemma_ten_adds(k, 400);
    lemma_ten_adds(k + 400, (q - k - 400) as nat);
    lemma_ten_exceeds_pow2(400);
    lemma_pow2_adds(1074, 126);
    vstd::arithmetic::power2::lemma2_to64();
    lemma_pow2_adds(1, 125);
    lemma_pow2_pos(125);
    lemma_pow2_pos(1074);
    let (a, c, t, y, u) = (ten(k), ten((q - k - 400) as nat), ten(400), pow2(1074), pow2(126));
    assert(2 * (n * y) < m) by (nonlinear_arith)
        requires
            n < a,
            m == a * t * c,
            c >= 1,
            t >= y * u,
            u >= 2,
            y >= 1,
    {
        assert(a * t * c >= a * t);
        assert(a * t >= a * (y * u));
        assert(a * (y * u) >= a * (y * 2));
        assert(a * (y * 2) == 2 * (a * y));
        assert(a * y > n * y);
    }
    lemma_gap(0);
    assert(magnitude(0) == 0 && magnitude(1) == 1);
    assert(magnitude(0) * m == 0) by (nonlinear_arith)
        requires
            magnitude(0) == 0,
    ;
    assert(magnitude(1) * m == m) by (nonlinear_arith)
        requires
            magnitude(1) == 1,
    ;
    assert(0 <= n * y) by (nonlinear_arith);
    lemma_nearest_in_cell(n, m, 0);
}

proof fn lemma_zero_bits(p: int)
    ensures
        decimal_bits(0, p) == 0,
{
    lemma_ten(0);
    if p + 400 <= 0 {
        lemma_tiny(0, 0, p);
        lemma_round(num(0, p), den(p), 0);
    } else {
        lemma_tiny(0, 0, -400);
        if p >= 0 {
            assert(0 * ten(p as nat) == 0) by (nonlinear_arith);
        } else {
            lemma_ten((-p) as nat);
        }
        assert(num(0, p) == 0 && num(0, -400) == 0);
        assert(0 * den(-400) == 0 * den(p)) by (nonlinear_arith);
        lemma_nearest_ratio(0, den(-400), 0, den(p), 0);
        lemma_round(num(0, p), den(p), 0);
    }
}

/// The numeral's value, at most 10^30.
fn capped_value(s: &[char]) -> (r: u128)
    requires
        all_digits(s@),
    ensures
        r <= 1_000_000_000_000_000_000_000_000_000_000,
        r < 1_000_000_000_000_000_000_000_000_000_000 ==> r == digits_value(s@),
        r == 1_000_000_000_000_000_000_000_000_000_000 ==> r <= digits_value(s@),
{
    let cap: u128 = 1_000_000_000_000_000_000_000_000_000_000;
    let mut v: u128 = 0;
    for i in 0..s.len()
        invariant
            all_digits(s@),
            cap == 1_000_000_000_000_000_000_000_000_000_000,
            v < cap,
            v == digits_value(s@.take(i as int)),
    {
        assert(is_digit(s@[i as int]));
        let d: u128 = (s[i] as u32 - '0' as u32) as u128;
        v = v * 10 + d;
        proof {
            assert(s@.take(i + 1) =~= s@.take(i as int).push(s@[i as int]));
            lemma_digits_value_push(s@.take(i as int), s@[i as int]);
            lemma_digits_value_prefix(s@, i + 1);
        }
        if v >= cap {
            return cap;
        }
    }
    assert(s@.take(s@.len() as int) =~= s@);
    v
}

/// The numeral's value.
fn natural_value(s: &[char]) -> (r: Natural)
    requires
        all_digits(s@),
    ensures
        r@ == digits_value(s@),
{
    let mut v = Natural::zero();
    for i in 0..s.len()
        invariant
            all_digits(s@),
            v@ == digits_value(s@.take(i as int)),
    {
        assert(is_digit(s@[i as int]));
        let d: u64 = (s[i] as u32 - '0' as u32) as u64;
        v = v.mul_add(10, d);
        proof {
            assert(s@.take(i + 1) =~= s@.take(i as int).push(s@[i as int]));
            lemma_digits_value_push(s@.take(i as int), s@[i as int]);
        }
    }
    assert(s@.take(s@.len() as int) =~= s@);
    v
}

/// `v * 10^k`.
fn times_ten(v: Natural, k: u128) -> (r: Natural)
    ensures
        r@ == v@ * ten(k as nat),
{
    let mut r = v;
    let mut i: u128 = 0;
    proof {
        lemma_ten(0);
        assert(v@ * ten(0) == v@) by (nonlinear_arith)
            requires
                ten(0) == 1,
        ;
    }
    while i < k
        invariant
            i <= k,
            r@ == v@ * ten(i as nat),
        decreases k - i,
    {
        r = r.mul_add(10, 0);
        proof {
            lemma_ten(i as nat);
            let (a, b) = (v@, ten(i as nat));
            assert((a * b) * 10 == a * (10 * b)) by (nonlinear_arith);
        }
        i += 1;
    }
    r
}

/// The slice without its leading zeros.
fn strip_zeros(s: &[char]) -> (r: &[char])
    requires
        all_digits(s@),
    ensures
        all_digits(r@),
        digits_value(r@) == digits_value(s@),
        r@.len() <= s@.len(),
        r@.len() > 0 ==> digits_value(r@) >= ten((r@.len() - 1) as nat),
{
    let mut i: usize = 0;
    assert(s@.skip(0) =~= s@);
    while i < s.len() && s[i] == '0'
        invariant
            all_digits(s@),
            i <= s@.len(),
            digits_value(s@.skip(i as int)) == digits_value(s@),
        decreases s@.len() - i,
    {
        proof {
            lemma_head(s@.skip(i as int));
            assert(s@.skip(i as int).skip(1) =~= s@.skip(i + 1));
            let t = ten((s@.len() - i - 1) as nat);
            assert(0 * t == 0) by (nonlinear_arith);
        }
        i += 1;
    }
    assert(s@.skip(i as int) =~= s@.subrange(i as int, s@.len() as int));
    proof {
        let r = s@.skip(i as int);
        if r.len() > 0 {
            assert(is_digit(s@[i as int]) && r[0] == s@[i as int]);
            lemma_head(r);
            let (a, t) = (digit_value(r[0]), ten((r.len() - 1) as nat));
            assert(a * t >= t) by (nonlinear_arith)
                requires
                    a >= 1,
            ;
        }
        assert forall|j: int| 0 <= j < r.len() implies is_digit(#[trigger] r[j]) by {
            assert(is_digit(s@[i + j]));
        }
    }
    slice_subrange(s, i, s.len())
}

/// The weight of the first digit.
proof fn lemma_head(s: Seq<char>)
    requires
        s.len() > 0,
    ensures
        digits_value(s) == digit_value(s[0]) * ten((s.len() - 1) as nat) + digits_value(s.skip(1)),
{
    let a = s.take(1);
    let b = s.skip(1);
    assert(a + b =~= s);
    lemma_digits_value_concat(a, b);
    lemma_ten(b.len());
    assert(a =~= Seq::<char>::empty().push(s[0]));
    lemma_digits_value_push(Seq::<char>::empty(), s[0]);
    assert(digits_value(Seq::<char>::empty()) == 0);
}

/// The pattern nearest to the number with the given digits, of which the last
/// `places` stand behind the point, times ten to the given power.
fn round_decimal(digits: &[char], places: usize, negative: bool, power: &[char]) -> (r: u64)
    requires
        all_digits(digits@),
        all_digits(power@),
    ensures
        r == decimal_bits(
            digits_value(digits@),
            (if negative {
                -(digits_value(power@) as int)
            } else {
                digits_value(power@) as int
            }) - places,
        ),
        r <= INFINITY,
{
    let ghost e: int = (if negative {
        -(digits_value(power@) as int)
    } else {
        digits_value(power@) as int
    }) - places;
    let ghost value = digits_value(digits@);
    let ds = strip_zeros(digits);
    let cap: u128 = 1_000_000_000_000_000_000_000_000_000_000;
    if ds.len() == 0 {
        proof {
            lemma_zero_bits(e);
        }
        return 0;
    }
    let k: i128 = ds.len() as i128;
    let weight: u128 = capped_value(power);
    let p: i128 = (if negative {
        -(weight as i128)
    } else {
        weight as i128
    }) - (places as i128);
    if k - 1 + p >= 400 {
        proof {
            lemma_huge(value, (k - 1) as nat, e);
            lemma_round(num(value, e), den(e), INFINITY as nat);
        }
        return INFINITY;
    }
    if k + p <= -400 {
        proof {
            lemma_digits_value_bound(ds@);
            lemma_ten(k as nat);
            lemma_tiny(value, k as nat, e);
            lemma_round(num(value, e), den(e), 0);
        }
        return 0;
    }
    assert(weight < cap);
    assert(p == e);
    let n = natural_value(ds);
    let r: u64 = if p >= 0 {
        let r = round_ratio(&times_ten(n, p as u128), &Natural::one());
        r
    } else {
        proof {
            let t = ten((-p) as nat);
            assert(1 * t == t) by (nonlinear_arith);
            lemma_ten((-p) as nat);
        }
        let m = times_ten(Natural::one(), (-p) as u128);
        round_ratio(&n, &m)
    };
    r
}

/// The index of the first exponent mark, or the length.
fn find_exponent(s: &[char]) -> (r: usize)
    ensures
        r == index_where(s@, exponent_mark()),
        r <= s@.len(),
{
    let mut i: usize = 0;
    while i < s.len() && s[i] != 'e' && s[i] != 'E'
        invariant
            i <= s@.len(),
            forall|j: int| 0 <= j < i ==> s@[j] != 'e' && s@[j] != 'E',
        decreases s@.len() - i,
    {
        i += 1;
    }
    proof {
        lemma_index_where_is(s@, exponent_mark(), i as int);
    }
    i
}

/// A slice without its sign, and whether it begins with a minus sign.
fn split_sign(s: &[char]) -> (r: (bool, &[char]))
    ensures
        r.0 == is_negative(s@),
        r.1@ == unsigned_part(s@),
{
    if s.len() > 0 && (s[0] == '+' || s[0] == '-') {
        assert(s@.skip(1) =~= s@.subrange(1, s@.len() as int));
        (s[0] == '-', slice_subrange(s, 1, s.len()))
    } else {
        (false, s)
    }
}

fn read_decimal(s: &[char]) -> (r: Option<u64>)
    ensures
        match decimal_value(s@) {
            Some((d, p)) => r matches Some(b) && b == decimal_bits(d, p) && b <= INFINITY,
            None => r is None,
        },
{
    let x = find_exponent(s);
    let mantissa = slice_subrange(s, 0, x);
    assert(mantissa@ == s@.take(x as int));
    let mut negative = false;
    let empty: [char; 0] = [];
    let mut power: &[char] = &empty;
    let ghost exponent = if x < s@.len() {
        exponent_value(s@.skip(x + 1))
    } else {
        Some(0int)
    };
    assert(digits_value(power@) == 0);
    if x < s.len() {
        let tail = slice_subrange(s, x + 1, s.len());
        assert(tail@ == s@.skip(x + 1));
        let (sign, body) = split_sign(tail);
        if body.len() == 0 || !digits_only(body) {
            return None;
        }
        negative = sign;
        power = body;
    }
    let dot = find_char(mantissa, '.');
    let whole = slice_subrange(mantissa, 0, dot);
    let fraction: &[char] = if dot < mantissa.len() {
        slice_subrange(mantissa, dot + 1, mantissa.len())
    } else {
        &empty
    };
    assert(whole@ == mantissa@.take(dot as int));
    assert(fraction@ == if dot < mantissa@.len() {
        mantissa@.skip(dot + 1)
    } else {
        seq![]
    });
    if !digits_only(whole) || !digits_only(fraction) || (whole.len() == 0 && fraction.len() == 0) {
        return None;
    }
    let mut digits = vstd::slice::slice_to_vec(whole);
    let mut i: usize = 0;
    while i < fraction.len()
        invariant
            i <= fraction@.len(),
            digits@ == whole@ + fraction@.take(i as int),
        decreases fraction@.len() - i,
    {
        digits.push(fraction[i]);
        assert(fraction@.take(i + 1) =~= fraction@.take(i as int).push(fraction@[i as int]));
        i += 1;
    }
    assert(fraction@.take(i as int) =~= fraction@);
    assert(digits@ =~= whole@ + fraction@);
    assert(all_digits(digits@)) by {
        assert forall|j: int| 0 <= j < digits@.len() implies is_digit(#[trigger] digits@[j]) by {
            if j < whole@.len() {
                assert(is_digit(whole@[j]));
            } else {
                assert(is_digit(fraction@[j - whole@.len()]));
            }
        }
    }
    Some(round_decimal(digits.as_slice(), fraction.len(), negative, power))
}

/// Reads a number.
pub fn read_number(s: &[char]) -> (r: Option<u64>)
    ensures
        r == number_bits(s@),
{
    let (negative, body) = split_sign(s);
    let found: Option<u64> = if chars_eq_ignore_case(body, "inf") || chars_eq_ignore_case(
        body,
        "infinity",
    ) {
        Some(INFINITY)
    } else if chars_eq_ignore_case(body, "nan") {
        Some(NAN)
    } else {
        read_decimal(body)
    };
    match found {
        Some(b) => Some(
            if negative {
                b + SIGN
            } else {
                b
            },
        ),
        None => None,
    }
}

/// The nearest pattern to `d * 10^p` is `b`.
pub open spec fn rounds_to(d: nat, p: int, b: nat) -> bool {
    nearest(num(d, p), den(p), b)
}

/// How far `d * 10^p` is from the value of `b`, in a unit that depends on `p`
/// alone.
pub open spec fn error(d: nat, p: int, b: nat) -> nat {
    miss(num(d, p), den(p), b)
}

/// `d * 10^p` is read back as `b`, no multiple of a higher power of ten is, and
/// among those with this power it is the one closest to the value of `b`, the
/// larger of two closest.
pub open spec fn shortest(b: nat, d: nat, p: int) -> bool {
    &&& rounds_to(d, p, b)
    &&& forall|c: nat, q: int| q > p ==> !#[trigger] rounds_to(c, q, b)
    &&& forall|c: nat|
        c != d && #[trigger] rounds_to(c, p, b) ==> error(d, p, b) < error(c, p, b) || (error(
            d,
            p,
            b,
        ) == error(c, p, b) && c < d)
}

pub proof fn lemma_shortest_unique(b: nat, d1: nat, p1: int, d2: nat, p2: int)
    requires
        shortest(b, d1, p1),
        shortest(b, d2, p2),
    ensures
        d1 == d2,
        p1 == p2,
{
    assert(rounds_to(d1, p1, b) && rounds_to(d2, p2, b));
}

/// With `x` and `y` the scaled number and value, the number is within half of
/// the distance to either neighbour.
spec fn fits(x: nat, y: nat, low: nat, high: nat, even: bool) -> bool {
    if x <= y {
        2 * (y - x) < low || (2 * (y - x) == low && even)
    } else {
        2 * (x - y) < high || (2 * (x - y) == high && even)
    }
}

spec fn distance(x: nat, y: nat) -> nat {
    if x <= y {
        (y - x) as nat
    } else {
        (x - y) as nat
    }
}

proof fn lemma_interval(n: nat, m: nat, b: nat)
    requires
        m > 0,
        0 < b < INFINITY,
    ensures
        nearest(n, m, b) <==> fits(
            n * pow2(1074),
            magnitude(b) * m,
            gap((b - 1) as nat) * m,
            gap(b) * m,
            b % 2 == 0,
        ),
{
    let a = (b - 1) as nat;
    let x = n * pow2(1074);
    let (ya, y, yc) = (magnitude(a) * m, magnitude(b) * m, magnitude(b + 1) * m);
    lemma_gap(a);
    lemma_gap(b);
    let (ga, gb, va, vb) = (gap(a), gap(b), magnitude(a), magnitude(b));
    assert((va + ga) * m == va * m + ga * m) by (nonlinear_arith);
    assert((vb + gb) * m == vb * m + gb * m) by (nonlinear_arith);
    assert(ga * m > 0 && gb * m > 0) by (nonlinear_arith)
        requires
            ga > 0,
            gb > 0,
            m > 0,
    ;
    assert(y == ya + ga * m && yc == y + gb * m);
    let f = fits(x, y, ga * m, gb * m, b % 2 == 0);
    if f {
        if x <= y {
            lemma_nearest_in_cell(n, m, a);
        } else {
            lemma_nearest_in_cell(n, m, b);
        }
    }
    if nearest(n, m, b) {
        assert(miss(n, m, b) <= miss(n, m, a));
        assert(miss(n, m, b) <= miss(n, m, b + 1));
    }
}

/// The test of a candidate `c * 10^(start - t)` in whole numbers.
proof fn lemma_candidate(b: nat, start: nat, t: nat, c: nat)
    requires
        0 < b < INFINITY,
    ensures
        rounds_to(c, start - t, b) <==> fits(
            c * (pow2(1074) * ten(start)),
            magnitude(b) * ten(t),
            gap((b - 1) as nat) * ten(t),
            gap(b) * ten(t),
            b % 2 == 0,
        ),
        error(c, start - t, b) * ten(t) == distance(
            c * (pow2(1074) * ten(start)),
            magnitude(b) * ten(t),
        ) * den(start - t),
        den(start - t) > 0,
        ten(t) > 0,
{
    let p = start - t;
    let (n, m) = (c * ten(start), ten(t));
    lemma_ten(t);
    lemma_ten(start);
    assert(num(c, p) * m == n * den(p)) by {
        if p >= 0 {
            lemma_ten_adds(p as nat, t);
            let (a, b) = (ten(p as nat), ten(t));
            assert((c * a) * b == (c * (a * b)) * 1) by (nonlinear_arith);
        } else {
            lemma_ten_adds(start, (-p) as nat);
            let (a, b) = (ten(start), ten((-p) as nat));
            assert(c * (a * b) == (c * a) * b) by (nonlinear_arith);
        }
    }
    if p < 0 {
        lemma_ten((-p) as nat);
    }
    lemma_nearest_ratio(num(c, p), den(p), n, m, b);
    lemma_interval(n, m, b);
    lemma_miss_ratio(num(c, p), den(p), n, m, b);
    let (u, v) = (ten(start), pow2(1074));
    assert((c * u) * v == c * (v * u)) by (nonlinear_arith);
}

proof fn lemma_error_order(b: nat, start: nat, t: nat, c1: nat, c2: nat)
    requires
        0 < b < INFINITY,
    ensures
        ({
            let u = pow2(1074) * ten(start);
            let z = magnitude(b) * ten(t);
            &&& distance(c1 * u, z) < distance(c2 * u, z) ==> error(c1, start - t, b) < error(
                c2,
                start - t,
                b,
            )
            &&& distance(c1 * u, z) == distance(c2 * u, z) ==> error(c1, start - t, b) == error(
                c2,
                start - t,
                b,
            )
        }),
{
    lemma_candidate(b, start, t, c1);
    lemma_candidate(b, start, t, c2);
    let u = pow2(1074) * ten(start);
    let z = magnitude(b) * ten(t);
    let (d1, d2) = (distance(c1 * u, z), distance(c2 * u, z));
    let (e1, e2) = (error(c1, start - t, b), error(c2, start - t, b));
    let (k, q) = (ten(t), den(start - t));
    if d1 < d2 {
        assert(e1 < e2) by (nonlinear_arith)
            requires
                d1 < d2,
                e1 * k == d1 * q,
                e2 * k == d2 * q,
                k > 0,
                q > 0,
        ;
    }
    if d1 == d2 {
        assert(e1 == e2) by (nonlinear_arith)
            requires
                d1 == d2,
                e1 * k == d1 * q,
                e2 * k == d2 * q,
                k > 0,
        ;
    }
}

/// What a multiple of a higher power of ten is read as, a multiple of a lower
/// power is read as too.
proof fn lemma_no_higher(b: nat, p: int)
    requires
        forall|c: nat| !#[trigger] rounds_to(c, p + 1, b),
    ensures
        forall|c: nat, q: int| q > p ==> !#[trigger] rounds_to(c, q, b),
{
    assert forall|c: nat, q: int| q > p implies !#[trigger] rounds_to(c, q, b) by {
        let k = (q - p - 1) as nat;
        let e = c * ten(k);
        lemma_ten(k);
        assert(!rounds_to(e, p + 1, b));
        assert(num(c, q) * den(p + 1) == num(e, p + 1) * den(q)) by {
            if p + 1 >= 0 {
                lemma_ten_adds(k, (p + 1) as nat);
                let (x, y) = (ten(k), ten((p + 1) as nat));
                assert((c * (x * y)) * 1 == ((c * x) * y) * 1) by (nonlinear_arith);
            } else if q >= 0 {
                lemma_ten_adds(q as nat, (-(p + 1)) as nat);
                let (x, y) = (ten(q as nat), ten((-(p + 1)) as nat));
                assert((c * x) * y == (c * (x * y)) * 1) by (nonlinear_arith);
            } else {
                lemma_ten_adds(k, (-q) as nat);
                let (x, y) = (ten(k), ten((-q) as nat));
                assert(c * (x * y) == (c * x) * y) by (nonlinear_arith);
            }
        }
        if p + 1 < 0 {
            lemma_ten((-(p + 1)) as nat);
        }
        if q < 0 {
            lemma_ten((-q) as nat);
        }
        lemma_nearest_ratio(num(c, q), den(q), num(e, p + 1), den(p + 1), b);
    }
}

/// `d` is the number of whole units in the value of `b` times 10^t, and `r` the
/// rest.
spec fn split_at(b: nat, start: nat, t: nat, d: nat, r: nat) -> bool {
    &&& 0 < b < INFINITY
    &&& magnitude(b) * ten(t) == d * (pow2(1074) * ten(start)) + r
    &&& r < pow2(1074) * ten(start)
}

spec fn low_fits(b: nat, t: nat, r: nat) -> bool {
    let low = gap((b - 1) as nat) * ten(t);
    2 * r < low || (2 * r == low && b % 2 == 0)
}

spec fn high_fits(b: nat, start: nat, t: nat, r: nat) -> bool {
    let rest = pow2(1074) * ten(start) - r;
    let high = gap(b) * ten(t);
    2 * rest < high || (2 * rest == high && b % 2 == 0)
}

proof fn lemma_multiples(c: nat, d: nat, u: nat)
    ensures
        c < d ==> c * u + u <= d * u,
        c == d + 1 ==> c * u == d * u + u,
        c > d + 1 ==> d * u + u + u <= c * u,
{
    if c < d {
        assert(c * u + u <= d * u) by (nonlinear_arith)
            requires
                c < d,
        ;
    }
    if c == d + 1 {
        assert(c * u == d * u + u) by (nonlinear_arith)
            requires
                c == d + 1,
        ;
    }
    if c > d + 1 {
        assert(d * u + u + u <= c * u) by (nonlinear_arith)
            requires
                c > d + 1,
        ;
    }
}

/// Where neither neighbouring multiple is read as `b`, none is.
proof fn lemma_none(b: nat, start: nat, t: nat, d: nat, r: nat)
    requires
        split_at(b, start, t, d, r),
        !low_fits(b, t, r),
        !high_fits(b, start, t, r),
    ensures
        forall|c: nat| !#[trigger] rounds_to(c, start - t, b),
{
    let u = pow2(1074) * ten(start);
    assert forall|c: nat| !#[trigger] rounds_to(c, start - t, b) by {
        lemma_candidate(b, start, t, c);
        lemma_multiples(c, d, u);
    }
}

/// The choice among the two neighbouring multiples.
proof fn lemma_best(b: nat, start: nat, t: nat, d: nat, r: nat, up: bool)
    requires
        split_at(b, start, t, d, r),
        if up {
            high_fits(b, start, t, r) && (!low_fits(b, t, r) || 2 * r >= pow2(1074) * ten(start))
        } else {
            low_fits(b, t, r) && (!high_fits(b, start, t, r) || 2 * r < pow2(1074) * ten(start))
        },
    ensures
        ({
            let best = if up {
                d + 1
            } else {
                d
            };
            let p = start - t;
            &&& rounds_to(best, p, b)
            &&& forall|c: nat|
                c != best && #[trigger] rounds_to(c, p, b) ==> error(best, p, b) < error(c, p, b)
                    || (error(best, p, b) == error(c, p, b) && c < best)
        }),
{
    let u = pow2(1074) * ten(start);
    let best = if up {
        d + 1
    } else {
        d
    };
    let p = start - t;
    lemma_candidate(b, start, t, best);
    lemma_multiples(best, d, u);
    assert(gap((b - 1) as nat) * ten(t) > 0) by {
        lemma_gap((b - 1) as nat);
        lemma_ten(t);
        let (x, y) = (gap((b - 1) as nat), ten(t));
        assert(x * y > 0) by (nonlinear_arith)
            requires
                x > 0,
                y > 0,
        ;
    }
    assert forall|c: nat| c != best && #[trigger] rounds_to(c, p, b) implies error(best, p, b)
        < error(c, p, b) || (error(best, p, b) == error(c, p, b) && c < best) by {
        lemma_candidate(b, start, t, c);
        lemma_multiples(c, d, u);
        lemma_error_order(b, start, t, best, c);
    }
}

/// At the last binary place nothing is left over.
proof fn lemma_exact(b: nat, start: nat, d: nat, r: nat)
    requires
        split_at(b, start, start + 1074, d, r),
    ensures
        r == 0,
{
    let v = magnitude(b);
    let five = vstd::arithmetic::power::pow(5, 1074);
    lemma_ten_adds(start, 1074);
    lemma_ten(1074);
    vstd::arithmetic::power::lemma_pow_distributes(5, 2, 1074);
    vstd::arithmetic::power2::lemma_pow2(1074);
    vstd::arithmetic::power::lemma_pow_positive(5, 1074);
    let (s, w) = (ten(start), pow2(1074));
    let u = w * s;
    let k = v * (five as nat);
    assert(v * (s * (five * w)) == (v * five) * (w * s)) by (nonlinear_arith);
    assert(v * ten(start + 1074) == k * u);
    assert(r == 0) by (nonlinear_arith)
        requires
            k * u == d * u + r,
            0 <= r < u,
            k >= 0,
            d >= 0,
    {
        if k > d {
            assert((k - d) * u >= u);
        } else {
            assert((d - k) * u >= 0);
        }
    }
}

/// Nothing is read as `b` that is a multiple of a power of ten of at least
/// twice its value.
proof fn lemma_start(b: nat, start: nat)
    requires
        0 < b < INFINITY,
        2 * magnitude(b) <= pow2(1074) * ten(start),
    ensures
        split_at(b, start, 0, 0, magnitude(b)),
        forall|c: nat| !#[trigger] rounds_to(c, start - 0, b),
{
    let v = magnitude(b);
    let u = pow2(1074) * ten(start);
    lemma_ten(0);
    lemma_magnitude_increases(0, b);
    assert(v * ten(0) == v) by (nonlinear_arith)
        requires
            ten(0) == 1,
    ;
    assert(0 * u == 0) by (nonlinear_arith);
    lemma_gap((b - 1) as nat);
    lemma_gap_below(b);
    let (x, y) = (gap((b - 1) as nat), gap(b));
    assert(x * ten(0) == x && y * ten(0) == y) by (nonlinear_arith)
        requires
            ten(0) == 1,
    ;
    lemma_none(b, start, 0, 0, v);
}

proof fn lemma_gap_below(b: nat)
    requires
        b > 0,
    ensures
        gap(b) <= magnitude(b),
{
    let p: nat = 0x10_0000_0000_0000;
    let e = b / p;
    let f = b % p;
    vstd::arithmetic::power2::lemma2_to64();
    if e > 0 {
        let g = pow2((e - 1) as nat);
        assert((f + p) * g >= g) by (nonlinear_arith)
            requires
                f + p >= 1,
        ;
    }
}

proof fn lemma_big_start(b: nat)
    requires
        b < INFINITY,
    ensures
        2 * magnitude(b) <= pow2(1074) * ten(400),
{
    lemma_magnitude_increases(b, INFINITY as nat);
    lemma_infinity();
    lemma_ten_exceeds_pow2(400);
    lemma_pow2_adds(1074, 1200);
    lemma_pow2_adds(2099, 175);
    lemma_pow2_adds(1, 2098);
    vstd::arithmetic::power2::lemma2_to64();
    lemma_pow2_pos(175);
    lemma_pow2_pos(1074);
    let (x, y, z, w) = (pow2(1074), pow2(1200), ten(400), pow2(175));
    assert(x * z >= x * y) by (nonlinear_arith)
        requires
            z >= y,
            x >= 0,
    ;
    let q = pow2(2099);
    assert(q * w >= q) by (nonlinear_arith)
        requires
            w >= 1,
    ;
}

/// A digit string of nines, and one of zeros.
proof fn lemma_runs(s: Seq<char>, c: char)
    requires
        c == '0' || c == '9',
        forall|i: int| 0 <= i < s.len() ==> s[i] == c,
    ensures
        c == '9' ==> digits_value(s) + 1 == ten(s.len()),
        c == '0' ==> digits_value(s) == 0,
    decreases s.len(),
{
    lemma_ten(0);
    if s.len() > 0 {
        lemma_runs(s.drop_last(), c);
        lemma_ten((s.len() - 1) as nat);
    }
}

/// Replaces a digit string by that of the next number.
fn increment(ds: &mut Vec<char>)
    requires
        all_digits(old(ds)@),
        old(ds)@.len() > 0 ==> old(ds)@[0] != '0',
    ensures
        all_digits(final(ds)@),
        final(ds)@.len() > 0,
        final(ds)@[0] != '0',
        digits_value(final(ds)@) == digits_value(old(ds)@) + 1,
{
    let ghost before = ds@;
    let n = ds.len();
    let mut i: usize = n;
    while i > 0 && ds[i - 1] == '9'
        invariant
            i <= n == ds@.len() == before.len(),
            all_digits(before),
            forall|j: int| 0 <= j < i ==> ds@[j] == before[j],
            forall|j: int| i <= j < n ==> ds@[j] == '0',
            forall|j: int| i <= j < n ==> before[j] == '9',
        decreases i,
    {
        ds.set(i - 1, '0');
        i -= 1;
    }
    let ghost head = before.take(i as int);
    let ghost tail = before.skip(i as int);
    let ghost zeros = ds@.skip(i as int);
    proof {
        assert(head + tail =~= before);
        lemma_digits_value_concat(head, tail);
        lemma_runs(tail, '9');
        lemma_runs(zeros, '0');
        lemma_ten(tail.len());
    }
    let ghost h = digits_value(head);
    let ghost w = ten(tail.len());
    if i > 0 {
        assert(is_digit(before[i - 1]));
        let next = (ds[i - 1] as u8 + 1) as char;
        ds.set(i - 1, next);
        proof {
            let top = ds@.take(i as int);
            assert(top + zeros =~= ds@);
            lemma_digits_value_concat(top, zeros);
            assert(top.drop_last() =~= head.drop_last());
            assert(digits_value(top) == h + 1);
            assert((h + 1) * w == h * w + w) by (nonlinear_arith);
            assert forall|j: int| 0 <= j < ds@.len() implies is_digit(#[trigger] ds@[j]) by {
                assert(is_digit(before[j]));
            }
        }
    } else {
        ds.insert(0, '1');
        proof {
            let top = seq!['1'];
            assert(top + zeros =~= ds@);
            lemma_digits_value_concat(top, zeros);
            assert(top =~= Seq::<char>::empty().push('1'));
            lemma_digits_value_push(Seq::<char>::empty(), '1');
            assert(digits_value(Seq::<char>::empty()) == 0);
            assert(head =~= Seq::<char>::empty());
            assert(0 * w == 0 && 1 * w == w) by (nonlinear_arith);
        }
    }
}

/// The shortest numeral of a positive finite pattern: its digits, and the power
/// of ten of the last one.
fn shortest_digits(b: u64) -> (r: (Vec<char>, i32))
    requires
        0 < b < INFINITY,
    ensures
        all_digits(r.0@),
        r.0@.len() > 0,
        r.0@[0] != '0',
        -1074 <= r.1 < 400,
        shortest(b as nat, digits_value(r.0@), r.1 as int),
{
    let one = Natural::one();
    proof {
        lemma_gap(b as nat);
        lemma_gap((b - 1) as nat);
        lemma_ten(0);
        let (x, y, z) = (
            magnitude((b - 1) as nat),
            magnitude(b as nat),
            magnitude((b + 1) as nat),
        );
        assert(x * 1 == x && y * 1 == y && z * 1 == z) by (nonlinear_arith);
        let (g, h) = (gap((b - 1) as nat), gap(b as nat));
        assert(g * ten(0) == g && h * ten(0) == h) by (nonlinear_arith)
            requires
                ten(0) == 1,
        ;
        assert(1 * pow2(1074) == pow2(1074)) by (nonlinear_arith);
    }
    let value = scaled(b, &one);
    let mut low = value.minus(&scaled(b - 1, &one));
    let mut high = scaled(b + 1, &one).minus(&value);
    let twice = value.mul_add(2, 0);
    let mut start: u32 = 20;
    let mut unit = times_ten(one.shift_left(1074), 20);
    if twice.order(&unit) == Order::After {
        start = 400;
        unit = times_ten(one.shift_left(1074), 400);
        proof {
            lemma_big_start(b as nat);
        }
    }
    let even = b % 2 == 0;
    let mut rest = value;
    let mut digits: Vec<char> = Vec::new();
    let mut t: u32 = 0;
    proof {
        lemma_start(b as nat, start as nat);
        lemma_magnitude_increases(0, b as nat);
    }
    assert(digits_value(digits@) == 0);
    loop
        invariant
            0 < b < INFINITY,
            even == (b % 2 == 0),
            start == 20 || start == 400,
            t <= start + 1074,
            unit@ == pow2(1074) * ten(start as nat),
            low@ == gap((b - 1) as nat) * ten(t as nat),
            high@ == gap(b as nat) * ten(t as nat),
            all_digits(digits@),
            digits@.len() > 0 ==> digits@[0] != '0',
            split_at(b as nat, start as nat, t as nat, digits_value(digits@), rest@),
            rest@ > 0,
            forall|c: nat| !#[trigger] rounds_to(c, start - t, b as nat),
        decreases start + 1074 - t,
    {
        proof {
            if t == start + 1074 {
                lemma_exact(b as nat, start as nat, digits_value(digits@), rest@);
            }
        }
        let ghost t0 = t;
        let ghost d0 = digits_value(digits@);
        let ghost r0 = rest@;
        rest = rest.mul_add(10, 0);
        low = low.mul_add(10, 0);
        high = high.mul_add(10, 0);
        let mut digit: u8 = 0;
        while rest.order(&unit) != Order::Before
            invariant
                digit <= 9,
                r0 < unit@,
                rest@ + digit * unit@ == 10 * r0,
            decreases rest@,
        {
            proof {
                let (k, u) = (digit as int, unit@ as int);
                assert(k < 9) by (nonlinear_arith)
                    requires
                        rest@ + k * u == 10 * r0,
                        rest@ >= u,
                        r0 < u,
                        k <= 9,
                ;
                assert((k + 1) * u == k * u + u) by (nonlinear_arith);
            }
            rest = rest.minus(&unit);
            digit += 1;
        }
        t += 1;
        if digits.len() > 0 || digit > 0 {
            let ghost ds = digits@;
            digits.push((digit + '0' as u8) as char);
            proof {
                lemma_digits_value_push(ds, digits@.last());
                assert forall|j: int| 0 <= j < digits@.len() implies is_digit(
                    #[trigger] digits@[j],
                ) by {
                    if j < ds.len() {
                        assert(is_digit(ds[j]));
                    }
                }
            }
        }
        let ghost d = digits_value(digits@);
        proof {
            assert(d == 10 * d0 + digit);
            lemma_ten(t0 as nat);
            let (v, k, u) = (magnitude(b as nat), ten(t0 as nat), unit@);
            assert(v * (10 * k) == 10 * (v * k)) by (nonlinear_arith);
            assert((10 * d0 + digit) * u == 10 * (d0 * u) + digit * u) by (nonlinear_arith);
            let (g, h) = (gap((b - 1) as nat), gap(b as nat));
            assert((g * k) * 10 == g * (10 * k)) by (nonlinear_arith);
            assert((h * k) * 10 == h * (10 * k)) by (nonlinear_arith);
            assert(split_at(b as nat, start as nat, t as nat, d, rest@));
        }
        let twice = rest.mul_add(2, 0);
        let below: bool = match twice.order(&low) {
            Order::Before => true,
            Order::Same => even,
            Order::After => false,
        };
        let above: bool = match unit.minus(&rest).mul_add(2, 0).order(&high) {
            Order::Before => true,
            Order::Same => even,
            Order::After => false,
        };
        assert(below == low_fits(b as nat, t as nat, rest@));
        assert(above == high_fits(b as nat, start as nat, t as nat, rest@));
        if below || above {
            let up = above && (!below || twice.order(&unit) != Order::Before);
            proof {
                lemma_best(b as nat, start as nat, t as nat, d, rest@, up);
                let p = start - t;
                assert(p + 1 == start - t0);
                lemma_no_higher(b as nat, p);
            }
            if up {
                increment(&mut digits);
            } else {
                proof {
                    lemma_positive(b as nat, start - t, d);
                }
            }
            return (digits, start as i32 - t as i32);
        }
        proof {
            lemma_none(b as nat, start as nat, t as nat, d, rest@);
            lemma_gap((b - 1) as nat);
            lemma_ten(t as nat);
            let (g, k) = (gap((b - 1) as nat), ten(t as nat));
            assert(g * k > 0) by (nonlinear_arith)
                requires
                    g > 0,
                    k > 0,
            ;
        }
    }
}

/// Zero is read as a positive number by no power of ten.
proof fn lemma_positive(b: nat, p: int, d: nat)
    requires
        rounds_to(d, p, b),
        b > 0,
    ensures
        d > 0,
{
    if d == 0 {
        lemma_zero_bits(p);
        if p < 0 {
            lemma_ten((-p) as nat);
        }
        lemma_round(num(0, p), den(p), b);
    }
}

/// The pattern denotes a number.
pub open spec fn is_finite(bits: u64) -> bool {
    bits % SIGN < INFINITY
}

pub fn finite(bits: u64) -> (r: bool)
    ensures
        r == is_finite(bits),
{
    bits % SIGN < INFINITY
}

pub open spec fn zeros(n: nat) -> Seq<char> {
    Seq::new(n, |i: int| '0')
}

/// The digits, times 10^p, in positional notation.
pub open spec fn positional(ds: Seq<char>, p: int) -> Seq<char> {
    if p >= 0 {
        ds + zeros(p as nat)
    } else if ds.len() > -p {
        ds.take(ds.len() + p).push('.') + ds.skip(ds.len() + p)
    } else {
        seq!['0', '.'] + zeros((-p - ds.len()) as nat) + ds
    }
}

/// The shortest numeral of a non-negative finite pattern.
pub open spec fn magnitude_text(b: nat) -> Seq<char> {
    if b == 0 {
        seq!['0']
    } else {
        let (d, p) = choose|d: nat, p: int| shortest(b, d, p);
        positional(dec(d), p)
    }
}

/// The shortest numeral of a finite pattern.
pub open spec fn number_text(bits: u64) -> Seq<char> {
    if bits >= SIGN {
        seq!['-'] + magnitude_text((bits - SIGN) as nat)
    } else {
        magnitude_text(bits as nat)
    }
}

fn push_zeros(out: &mut String, n: usize)
    ensures
        final(out)@ == old(out)@ + zeros(n as nat),
{
    let ghost before = out@;
    let mut i: usize = 0;
    while i < n
        invariant
            i <= n,
            out@ == before + zeros(i as nat),
        decreases n - i,
    {
        out.push('0');
        assert(zeros((i + 1) as nat) =~= zeros(i as nat).push('0'));
        i += 1;
    }
}

/// Appends the shortest numeral of a finite pattern.
pub fn push_number(out: &mut String, bits: u64)
    requires
        is_finite(bits),
    ensures
        final(out)@ == old(out)@ + number_text(bits),
{
    let ghost before = out@;
    let b: u64 = bits % SIGN;
    if bits >= SIGN {
        out.push('-');
    }
    let ghost signed = out@;
    if b == 0 {
        out.push('0');
        assert(out@ =~= before + number_text(bits));
        return ;
    }
    let (ds, p) = shortest_digits(b);
    let n = ds.len();
    proof {
        let d = digits_value(ds@);
        let (d2, p2) = choose|d: nat, p: int| shortest(b as nat, d, p);
        lemma_shortest_unique(b as nat, d, p as int, d2, p2);
        lemma_dec_of_digits(ds@);
        assert(magnitude_text(b as nat) == positional(ds@, p as int));
    }
    if p >= 0 {
        push_chars(out, ds.as_slice());
        push_zeros(out, p as usize);
    } else {
        let f: usize = (-p) as usize;
        if n > f {
            push_chars(out, slice_subrange(ds.as_slice(), 0, n - f));
            out.push('.');
            push_chars(out, slice_subrange(ds.as_slice(), n - f, n));
            assert(ds@.subrange(0, n - f) =~= ds@.take(n - f));
            assert(ds@.subrange(n - f, n as int) =~= ds@.skip(n - f));
        } else {
            out.push('0');
            out.push('.');
            push_zeros(out, f - n);
            push_chars(out, ds.as_slice());
        }
    }
    assert(out@ =~= signed + positional(ds@, p as int));
    assert(out@ =~= before + number_text(bits));
}

/// The search for the shortest numeral from the power `start - t` downwards.
proof fn lemma_search(b: nat, start: nat, t: nat)
    requires
        0 < b < INFINITY,
        t <= start + 1074,
        forall|c: nat| !#[trigger] rounds_to(c, start - t, b),
    ensures
        exists|d: nat, p: int| shortest(b, d, p),
    decreases start + 1074 - t,
{
    let u = pow2(1074) * ten(start);
    lemma_pow2_pos(1074);
    lemma_ten(start);
    assert(u > 0) by (nonlinear_arith)
        requires
            u == pow2(1074) * ten(start),
            pow2(1074) > 0,
            ten(start) > 0,
    ;
    if t == start + 1074 {
        let z = magnitude(b) * ten(t);
        let (d, r) = (z / u, z % u);
        vstd::arithmetic::div_mod::lemma_fundamental_div_mod(z as int, u as int);
        assert(d * u == u * d) by (nonlinear_arith);
        lemma_exact(b, start, d, r);
        lemma_gap((b - 1) as nat);
        lemma_ten(t);
        let (g, k) = (gap((b - 1) as nat), ten(t));
        assert(g * k > 0) by (nonlinear_arith)
            requires
                g > 0,
                k > 0,
        ;
        lemma_candidate(b, start, t, d);
        assert(rounds_to(d, start - t, b));
    } else {
        let t1 = t + 1;
        let z = magnitude(b) * ten(t1);
        let (d, r) = (z / u, z % u);
        vstd::arithmetic::div_mod::lemma_fundamental_div_mod(z as int, u as int);
        assert(d * u == u * d) by (nonlinear_arith);
        assert(split_at(b, start, t1, d, r));
        let (below, above) = (low_fits(b, t1, r), high_fits(b, start, t1, r));
        if below || above {
            let up = above && (!below || 2 * r >= u);
            let best = if up {
                d + 1
            } else {
                d
            };
            let p = start - t1;
            assert(p + 1 == start - t);
            lemma_best(b, start, t1, d, r, up);
            lemma_no_higher(b, p);
            assert(shortest(b, best, p));
        } else {
            lemma_none(b, start, t1, d, r);
            lemma_search(b, start, t1);
        }
    }
}

/// The shortest numeral of a positive finite pattern, as digits and a power.
pub proof fn lemma_shortest(b: nat) -> (r: (nat, int))
    requires
        0 < b < INFINITY,
    ensures
        shortest(b, r.0, r.1),
        r.0 > 0,
        magnitude_text(b) == positional(dec(r.0), r.1),
{
    lemma_big_start(b);
    lemma_start(b, 400);
    lemma_search(b, 400, 0);
    let (d, p) = choose|d: nat, p: int| shortest(b, d, p);
    lemma_positive(b, p, d);
    (d, p)
}

proof fn lemma_zeros(ds: Seq<char>, n: nat)
    ensures
        digits_value(zeros(n) + ds) == digits_value(ds),
        digits_value(ds + zeros(n)) == digits_value(ds) * ten(n),
{
    lemma_runs(zeros(n), '0');
    lemma_digits_value_concat(zeros(n), ds);
    lemma_digits_value_concat(ds, zeros(n));
    lemma_ten(ds.len());
    lemma_ten(n);
    let k = ten(ds.len());
    assert(0 * k == 0) by (nonlinear_arith);
}

/// A positional numeral holds digits and at most one point.
proof fn lemma_positional(ds: Seq<char>, p: int)
    requires
        all_digits(ds),
        ds.len() > 0,
    ensures
        positional(ds, p).len() > 0,
        is_digit(positional(ds, p)[0]),
        forall|i: int|
            0 <= i < positional(ds, p).len() ==> is_digit(#[trigger] positional(ds, p)[i])
                || positional(ds, p)[i] == '.',
        ({
            let v = decimal_value(positional(ds, p));
            let d = digits_value(ds);
            v == if p >= 0 {
                Some((d * ten(p as nat), 0int))
            } else {
                Some((d, p))
            }
        }),
{
    let s = positional(ds, p);
    let n = ds.len() as int;
    assert(is_digit(ds[0]));
    assert forall|i: int| 0 <= i < s.len() implies is_digit(#[trigger] s[i]) || s[i] == '.' by {
        if p >= 0 {
            if i < n {
                assert(s[i] == ds[i]);
            }
        } else if n > -p {
            if i < n + p {
                assert(s[i] == ds[i]);
            } else if i > n + p {
                assert(s[i] == ds[i - 1]);
            }
        } else if i >= 2 - p - n {
            assert(s[i] == ds[i - (2 - p - n)]);
        }
    }
    let x = s.len() as int;
    lemma_index_where_is(s, exponent_mark(), x);
    assert(s.take(x) =~= s);
    if p >= 0 {
        let k = p as nat;
        assert forall|j: int| 0 <= j < x implies !is_char('.')(#[trigger] s[j]) by {
            if j < n {
                assert(is_digit(ds[j]));
            }
        }
        lemma_index_where_is(s, is_char('.'), x);
        lemma_zeros(ds, k);
        assert(s + Seq::<char>::empty() =~= s);
        assert forall|j: int| 0 <= j < x implies is_digit(#[trigger] s[j]) by {
            assert(!is_char('.')(s[j]));
        }
    } else if n > -p {
        let dot = n + p;
        assert forall|j: int| 0 <= j < dot implies !is_char('.')(#[trigger] s[j]) by {
            assert(is_digit(ds[j]));
        }
        lemma_index_where_is(s, is_char('.'), dot);
        let (whole, fraction) = (s.take(dot), s.skip(dot + 1));
        assert(whole =~= ds.take(dot));
        assert(fraction =~= ds.skip(dot));
        assert(whole + fraction =~= ds);
        assert forall|j: int| 0 <= j < whole.len() implies is_digit(#[trigger] whole[j]) by {
            assert(is_digit(ds[j]));
        }
        assert forall|j: int| 0 <= j < fraction.len() implies is_digit(#[trigger] fraction[j]) by {
            assert(is_digit(ds[dot + j]));
        }
    } else {
        let k = (-p - n) as nat;
        lemma_index_where_is(s, is_char('.'), 1);
        let (whole, fraction) = (s.take(1), s.skip(2));
        assert(whole =~= seq!['0']);
        assert(fraction =~= zeros(k) + ds);
        assert(whole + fraction =~= zeros(k + 1) + ds);
        lemma_zeros(ds, k + 1);
        assert forall|j: int| 0 <= j < fraction.len() implies is_digit(#[trigger] fraction[j]) by {
            if j >= k {
                assert(is_digit(ds[j - k]));
            }
        }
    }
}

/// What the numeral of a pattern looks like and what it is read as.
pub proof fn lemma_magnitude_text(b: nat)
    requires
        b < INFINITY,
    ensures
        magnitude_text(b).len() > 0,
        is_digit(magnitude_text(b)[0]),
        forall|i: int|
            0 <= i < magnitude_text(b).len() ==> is_digit(#[trigger] magnitude_text(b)[i])
                || magnitude_text(b)[i] == '.',
        magnitude_bits(magnitude_text(b)) == Some(b),
{
    let s = magnitude_text(b);
    if b == 0 {
        assert(s =~= positional(seq!['0'], 0));
        lemma_positional(seq!['0'], 0);
        lemma_ten(0);
        assert(seq!['0'] =~= Seq::<char>::empty().push('0'));
        lemma_digits_value_push(Seq::<char>::empty(), '0');
        assert(digits_value(Seq::<char>::empty()) == 0);
        assert(0 * ten(0) == 0) by (nonlinear_arith);
        lemma_zero_bits(0);
    } else {
        let (d, p) = lemma_shortest(b);
        let ds = dec(d);
        lemma_dec(d);
        lemma_positional(ds, p);
        assert(rounds_to(d, p, b));
        if p >= 0 {
            let e = d * ten(p as nat);
            lemma_ten(0);
            assert(e * ten(0) == e) by (nonlinear_arith)
                requires
                    ten(0) == 1,
            ;
            assert(num(e, 0) == num(d, p) && den(0) == den(p));
            lemma_round(num(e, 0), den(0), b);
        } else {
            lemma_ten((-p) as nat);
            lemma_round(num(d, p), den(p), b);
        }
    }
    reveal_strlit("inf");
    reveal_strlit("infinity");
    reveal_strlit("nan");
    assert(lower_text(s)[0] == s[0]);
}

/// The numeral of a finite number is read back as the number.
pub proof fn law_number_text_read_back(bits: u64)
    requires
        is_finite(bits),
    ensures
        number_bits(number_text(bits)) == Some(bits),
{
    let b = (bits % SIGN) as nat;
    lemma_magnitude_text(b);
    let s = number_text(bits);
    if bits >= SIGN {
        assert(s.skip(1) =~= magnitude_text(b));
    }
}

/// The numeral of a finite number holds digits, a point and a minus sign only.
pub proof fn lemma_number_text_plain(bits: u64)
    requires
        is_finite(bits),
    ensures
        number_text(bits).len() > 0,
        forall|i: int|
            0 <= i < number_text(bits).len() ==> is_digit(#[trigger] number_text(bits)[i])
                || number_text(bits)[i] == '.' || number_text(bits)[i] == '-',
{
    let b = (bits % SIGN) as nat;
    lemma_magnitude_text(b);
    let s = number_text(bits);
    assert forall|i: int| 0 <= i < s.len() implies is_digit(#[trigger] s[i]) || s[i] == '.' || s[i]
        == '-' by {
        if bits >= SIGN {
            if i > 0 {
                assert(s[i] == magnitude_text(b)[i - 1]);
            }
        }
    }
}

} // verus!
