//! Laws of binary64 patterns: which number each denotes, which one is nearest to
//! a ratio, and how a number is written.

use vstd::arithmetic::power2::pow2;
use vstd::prelude::*;

use crate::binary64::{
    den, is_nan, lemma_round_is_nearest, lemma_ten, magnitude, miss, nearest, num, round,
    same_number, ten, INFINITY, SIGN,
};
use crate::decimal::{
    is_finite, lemma_magnitude_text, lemma_shortest, magnitude_text, number_bits, number_text,
    positional, rounds_to, zeros,
};
use crate::decimal_laws::{
    denominator, is_numeral, law_numeral_denotes_its_number, numeral_text, numerator, Numeral,
};
use crate::numeral::{all_digits, dec, digits_value, lemma_dec};
use crate::text::is_digit;

verus! {

/// The pattern with an exponent and a fraction.
pub open spec fn pattern(e: nat, f: nat) -> nat {
    e * 4503599627370496 + f
}

/// The number that it denotes, in units of the least positive number.
pub open spec fn worth(e: nat, f: nat) -> nat {
    if e == 0 {
        f
    } else {
        (4503599627370496 + f) * pow2((e - 1) as nat)
    }
}

/// The exponent and the fraction are those of a non-negative number, or of the
/// infinity.
pub open spec fn is_pattern(e: nat, f: nat) -> bool {
    f < 4503599627370496 && (e < 2047 || (e == 2047 && f == 0))
}

/// How far apart two numbers are.
pub open spec fn apart(x: nat, y: nat) -> int {
    if x < y {
        y - x
    } else {
        x - y
    }
}

proof fn lemma_pattern(e: nat, f: nat)
    requires
        is_pattern(e, f),
    ensures
        magnitude(pattern(e, f)) == worth(e, f),
        pattern(e, f) <= INFINITY,
        pattern(e, f) % 2 == f % 2,
{
    let b = pattern(e, f);
    assert(b / 4503599627370496 == e && b % 4503599627370496 == f);
}

/// The pattern nearest to a ratio is at least as near to it as every other one,
/// and if another one is as near, its fraction is even.
pub proof fn law_nearest_pattern(n: nat, m: nat, e: nat, f: nat, g: nat, h: nat)
    requires
        is_pattern(e, f),
        is_pattern(g, h),
        nearest(n, m, pattern(e, f)),
    ensures
        apart(n * pow2(1074), worth(e, f) * m) <= apart(n * pow2(1074), worth(g, h) * m),
        apart(n * pow2(1074), worth(e, f) * m) == apart(n * pow2(1074), worth(g, h) * m) ==> (e == g
            && f == h) || f % 2 == 0,
{
    lemma_pattern(e, f);
    lemma_pattern(g, h);
    let (b, c) = (pattern(e, f), pattern(g, h));
    if c != b {
        assert(miss(n, m, b) <= miss(n, m, c));
    } else {
        assert(e == b / 4503599627370496 && g == c / 4503599627370496);
        assert(f == b % 4503599627370496 && h == c % 4503599627370496);
    }
}

/// Rounding gives the nearest pattern.
pub proof fn law_rounding(n: nat, m: nat)
    requires
        m > 0,
    ensures
        nearest(n, m, round(n, m)),
{
    lemma_round_is_nearest(n, m);
}

/// A pattern is that of no number if its exponent is the greatest one and its
/// fraction is not zero, and that of a finite one if the exponent is less. No
/// not-a-number equals anything; apart from these, each number equals itself
/// alone, and the two zeros equal each other.
pub proof fn law_equal_numbers(a: u64, b: u64)
    ensures
        ({
            let e = a as nat / 4503599627370496 % 2048;
            let f = a as nat % 4503599627370496;
            &&& is_nan(a) <==> e == 2047 && f > 0
            &&& is_finite(a) <==> e < 2047
        }),
        same_number(a, a) <==> !is_nan(a),
        same_number(a, b) ==> a == b || ((a == 0 || a == 0x8000_0000_0000_0000) && (b == 0 || b
            == 0x8000_0000_0000_0000)),
        same_number(0, 0x8000_0000_0000_0000) && same_number(0x8000_0000_0000_0000, 0),
        same_number(a, b) == same_number(b, a),
{
    let m = a as nat % 0x8000_0000_0000_0000;
    let e = a as nat / 4503599627370496 % 2048;
    let f = a as nat % 4503599627370496;
    assert(m == e * 4503599627370496 + f);
}

/// The numeral of a finite number has a minus sign exactly if the number has,
/// and behind it digits with at most a point among them: no exponent.
pub proof fn law_number_text_is_positional(bits: u64)
    requires
        is_finite(bits),
    ensures
        ({
            let s = number_text(bits);
            let t = if bits >= SIGN {
                s.skip(1)
            } else {
                s
            };
            &&& bits >= SIGN ==> s[0] == '-'
            &&& t.len() > 0 && '0' <= t[0] <= '9'
            &&& forall|i: int|
                0 <= i < t.len() ==> '0' <= #[trigger] t[i] <= '9' || t[i] == '.'
        }),
{
    let b = (bits % SIGN) as nat;
    lemma_magnitude_text(b);
    let s = number_text(bits);
    if bits >= SIGN {
        assert(s.skip(1) =~= magnitude_text(b));
    }
    let t = magnitude_text(b);
    assert forall|i: int| 0 <= i < t.len() implies '0' <= #[trigger] t[i] <= '9' || t[i] == '.' by {
        assert(is_digit(t[i]) || t[i] == '.');
    }
}

/// The positional numeral as its parts.
spec fn parts(ds: Seq<char>, p: int, sign: Seq<char>) -> Numeral {
    let (whole, fraction) = if p >= 0 {
        (ds + zeros(p as nat), Seq::<char>::empty())
    } else if ds.len() > -p {
        (ds.take(ds.len() + p), ds.skip(ds.len() + p))
    } else {
        (seq!['0'], zeros((-p - ds.len()) as nat) + ds)
    };
    Numeral {
        sign,
        whole,
        point: p < 0,
        fraction,
        mark: seq![],
        exponent_sign: seq![],
        exponent: seq![],
    }
}

proof fn lemma_parts(ds: Seq<char>, p: int, sign: Seq<char>)
    requires
        ds.len() > 0,
        all_digits(ds),
        sign == seq!['-'] || sign.len() == 0,
    ensures
        is_numeral(parts(ds, p, sign)),
        numeral_text(parts(ds, p, sign)) == sign + positional(ds, p),
        parts(ds, p, sign).fraction.len() == if p < 0 {
            -p
        } else {
            0
        },
{
    let x = parts(ds, p, sign);
    let none = Seq::<char>::empty();
    assert forall|i: int| 0 <= i < x.whole.len() implies is_digit(#[trigger] x.whole[i]) by {
        if p >= 0 {
            if i < ds.len() {
                assert(is_digit(ds[i]));
            }
        } else if ds.len() > -p {
            assert(is_digit(ds[i]));
        }
    }
    assert forall|i: int| 0 <= i < x.fraction.len() implies is_digit(#[trigger] x.fraction[i]) by {
        if p < 0 {
            if ds.len() > -p {
                assert(is_digit(ds[i + ds.len() + p]));
            } else {
                let k = -p - ds.len();
                if i >= k {
                    assert(is_digit(ds[i - k]));
                }
            }
        }
    }
    assert(none + (none + none) =~= none);
    assert(numeral_text(x) =~= sign + positional(ds, p));
}

/// The numeral of a number is the shortest: it is written without exponent, and
/// no numeral without exponent that is read as the number has fewer digits
/// behind the point.
pub proof fn law_number_text_is_shortest(bits: u64, y: Numeral)
    requires
        is_finite(bits),
        is_numeral(y),
        y.mark.len() == 0,
        number_bits(numeral_text(y)) == Some(bits),
    ensures
        exists|x: Numeral| #[trigger]
            is_numeral(x) && x.mark.len() == 0 && numeral_text(x) == number_text(bits)
                && x.fraction.len() <= y.fraction.len(),
{
    let b = (bits % SIGN) as nat;
    let sign = if bits >= SIGN {
        seq!['-']
    } else {
        seq![]
    };
    let s = number_text(bits);
    assert(s =~= sign + magnitude_text(b));
    if b == 0 {
        let ds = seq!['0'];
        lemma_parts(ds, 0, sign);
        assert(positional(ds, 0) =~= magnitude_text(b));
        assert(is_numeral(parts(ds, 0, sign)));
    } else {
        let (d, p) = lemma_shortest(b);
        lemma_dec(d);
        lemma_parts(dec(d), p, sign);
        assert(is_numeral(parts(dec(d), p, sign)));
        if p < 0 {
            law_numeral_denotes_its_number(y);
            let n = y.fraction.len();
            let c = digits_value(y.whole + y.fraction);
            lemma_ten(0);
            lemma_ten(n);
            assert(digits_value(y.exponent) == 0);
            assert(numerator(y) == c);
            assert(denominator(y) == ten(n));
            assert(num(c, -(n as int)) == c && den(-(n as int)) == ten(n)) by {
                if n == 0 {
                    assert(c * ten(0) == c) by (nonlinear_arith)
                        requires
                            ten(0) == 1,
                    ;
                }
            }
            assert(rounds_to(c, -(n as int), b));
            assert(!(-(n as int) > p));
        }
    }
}

} // verus!
