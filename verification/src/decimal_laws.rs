//! Laws of reading numbers: which texts are numerals, and which number each of
//! them denotes.

use vstd::arithmetic::power::pow;
use vstd::prelude::*;

use crate::binary64::{
    den, is_nan, lemma_nearest_ratio, lemma_nearest_unique, lemma_round_is_nearest, lemma_ten,
    lemma_ten_adds, nearest, num, round, ten, INFINITY, SIGN,
};
use crate::decimal::{decimal_value, exponent_mark, exponent_value, is_sign, number_bits};
use crate::numeral::{all_digits, digits_value};
use crate::text::{
    index_of, index_where, is_char, is_digit, lemma_index_where, lemma_index_where_is, lower_text,
};

verus! {

/// The parts of a numeral: a sign, digits, a point and further digits, and an
/// exponent with its mark, its sign and its digits. All but the digits of the
/// mantissa may be missing.
pub struct Numeral {
    pub sign: Seq<char>,
    pub whole: Seq<char>,
    pub point: bool,
    pub fraction: Seq<char>,
    pub mark: Seq<char>,
    pub exponent_sign: Seq<char>,
    pub exponent: Seq<char>,
}

/// The text is empty, a plus or a minus sign.
pub open spec fn is_optional_sign(s: Seq<char>) -> bool {
    s == seq!['+'] || s == seq!['-'] || s.len() == 0
}

/// The parts make a numeral.
pub open spec fn is_numeral(x: Numeral) -> bool {
    &&& is_optional_sign(x.sign)
    &&& all_digits(x.whole)
    &&& all_digits(x.fraction)
    &&& x.whole.len() + x.fraction.len() > 0
    &&& !x.point ==> x.fraction.len() == 0
    &&& x.mark == seq!['e'] || x.mark == seq!['E'] || x.mark.len() == 0
    &&& x.mark.len() == 0 ==> x.exponent_sign.len() == 0 && x.exponent.len() == 0
    &&& x.mark.len() > 0 ==> x.exponent.len() > 0
    &&& is_optional_sign(x.exponent_sign)
    &&& all_digits(x.exponent)
}

/// The digits and the point.
pub open spec fn mantissa_text(x: Numeral) -> Seq<char> {
    if x.point {
        x.whole + seq!['.'] + x.fraction
    } else {
        x.whole
    }
}

/// The parts in a row.
pub open spec fn numeral_text(x: Numeral) -> Seq<char> {
    x.sign + (mantissa_text(x) + (x.mark + (x.exponent_sign + x.exponent)))
}

/// The ten-power of the exponent, where it is not negative.
pub open spec fn scale_up(x: Numeral) -> int {
    if x.exponent_sign == seq!['-'] {
        1
    } else {
        pow(10, digits_value(x.exponent))
    }
}

/// The ten-power of the exponent, where it is negative.
pub open spec fn scale_down(x: Numeral) -> int {
    if x.exponent_sign == seq!['-'] {
        pow(10, digits_value(x.exponent))
    } else {
        1
    }
}

/// The numerator of the number that a numeral denotes, apart from its sign: the
/// digits as an integer, times ten to the exponent.
pub open spec fn numerator(x: Numeral) -> nat {
    (digits_value(x.whole + x.fraction) * scale_up(x)) as nat
}

/// Its denominator: ten to the number of digits behind the point, times ten to
/// the exponent with its sign turned.
pub open spec fn denominator(x: Numeral) -> nat {
    (pow(10, x.fraction.len()) * scale_down(x)) as nat
}

proof fn lemma_no_digits()
    ensures
        digits_value(Seq::<char>::empty()) == 0,
        pow(10, 0) == 1,
{
    lemma_ten(0);
}

/// The mantissa and the exponent of an unsigned numeral.
proof fn lemma_decimal_value(x: Numeral)
    requires
        is_numeral(x),
        x.sign.len() == 0,
    ensures
        ({
            let k = digits_value(x.exponent) as int;
            let e = if x.exponent_sign == seq!['-'] {
                -k
            } else {
                k
            };
            decimal_value(numeral_text(x)) == Some(
                (digits_value(x.whole + x.fraction), e - x.fraction.len()),
            )
        }),
        numeral_text(x).len() > 0,
        is_digit(numeral_text(x)[0]) || numeral_text(x)[0] == '.',
{
    lemma_no_digits();
    let s = numeral_text(x);
    let m = mantissa_text(x);
    let tail = x.exponent_sign + x.exponent;
    assert(s =~= m + (x.mark + tail));
    let n = m.len() as int;
    assert forall|j: int| 0 <= j < n implies is_digit(#[trigger] m[j]) || m[j] == '.' by {
        if j < x.whole.len() {
            assert(is_digit(x.whole[j]));
        } else if j > x.whole.len() {
            assert(is_digit(x.fraction[j - x.whole.len() - 1]));
        }
    }
    assert(s[0] == m[0]);
    assert forall|j: int| 0 <= j < n implies !exponent_mark()(#[trigger] s[j]) by {
        assert(s[j] == m[j]);
    }
    if x.mark.len() > 0 {
        assert(s[n] == x.mark[0]);
    } else {
        assert(tail =~= seq![]);
        assert(x.exponent =~= seq![]);
        assert(x.exponent_sign != seq!['-']);
        assert(s =~= m);
    }
    lemma_index_where_is(s, exponent_mark(), n);
    assert(s.take(n) =~= m);
    if x.mark.len() > 0 {
        assert(s.skip(n + 1) =~= tail);
        if x.exponent_sign.len() == 0 {
            assert(tail =~= x.exponent);
            assert(is_digit(tail[0]));
        } else {
            assert(tail[0] == x.exponent_sign[0]);
            assert(tail.skip(1) =~= x.exponent);
        }
    }
    let dot = x.whole.len() as int;
    assert forall|j: int| 0 <= j < dot implies !is_char('.')(#[trigger] m[j]) by {
        assert(is_digit(x.whole[j]));
        assert(m[j] == x.whole[j]);
    }
    lemma_index_where_is(m, is_char('.'), dot);
    assert(m.take(dot) =~= x.whole);
    if x.point {
        assert(m.skip(dot + 1) =~= x.fraction);
    } else {
        assert(x.fraction =~= seq![]);
    }
}

/// The ratio of a numeral's parts is that of its decimal form.
proof fn lemma_ratio(x: Numeral)
    requires
        is_numeral(x),
    ensures
        ({
            let k = digits_value(x.exponent) as int;
            let e = if x.exponent_sign == seq!['-'] {
                -k
            } else {
                k
            };
            let d = digits_value(x.whole + x.fraction);
            let p = e - x.fraction.len();
            &&& num(d, p) * denominator(x) == numerator(x) * den(p)
            &&& denominator(x) > 0
            &&& den(p) > 0
        }),
{
    let k = digits_value(x.exponent);
    let f = x.fraction.len();
    let d = digits_value(x.whole + x.fraction);
    lemma_ten(k);
    lemma_ten(f);
    lemma_ten(0);
    let (a, b) = (ten(k), ten(f));
    if x.exponent_sign == seq!['-'] {
        lemma_ten_adds(k, f);
        lemma_ten(k + f);
        let c = ten(k + f);
        assert(b * a == a * b && a * b > 0) by (nonlinear_arith)
            requires
                a > 0,
                b > 0,
        ;
        assert(d * 1 == d);
        assert(num(d, -(k + f)) == d) by {
            if k + f == 0 {
                assert(d * ten(0) == d) by (nonlinear_arith)
                    requires
                        ten(0) == 1,
                ;
            }
        }
        assert(den(-(k + f)) == c);
        assert(denominator(x) == c);
    } else {
        assert(b * 1 == b);
        assert(d * a >= 0) by (nonlinear_arith)
            requires
                a > 0,
                d >= 0,
        ;
        if k >= f {
            let p = (k - f) as nat;
            lemma_ten(p);
            lemma_ten_adds(p, f);
            let c = ten(p);
            assert((d * c) * b == (d * a) * 1) by (nonlinear_arith)
                requires
                    a == c * b,
            ;
        } else {
            let p = (f - k) as nat;
            lemma_ten(p);
            lemma_ten_adds(k, p);
            let c = ten(p);
            assert(d * b == (d * a) * c) by (nonlinear_arith)
                requires
                    b == a * c,
            ;
        }
    }
}

/// A numeral denotes the pattern nearest to its digits times ten to its signed
/// exponent, ties to even, with its sign.
pub proof fn law_numeral_denotes_its_number(x: Numeral)
    requires
        is_numeral(x),
    ensures
        number_bits(numeral_text(x)) matches Some(bits) && {
            &&& nearest(numerator(x), denominator(x), (bits % SIGN) as nat)
            &&& bits >= SIGN <==> x.sign == seq!['-']
        },
{
    let plain = Numeral { sign: seq![], ..x };
    let s = numeral_text(x);
    let t = numeral_text(plain);
    assert(t =~= mantissa_text(x) + (x.mark + (x.exponent_sign + x.exponent)));
    assert(s =~= x.sign + t);
    lemma_decimal_value(plain);
    lemma_ratio(x);
    assert(!is_sign(t[0]));
    if x.sign.len() == 0 {
        assert(s =~= t);
    } else {
        assert(s[0] == x.sign[0]);
        assert(s.skip(1) =~= t);
    }
    reveal_strlit("inf");
    reveal_strlit("infinity");
    reveal_strlit("nan");
    assert(lower_text(t)[0] == t[0]);
    let (d, p) = decimal_value(t)->0;
    lemma_round_is_nearest(num(d, p), den(p));
    let b = round(num(d, p), den(p));
    lemma_nearest_ratio(num(d, p), den(p), numerator(x), denominator(x), b);
}

/// Numerals that denote the same ratio with the same sign are read alike; so a
/// plus sign before the exponent, or before the whole, changes nothing.
pub proof fn law_equal_numerals_are_read_alike(x: Numeral, y: Numeral)
    requires
        is_numeral(x),
        is_numeral(y),
        numerator(x) * denominator(y) == numerator(y) * denominator(x),
        x.sign == seq!['-'] <==> y.sign == seq!['-'],
    ensures
        number_bits(numeral_text(x)) == number_bits(numeral_text(y)),
{
    law_numeral_denotes_its_number(x);
    law_numeral_denotes_its_number(y);
    lemma_ratio(x);
    lemma_ratio(y);
    let (a, b) = (number_bits(numeral_text(x))->0, number_bits(numeral_text(y))->0);
    lemma_nearest_ratio(
        numerator(x),
        denominator(x),
        numerator(y),
        denominator(y),
        (a % SIGN) as nat,
    );
    lemma_nearest_unique(
        numerator(y),
        denominator(y),
        (a % SIGN) as nat,
        (b % SIGN) as nat,
    );
}

/// A plus sign before the exponent changes nothing.
pub proof fn law_plus_before_exponent(x: Numeral)
    requires
        is_numeral(x),
        x.exponent_sign == seq!['+'],
    ensures
        number_bits(numeral_text(x)) == number_bits(
            numeral_text(Numeral { exponent_sign: seq![], ..x }),
        ),
{
    let y = Numeral { exponent_sign: seq![], ..x };
    assert(x.exponent_sign[0] == '+');
    assert(numerator(x) == numerator(y) && denominator(x) == denominator(y));
    law_equal_numerals_are_read_alike(x, y);
}

/// The words for the numbers that have no digits.
pub open spec fn is_number_word(s: Seq<char>) -> bool {
    lower_text(s) == "inf"@ || lower_text(s) == "infinity"@ || lower_text(s) == "nan"@
}

/// The words `inf`, `infinity` and `nan`, in whatever case and with whatever
/// sign, denote the infinity of that sign and a not-a-number.
pub proof fn law_number_words(sign: Seq<char>, s: Seq<char>)
    requires
        is_optional_sign(sign),
        is_number_word(s),
    ensures
        number_bits(sign + s) matches Some(bits) && {
            &&& bits >= SIGN <==> sign == seq!['-']
            &&& if lower_text(s) == "nan"@ {
                is_nan(bits)
            } else {
                bits % SIGN == INFINITY
            }
        },
{
    reveal_strlit("inf");
    reveal_strlit("infinity");
    reveal_strlit("nan");
    assert("inf"@[0] == 'i' && "infinity"@[0] == 'i' && "nan"@[0] == 'n');
    assert(lower_text(s).len() > 0);
    assert(lower_text(s)[0] == crate::text::lower(s[0]));
    assert(!is_sign(s[0]));
    if sign.len() == 0 {
        assert(sign + s =~= s);
    } else {
        assert((sign + s)[0] == sign[0]);
        assert((sign + s).skip(1) =~= s);
    }
    assert("inf"@.len() == 3 && "nan"@.len() == 3 && "infinity"@.len() == 8);
}

/// The parts of the text behind an exponent mark.
proof fn lemma_exponent_parts(tail: Seq<char>) -> (r: (Seq<char>, Seq<char>))
    requires
        exponent_value(tail) is Some,
    ensures
        is_optional_sign(r.0),
        all_digits(r.1),
        r.1.len() > 0,
        r.0 + r.1 == tail,
{
    if tail.len() > 0 && is_sign(tail[0]) {
        let r = (seq![tail[0]], tail.skip(1));
        assert(r.0 + r.1 =~= tail);
        r
    } else {
        let r = (Seq::<char>::empty(), tail);
        assert(r.0 + r.1 =~= tail);
        r
    }
}

/// The parts of a text that has a decimal value.
proof fn lemma_decimal_parts(t: Seq<char>) -> (x: Numeral)
    requires
        decimal_value(t) is Some,
    ensures
        is_numeral(x),
        x.sign.len() == 0,
        mantissa_text(x) + (x.mark + (x.exponent_sign + x.exponent)) == t,
{
    let n = index_where(t, exponent_mark());
    lemma_index_where(t, exponent_mark());
    let m = t.take(n);
    let dot = index_of(m, '.');
    lemma_index_where(m, is_char('.'));
    let fraction = if dot < m.len() {
        m.skip(dot + 1)
    } else {
        seq![]
    };
    let (exponent_sign, exponent) = if n < t.len() {
        lemma_exponent_parts(t.skip(n + 1))
    } else {
        (seq![], seq![])
    };
    let mark = if n < t.len() {
        seq![t[n]]
    } else {
        seq![]
    };
    let x = Numeral {
        sign: seq![],
        whole: m.take(dot),
        point: dot < m.len(),
        fraction,
        mark,
        exponent_sign,
        exponent,
    };
    assert(mantissa_text(x) =~= m);
    if n < t.len() {
        assert(exponent_mark()(t[n]));
        assert(mark + t.skip(n + 1) =~= t.skip(n));
    } else {
        assert(mark + (exponent_sign + exponent) =~= seq![]);
        assert(t.skip(n) =~= seq![]);
    }
    assert(m + t.skip(n) =~= t);
    x
}

/// Nothing but numerals and these words is read as a number.
pub proof fn law_only_numerals_are_numbers(s: Seq<char>)
    requires
        number_bits(s) is Some,
    ensures
        (exists|x: Numeral| is_numeral(x) && #[trigger] numeral_text(x) == s) || (exists|
            sign: Seq<char>,
            w: Seq<char>,
        |
            is_optional_sign(sign) && is_number_word(w) && #[trigger] (sign + w) == s),
{
    let signed = s.len() > 0 && is_sign(s[0]);
    let sign = if signed {
        seq![s[0]]
    } else {
        seq![]
    };
    let t = if signed {
        s.skip(1)
    } else {
        s
    };
    assert(sign + t =~= s);
    if !is_number_word(t) {
        let x = Numeral { sign, ..lemma_decimal_parts(t) };
        assert(is_numeral(x));
        assert(numeral_text(x) == s);
    }
}

} // verus!
