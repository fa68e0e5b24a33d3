//! Laws of the values that everything else is made of: numerals, names, orders,
//! timestamps and durations.

use vstd::arithmetic::power::pow;
use vstd::prelude::*;

use crate::config::retention_millis;
use crate::model::{
    clamp_ms, is_label_name, is_metric_name, key_order, labels_order, Key, LabelPairs,
};
use crate::numeral::{
    all_digits, as_signed, dec, digits_value, int_text, lemma_dec, lemma_digits_value_concat,
    signed_value, unsigned_upto, unsigned_value,
};
use crate::order::{char_order, lex_before, text_before, text_order};
use crate::text::is_digit;
use crate::textfmt::timestamp_value;

verus! {

/// A decimal digit has its value, and digits in front of others count as many
/// powers of ten more as there are others.
pub proof fn law_digits(d: int, a: Seq<char>, b: Seq<char>)
    requires
        0 <= d < 10,
    ensures
        digits_value(seq![]) == 0,
        digits_value(seq!["0123456789"@[d]]) == d,
        digits_value(a + b) == digits_value(a) * pow(10, b.len()) + digits_value(b),
{
    reveal_strlit("0123456789");
    let one = seq!["0123456789"@[d]];
    assert(one.drop_last() =~= seq![]);
    assert(digits_value(seq![]) == 0);
    assert(d == 0 || d == 1 || d == 2 || d == 3 || d == 4 || d == 5 || d == 6 || d == 7 || d == 8
        || d == 9);
    lemma_digits_value_concat(a, b);
}

/// The characters are decimal digits.
pub open spec fn are_digits(s: Seq<char>) -> bool {
    s.len() > 0 && forall|i: int| 0 <= i < s.len() ==> '0' <= #[trigger] s[i] <= '9'
}

/// An unsigned numeral is a row of digits, behind at most one plus sign, and has
/// their value; nothing else is one.
pub proof fn law_unsigned_numerals(s: Seq<char>, max: nat)
    ensures
        are_digits(s) ==> unsigned_value(s) == Some(digits_value(s)) && unsigned_value(
            seq!['+'] + s,
        ) == Some(digits_value(s)),
        !are_digits(s) && (s.len() == 0 || s[0] != '+' || !are_digits(s.skip(1))) ==> unsigned_value(
            s,
        ) is None,
        unsigned_value(s) matches Some(n) ==> unsigned_upto(s, max) == if n <= max {
            Some(n)
        } else {
            None
        },
        unsigned_value(s) is None ==> unsigned_upto(s, max) is None,
{
    assert((seq!['+'] + s).skip(1) =~= s);
    lemma_are_digits(s);
    lemma_are_digits(s.skip(1));
}

proof fn lemma_are_digits(s: Seq<char>)
    ensures
        are_digits(s) <==> s.len() > 0 && all_digits(s),
{
    if are_digits(s) {
        assert forall|i: int| 0 <= i < s.len() implies is_digit(#[trigger] s[i]) by {
            assert('0' <= s[i] <= '9');
        }
    }
    if s.len() > 0 && all_digits(s) {
        assert forall|i: int| 0 <= i < s.len() implies '0' <= #[trigger] s[i] <= '9' by {
            assert(is_digit(s[i]));
        }
    }
}

/// A signed numeral is an unsigned one, or digits behind a minus sign, whose
/// value is in the range of 64 bits; a timestamp is one from the epoch to the
/// end of the year 9999.
pub proof fn law_signed_numerals(s: Seq<char>)
    ensures
        are_digits(s) ==> {
            let n = digits_value(s) as int;
            &&& n <= i64::MAX ==> signed_value(s) == Some(n) && signed_value(seq!['+'] + s) == Some(
                n,
            )
            &&& n > i64::MAX ==> signed_value(s) is None && signed_value(seq!['+'] + s) is None
            &&& -n >= i64::MIN ==> signed_value(seq!['-'] + s) == Some(-n)
            &&& -n < i64::MIN ==> signed_value(seq!['-'] + s) is None
            &&& n <= 253402300799000 ==> timestamp_value(s) == Some(n)
            &&& n > 253402300799000 ==> timestamp_value(s) is None
            &&& n > 0 ==> timestamp_value(seq!['-'] + s) is None
        },
        !are_digits(s) && (s.len() == 0 || (s[0] != '+' && s[0] != '-') || !are_digits(s.skip(1)))
            ==> signed_value(s) is None && timestamp_value(s) is None,
{
    lemma_are_digits(s);
    lemma_are_digits(s.skip(1));
    assert((seq!['+'] + s).skip(1) =~= s);
    assert((seq!['-'] + s).skip(1) =~= s);
    if are_digits(s) {
        assert('0' <= s[0] <= '9');
    }
}

/// The numeral of a number has no leading zero and its value, and a minus sign
/// if it is negative.
pub proof fn law_numeral_of_a_number(n: nat)
    ensures
        are_digits(dec(n)),
        digits_value(dec(n)) == n,
        dec(n).len() > 1 ==> dec(n)[0] != '0',
        int_text(n as int) == dec(n),
        n > 0 ==> int_text(-(n as int)) == seq!['-'] + dec(n),
{
    lemma_dec(n);
    lemma_are_digits(dec(n));
    lemma_leading_digit(n);
}

proof fn lemma_leading_digit(n: nat)
    ensures
        n > 0 ==> dec(n)[0] != '0',
    decreases n,
{
    if n >= 10 {
        lemma_leading_digit(n / 10);
        lemma_dec(n / 10);
        assert(dec(n)[0] == dec(n / 10)[0]);
    }
}

/// A number of 64 bits, read as a signed one, is the number that differs from it
/// by no or one whole round.
pub proof fn law_signed_reading(v: nat)
    requires
        v < 0x1_0000_0000_0000_0000,
    ensures
        i64::MIN <= as_signed(v) <= i64::MAX,
        as_signed(v) == v || as_signed(v) == v - 0x1_0000_0000_0000_0000,
{
}

/// The retention in milliseconds is a thousand times that in seconds, where it
/// fits in 64 bits.
pub proof fn law_retention_in_milliseconds(seconds: nat)
    requires
        seconds * 1000 <= i64::MAX,
    ensures
        retention_millis(seconds) == seconds * 1000,
{
}

/// A number of milliseconds that is a timestamp stays, and every other one
/// becomes the nearest one.
pub proof fn law_nearest_timestamp(ms: int, other: int)
    ensures
        0 <= clamp_ms(ms) <= 253402300799000,
        0 <= ms <= 253402300799000 ==> clamp_ms(ms) == ms,
        ms <= other <= 253402300799000 && other >= 0 ==> clamp_ms(ms) <= other,
        0 <= other <= ms && other <= 253402300799000 ==> other <= clamp_ms(ms),
{
}

/// The character may stand at the beginning of a metric name.
pub open spec fn begins_name(c: char) -> bool {
    'a' <= c <= 'z' || 'A' <= c <= 'Z' || c == '_' || c == ':'
}

/// A metric name begins with a letter, an underscore or a colon, and goes on
/// with these and with digits; a label name is one without colons.
pub proof fn law_names(s: Seq<char>, c: char)
    ensures
        !is_metric_name(seq![]),
        is_metric_name(seq![c]) <==> begins_name(c),
        s.len() > 0 ==> (is_metric_name(s.push(c)) <==> is_metric_name(s) && (begins_name(c) || '0'
            <= c <= '9')),
        is_label_name(s) <==> is_metric_name(s) && !s.contains(':'),
{
    assert(seq![c][0] == c);
    if s.len() > 0 {
        let t = s.push(c);
        assert(t[0] == s[0]);
        assert(t[s.len() as int] == c);
        if is_metric_name(t) {
            assert forall|i: int| 0 <= i < s.len() implies crate::text::is_alpha(#[trigger] s[i])
                || is_digit(s[i]) || s[i] == '_' || s[i] == ':' by {
                assert(t[i] == s[i]);
            }
        }
    }
    if is_label_name(s) && s.contains(':') {
        let i = choose|i: int| 0 <= i < s.len() && s[i] == ':';
        assert(crate::text::is_alpha(s[i]) || is_digit(s[i]) || s[i] == '_');
    }
    if is_metric_name(s) && !s.contains(':') {
        assert forall|i: int| 0 <= i < s.len() implies crate::text::is_alpha(#[trigger] s[i])
            || is_digit(s[i]) || s[i] == '_' by {
            assert(s.contains(s[i]));
        }
    }
}

proof fn lemma_first_difference<T>(
    p: Seq<T>,
    x: T,
    a: Seq<T>,
    y: T,
    b: Seq<T>,
    before: spec_fn(T, T) -> bool,
)
    requires
        !before(x, x),
        forall|i: int| 0 <= i < p.len() ==> !before(#[trigger] p[i], p[i]),
        x != y,
    ensures
        lex_before(p + seq![x] + a, p + seq![y] + b, before) <==> before(x, y),
        lex_before(p, p + seq![x] + a, before),
        !lex_before(p + seq![x] + a, p, before),
    decreases p.len(),
{
    let (s, t) = (p + seq![x] + a, p + seq![y] + b);
    if p.len() == 0 {
        assert(s[0] == x && t[0] == y);
    } else {
        let q = p.drop_first();
        assert(s.drop_first() =~= q + seq![x] + a);
        assert(t.drop_first() =~= q + seq![y] + b);
        assert(s[0] == p[0] && t[0] == p[0]);
        assert(!before(p[0], p[0]));
        assert forall|i: int| 0 <= i < q.len() implies !before(#[trigger] q[i], q[i]) by {
            assert(q[i] == p[i + 1]);
            assert(!before(p[i + 1], p[i + 1]));
        }
        lemma_first_difference(q, x, a, y, b, before);
    }
}

/// Of two texts the one with the smaller character at the first difference is
/// the first one, and a text comes before those that go on behind it.
pub proof fn law_order_of_texts(p: Seq<char>, x: char, a: Seq<char>, y: char, b: Seq<char>)
    requires
        x != y,
    ensures
        text_before(p + seq![x] + a, p + seq![y] + b) <==> x < y,
        text_before(p, p + seq![x] + a),
        !text_before(p + seq![x] + a, p),
        text_order()(p, p + seq![x] + a),
        text_order()(p + seq![x] + a, p + seq![y] + b) <==> x < y,
{
    lemma_first_difference(p, x, a, y, b, char_order());
}

/// Series are ordered by their name, and under one name by their label sets: by
/// the first label that differs, its name before its value.
pub proof fn law_order_of_series(
    name: Seq<char>,
    other: Seq<char>,
    p: LabelPairs,
    x: (Seq<char>, Seq<char>),
    a: LabelPairs,
    y: (Seq<char>, Seq<char>),
    b: LabelPairs,
)
    requires
        x != y,
    ensures
        ({
            let (k, l): (Key, Key) = ((name, p + seq![x] + a), (name, p + seq![y] + b));
            let less = text_before(x.0, y.0) || (x.0 == y.0 && text_before(x.1, y.1));
            &&& labels_order()(k.1, l.1) <==> less
            &&& key_order()(k, l) <==> less
            &&& key_order()((name, p), k)
            &&& name != other ==> (key_order()(k, (other, l.1)) <==> text_before(name, other))
        }),
{
    let order = crate::model::label_pair_order();
    crate::order::lemma_text_order();
    crate::model::lemma_labels_order();
    assert(!order(x, x));
    assert forall|i: int| 0 <= i < p.len() implies !order(#[trigger] p[i], p[i]) by {
        assert(!order(p[i], p[i]));
    }
    lemma_first_difference(p, x, a, y, b, order);
    assert(!text_order()(name, name));
}

} // verus!
