//! Decimal numerals: integers as text and text as integers.

use vstd::arithmetic::power::pow;
use vstd::prelude::*;
use vstd::slice::slice_subrange;

use crate::text::{digit, is_digit};

verus! {

pub open spec fn digit_value(c: char) -> nat {
    (c as u32 - '0' as u32) as nat
}

pub open spec fn all_digits(s: Seq<char>) -> bool {
    forall|i: int| 0 <= i < s.len() ==> is_digit(#[trigger] s[i])
}

/// The number that a sequence of decimal digits denotes.
pub open spec fn digits_value(s: Seq<char>) -> nat
    decreases s.len(),
{
    if s.len() == 0 {
        0
    } else {
        10 * digits_value(s.drop_last()) + digit_value(s.last())
    }
}

pub open spec fn digit_char(d: nat) -> char {
    (d + '0' as u32) as char
}

/// The decimal numeral of `n`, without leading zeros.
pub open spec fn dec(n: nat) -> Seq<char>
    decreases n,
{
    if n < 10 {
        seq![digit_char(n)]
    } else {
        dec(n / 10).push(digit_char(n % 10))
    }
}

/// The decimal numeral of `n`, with a minus sign if it is negative.
pub open spec fn int_text(n: int) -> Seq<char> {
    if n < 0 {
        seq!['-'] + dec((-n) as nat)
    } else {
        dec(n as nat)
    }
}

/// The number that an unsigned numeral denotes: digits, after at most one
/// plus sign.
pub open spec fn unsigned_value(s: Seq<char>) -> Option<nat> {
    let body = if s.len() > 0 && s[0] == '+' {
        s.skip(1)
    } else {
        s
    };
    if body.len() > 0 && all_digits(body) {
        Some(digits_value(body))
    } else {
        None
    }
}

/// `unsigned_value` where it is at most `max`.
pub open spec fn unsigned_upto(s: Seq<char>, max: nat) -> Option<nat> {
    match unsigned_value(s) {
        Some(n) => if n <= max {
            Some(n)
        } else {
            None
        },
        None => None,
    }
}

/// The number that a signed numeral denotes, where it fits in 64 bits.
pub open spec fn signed_value(s: Seq<char>) -> Option<int> {
    if s.len() > 0 && s[0] == '-' {
        let body = s.skip(1);
        if body.len() > 0 && all_digits(body) && digits_value(body) <= -i64::MIN {
            Some(-(digits_value(body) as int))
        } else {
            None
        }
    } else {
        match unsigned_upto(s, i64::MAX as nat) {
            Some(n) => Some(n as int),
            None => None,
        }
    }
}

pub proof fn lemma_digits_value_push(s: Seq<char>, c: char)
    ensures
        digits_value(s.push(c)) == 10 * digits_value(s) + digit_value(c),
{
    assert(s.push(c).drop_last() =~= s);
}

pub proof fn lemma_digits_value_prefix(s: Seq<char>, i: int)
    requires
        0 <= i <= s.len(),
    ensures
        digits_value(s.take(i)) <= digits_value(s),
    decreases s.len() - i,
{
    if i < s.len() {
        lemma_digits_value_prefix(s, i + 1);
        assert(s.take(i + 1) =~= s.take(i).push(s[i]));
        lemma_digits_value_push(s.take(i), s[i]);
    } else {
        assert(s.take(i) =~= s);
    }
}

pub proof fn lemma_digits_value_concat(a: Seq<char>, b: Seq<char>)
    ensures
        digits_value(a + b) == digits_value(a) * pow(10, b.len()) + digits_value(b),
    decreases b.len(),
{
    reveal(pow);
    if b.len() == 0 {
        assert(a + b =~= a);
        assert(digits_value(a) * 1 == digits_value(a)) by (nonlinear_arith);
    } else {
        let t = b.drop_last();
        lemma_digits_value_concat(a, t);
        assert((a + b).drop_last() =~= a + t);
        let (x, p) = (digits_value(a) as int, pow(10, t.len()));
        assert(10 * (x * p) == x * (10 * p)) by (nonlinear_arith);
    }
}

pub proof fn lemma_digits_value_bound(s: Seq<char>)
    requires
        all_digits(s),
    ensures
        digits_value(s) < pow(10, s.len()),
    decreases s.len(),
{
    reveal(pow);
    if s.len() > 0 {
        assert forall|i: int| 0 <= i < s.drop_last().len() implies is_digit(
            #[trigger] s.drop_last()[i],
        ) by {
            assert(is_digit(s[i]));
        }
        lemma_digits_value_bound(s.drop_last());
        assert(is_digit(s.last()));
    }
}

pub proof fn lemma_dec(n: nat)
    ensures
        dec(n).len() > 0,
        all_digits(dec(n)),
        digits_value(dec(n)) == n,
    decreases n,
{
    if n < 10 {
        assert(dec(n).drop_last() =~= Seq::<char>::empty());
        assert(digits_value(dec(n)) == n) by {
            assert(digits_value(Seq::<char>::empty()) == 0);
            assert(dec(n).last() == digit_char(n));
        }
    } else {
        lemma_dec(n / 10);
        lemma_digits_value_push(dec(n / 10), digit_char(n % 10));
        assert forall|i: int| 0 <= i < dec(n).len() implies is_digit(#[trigger] dec(n)[i]) by {
            if i < dec(n / 10).len() {
                assert(dec(n)[i] == dec(n / 10)[i]);
            }
        }
    }
}

/// A digit string without leading zeros is the numeral of its value.
pub proof fn lemma_dec_of_digits(s: Seq<char>)
    requires
        all_digits(s),
        s.len() > 0,
        s[0] != '0' || s.len() == 1,
    ensures
        dec(digits_value(s)) == s,
    decreases s.len(),
{
    let t = s.drop_last();
    let c = s.last();
    assert(is_digit(c));
    assert(s =~= t.push(c));
    assert(digit_char(digit_value(c)) == c);
    if t.len() == 0 {
        assert(digits_value(t) == 0);
        assert(seq![c] =~= s);
    } else {
        assert forall|i: int| 0 <= i < t.len() implies is_digit(#[trigger] t[i]) by {
            assert(is_digit(s[i]));
        }
        lemma_dec_of_digits(t);
        assert(t[0] == s[0]);
        lemma_nonzero(t);
    }
}

proof fn lemma_nonzero(s: Seq<char>)
    requires
        all_digits(s),
        s.len() > 0,
        s[0] != '0',
    ensures
        digits_value(s) > 0,
    decreases s.len(),
{
    assert(is_digit(s[0]));
    if s.len() > 1 {
        let t = s.drop_last();
        assert forall|i: int| 0 <= i < t.len() implies is_digit(#[trigger] t[i]) by {
            assert(is_digit(s[i]));
        }
        lemma_nonzero(t);
    }
}

/// The numeral of a number in the range of `i64` is read back as that number.
pub proof fn law_int_text_read_back(n: int)
    requires
        i64::MIN <= n <= i64::MAX,
    ensures
        signed_value(int_text(n)) == Some(n),
{
    if n < 0 {
        lemma_dec((-n) as nat);
        assert(int_text(n).skip(1) =~= dec((-n) as nat));
    } else {
        lemma_dec(n as nat);
        assert(is_digit(dec(n as nat)[0]));
    }
}

/// Whether every character is a decimal digit.
pub fn digits_only(s: &[char]) -> (r: bool)
    ensures
        r == all_digits(s@),
{
    for i in 0..s.len()
        invariant
            forall|j: int| 0 <= j < i ==> is_digit(#[trigger] s@[j]),
    {
        if !digit(s[i]) {
            assert(!is_digit(s@[i as int]));
            return false;
        }
    }
    true
}

/// The number that digits denote, where it is at most `max`.
pub fn read_digits(s: &[char], max: u64) -> (r: Option<u64>)
    requires
        all_digits(s@),
    ensures
        r matches Some(n) ==> n == digits_value(s@) && n <= max,
        r is None ==> digits_value(s@) > max,
{
    let mut v: u64 = 0;
    for i in 0..s.len()
        invariant
            all_digits(s@),
            v == digits_value(s@.take(i as int)),
            v <= max,
    {
        assert(is_digit(s@[i as int]));
        let d: u64 = (s[i] as u32 - '0' as u32) as u64;
        assert(s@.take(i + 1) =~= s@.take(i as int).push(s@[i as int]));
        proof {
            lemma_digits_value_push(s@.take(i as int), s@[i as int]);
        }
        if v as u128 * 10 + d as u128 > max as u128 {
            proof {
                lemma_digits_value_prefix(s@, i + 1);
            }
            return None;
        }
        v = v * 10 + d;
    }
    assert(s@.take(s@.len() as int) =~= s@);
    Some(v)
}

/// Reads an unsigned numeral of at most `max`.
pub fn read_unsigned(s: &[char], max: u64) -> (r: Option<u64>)
    ensures
        r matches Some(n) ==> unsigned_upto(s@, max as nat) == Some(n as nat),
        r is None ==> unsigned_upto(s@, max as nat) is None,
{
    let body = if s.len() > 0 && s[0] == '+' {
        assert(s@.skip(1) =~= s@.subrange(1, s@.len() as int));
        slice_subrange(s, 1, s.len())
    } else {
        s
    };
    if body.len() == 0 || !digits_only(body) {
        return None;
    }
    read_digits(body, max)
}

/// Reads a signed numeral.
pub fn read_signed(s: &[char]) -> (r: Option<i64>)
    ensures
        r matches Some(n) ==> signed_value(s@) == Some(n as int),
        r is None ==> signed_value(s@) is None,
{
    if s.len() > 0 && s[0] == '-' {
        assert(s@.skip(1) =~= s@.subrange(1, s@.len() as int));
        let body = slice_subrange(s, 1, s.len());
        if body.len() == 0 || !digits_only(body) {
            return None;
        }
        match read_digits(body, 0x8000_0000_0000_0000) {
            Some(n) => Some((-(n as i128)) as i64),
            None => None,
        }
    } else {
        match read_unsigned(s, 0x7fff_ffff_ffff_ffff) {
            Some(n) => Some(n as i64),
            None => None,
        }
    }
}

/// Appends the decimal numeral of `n`.
pub fn push_unsigned(out: &mut String, n: u64)
    ensures
        final(out)@ == old(out)@ + dec(n as nat),
    decreases n,
{
    if n >= 10 {
        push_unsigned(out, n / 10);
    }
    let d: u8 = (n % 10) as u8;
    out.push((d + 48) as char);
    assert(out@ =~= old(out)@ + dec(n as nat));
}

/// Appends the decimal numeral of `n`, with its sign.
pub fn push_signed(out: &mut String, n: i64)
    ensures
        final(out)@ == old(out)@ + int_text(n as int),
{
    if n < 0 {
        out.push('-');
        push_unsigned(out, (-(n as i128)) as u64);
        assert(out@ =~= old(out)@ + int_text(n as int));
    } else {
        push_unsigned(out, n as u64);
    }
}

/// A number of 64 bits, read as a signed number.
pub open spec fn as_signed(v: nat) -> int {
    if v < 0x8000_0000_0000_0000 {
        v as int
    } else {
        v - 0x1_0000_0000_0000_0000
    }
}

pub fn to_signed(v: u64) -> (r: i64)
    ensures
        r == as_signed(v as nat),
{
    if v < 0x8000_0000_0000_0000 {
        v as i64
    } else {
        (v as i128 - 0x1_0000_0000_0000_0000i128) as i64
    }
}

} // verus!
