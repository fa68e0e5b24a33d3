//! Character sequences: classification, trimming, searching and equality.

use vstd::prelude::*;
use vstd::slice::slice_subrange;
use vstd::utf8::{decode_utf8, encode_scalar, encode_utf8, encode_utf8_first_scalar, valid_utf8};

verus! {

/// `String::push` appends one character.
pub assume_specification[ String::push ](s: &mut String, c: char)
    ensures
        final(s)@ == old(s)@.push(c),
;

/// `String::from_utf8` accepts exactly the byte sequences that are valid UTF-8
/// and then holds the characters that they encode.
#[verifier::external_body]
pub(crate) fn string_from_utf8(bytes: Vec<u8>) -> (r: Option<String>)
    ensures
        r is Some <==> valid_utf8(bytes@),
        r matches Some(s) ==> s@ == decode_utf8(bytes@),
{
    String::from_utf8(bytes).ok()
}

/// What `{:?}` prints of a string: the string in double quotes, with escapes.
pub uninterp spec fn debug_text(s: Seq<char>) -> Seq<char>;

/// `format!("{:?}")` on a string, under the name `debug_text`.
#[verifier::external_body]
pub(crate) fn debug_string(s: &str) -> (r: String)
    ensures
        r@ == debug_text(s@),
{
    format!("{s:?}")
}

/// The characters with the Unicode property White_Space.
pub open spec fn is_white(c: char) -> bool {
    let u = c as u32;
    ||| 0x09 <= u <= 0x0d
    ||| u == 0x20
    ||| u == 0x85
    ||| u == 0xa0
    ||| u == 0x1680
    ||| 0x2000 <= u <= 0x200a
    ||| u == 0x2028
    ||| u == 0x2029
    ||| u == 0x202f
    ||| u == 0x205f
    ||| u == 0x3000
}

pub fn white(c: char) -> (r: bool)
    ensures
        r == is_white(c),
{
    let u = c as u32;
    (0x09 <= u && u <= 0x0d) || u == 0x20 || u == 0x85 || u == 0xa0 || u == 0x1680 || (0x2000 <= u
        && u <= 0x200a) || u == 0x2028 || u == 0x2029 || u == 0x202f || u == 0x205f || u == 0x3000
}

pub open spec fn is_digit(c: char) -> bool {
    '0' <= c <= '9'
}

pub open spec fn is_alpha(c: char) -> bool {
    'a' <= c <= 'z' || 'A' <= c <= 'Z'
}

pub fn digit(c: char) -> (r: bool)
    ensures
        r == is_digit(c),
{
    '0' <= c && c <= '9'
}

pub fn alpha(c: char) -> (r: bool)
    ensures
        r == is_alpha(c),
{
    ('a' <= c && c <= 'z') || ('A' <= c && c <= 'Z')
}

/// ASCII upper-case letters in lower case, every other character as it is.
pub open spec fn lower(c: char) -> char {
    if 'A' <= c <= 'Z' {
        (c as u32 + 32) as char
    } else {
        c
    }
}

pub open spec fn lower_text(s: Seq<char>) -> Seq<char> {
    s.map_values(|c: char| lower(c))
}

/// The characters of a string.
pub fn to_chars(s: &str) -> (r: Vec<char>)
    ensures
        r@ == s@,
{
    let mut out: Vec<char> = Vec::new();
    for c in it: s.chars()
        invariant
            out@ == it.seq().take(it.index() as int),
    {
        out.push(c);
        assert(it.seq().take(it.index() + 1) =~= it.seq().take(it.index() as int).push(c));
    }
    out
}

/// The string made of the given characters.
pub fn from_chars(cs: &[char]) -> (r: String)
    ensures
        r@ == cs@,
{
    let mut out = String::new();
    push_chars(&mut out, cs);
    out
}

/// Appends the given characters.
pub fn push_chars(out: &mut String, cs: &[char])
    ensures
        final(out)@ == old(out)@ + cs@,
{
    let ghost start = out@;
    for i in 0..cs.len()
        invariant
            out@ == start + cs@.take(i as int),
    {
        out.push(cs[i]);
        assert(cs@.take(i + 1) =~= cs@.take(i as int).push(cs@[i as int]));
    }
    assert(cs@.take(cs@.len() as int) =~= cs@);
}

pub proof fn lemma_encode_utf8_injective(a: Seq<char>, b: Seq<char>)
    requires
        encode_utf8(a) == encode_utf8(b),
    ensures
        a == b,
{
    broadcast use vstd::utf8::encode_utf8_decode_utf8;
    assert(decode_utf8(encode_utf8(a)) == decode_utf8(encode_utf8(b)));
}

/// The encoding of two texts in a row.
pub proof fn lemma_encode_concat(a: Seq<char>, b: Seq<char>)
    ensures
        encode_utf8(a + b) == encode_utf8(a) + encode_utf8(b),
    decreases a.len(),
{
    if a.len() == 0 {
        assert(a + b =~= b);
        assert(encode_utf8(a) + encode_utf8(b) =~= encode_utf8(b));
    } else {
        assert((a + b).drop_first() =~= a.drop_first() + b);
        lemma_encode_concat(a.drop_first(), b);
        assert(encode_utf8(a + b) =~= encode_utf8(a) + encode_utf8(b));
    }
}

pub proof fn lemma_char_range(c: char)
    ensures
        0 <= c as int <= 0x10_ffff,
{
}

/// An ASCII character that a text does not hold does not occur in its encoding.
pub proof fn lemma_encode_lacks(s: Seq<char>, c: char)
    requires
        c <= '\u{7f}',
        !s.contains(c),
    ensures
        forall|i: int| 0 <= i < encode_utf8(s).len() ==> #[trigger] encode_utf8(s)[i] != c as u8,
    decreases s.len(),
{
    if s.len() > 0 {
        let e = encode_utf8(s);
        let t = s.drop_first();
        let n = encode_scalar(s[0] as u32).len() as int;
        let first = e[0];
        encode_utf8_first_scalar(s);
        assert(!t.contains(c)) by {
            if t.contains(c) {
                let i = choose|i: int| 0 <= i < t.len() && t[i] == c;
                assert(s[i + 1] == c);
            }
        }
        lemma_encode_lacks(t, c);
        lemma_char_range(c);
        lemma_char_range(s[0]);
        assert(s[0] != c);
        assert(first < 0x80 ==> (first & 0x7f) as u32 == first as u32) by (bit_vector);
        assert forall|i: int| 0 <= i < e.len() implies #[trigger] e[i] != c as u8 by {
            if i >= n {
                assert(e[i] == encode_utf8(t)[i - n]);
            } else if i == 0 && first < 0x80 {
                assert(s[0] as u32 == first as u32);
            }
        }
    }
}

/// Equality of two byte sequences.
pub fn bytes_eq(a: &[u8], b: &[u8]) -> (r: bool)
    ensures
        r == (a@ == b@),
{
    if a.len() != b.len() {
        return false;
    }
    for i in 0..a.len()
        invariant
            a@.len() == b@.len(),
            a@.take(i as int) == b@.take(i as int),
    {
        if a[i] != b[i] {
            return false;
        }
        assert(a@.take(i + 1) =~= a@.take(i as int).push(a@[i as int]));
        assert(b@.take(i + 1) =~= b@.take(i as int).push(b@[i as int]));
    }
    assert(a@.take(a@.len() as int) =~= a@);
    assert(b@.take(b@.len() as int) =~= b@);
    true
}

/// Equality of two strings, as character sequences.
pub fn str_eq(a: &str, b: &str) -> (r: bool)
    ensures
        r == (a@ == b@),
{
    let r = bytes_eq(a.as_bytes(), b.as_bytes());
    proof {
        if r {
            lemma_encode_utf8_injective(a@, b@);
        }
    }
    r
}

/// Whether the string holds no character.
pub fn is_empty(s: &str) -> (r: bool)
    ensures
        r == (s@.len() == 0),
{
    let r = str_eq(s, "");
    proof {
        reveal_strlit("");
        if s@.len() == 0 {
            assert(s@ =~= ""@);
        }
    }
    r
}

/// Equality of a character slice and a string.
pub fn chars_eq(a: &[char], b: &str) -> (r: bool)
    ensures
        r == (a@ == b@),
{
    let bs = to_chars(b);
    if a.len() != bs.len() {
        return false;
    }
    for i in 0..a.len()
        invariant
            a@.len() == bs@.len(),
            bs@ == b@,
            forall|j: int| 0 <= j < i ==> a@[j] == b@[j],
    {
        if a[i] != bs[i] {
            return false;
        }
    }
    assert(a@ =~= b@);
    true
}

/// Equality of a character slice and a lower-case string, ignoring ASCII case.
pub fn chars_eq_ignore_case(a: &[char], b: &str) -> (r: bool)
    ensures
        r == (lower_text(a@) == b@),
{
    let bs = to_chars(b);
    if a.len() != bs.len() {
        return false;
    }
    for i in 0..a.len()
        invariant
            a@.len() == bs@.len(),
            bs@ == b@,
            forall|j: int| 0 <= j < i ==> lower(a@[j]) == b@[j],
    {
        if to_lower(a[i]) != bs[i] {
            assert(lower_text(a@)[i as int] != b@[i as int]);
            return false;
        }
    }
    assert(lower_text(a@) =~= b@);
    true
}

pub fn to_lower(c: char) -> (r: char)
    ensures
        r == lower(c),
{
    if 'A' <= c && c <= 'Z' {
        let u = c as u8 + 32;
        u as char
    } else {
        c
    }
}

pub open spec fn trim_start(s: Seq<char>) -> Seq<char>
    decreases s.len(),
{
    if s.len() > 0 && is_white(s[0]) {
        trim_start(s.drop_first())
    } else {
        s
    }
}

pub open spec fn trim_end(s: Seq<char>) -> Seq<char>
    decreases s.len(),
{
    if s.len() > 0 && is_white(s.last()) {
        trim_end(s.drop_last())
    } else {
        s
    }
}

/// The sequence without its leading and trailing white space.
pub open spec fn trim(s: Seq<char>) -> Seq<char> {
    trim_end(trim_start(s))
}

pub fn skip_white(s: &[char]) -> (r: &[char])
    ensures
        r@ == trim_start(s@),
        r@.len() <= s@.len(),
{
    let mut i: usize = 0;
    assert(s@.skip(0) =~= s@);
    while i < s.len() && white(s[i])
        invariant
            i <= s@.len(),
            trim_start(s@.skip(i as int)) == trim_start(s@),
        decreases s@.len() - i,
    {
        assert(s@.skip(i as int).drop_first() =~= s@.skip(i + 1));
        i += 1;
    }
    assert(s@.skip(i as int) =~= s@.subrange(i as int, s@.len() as int));
    slice_subrange(s, i, s.len())
}

pub fn drop_trailing_white(s: &[char]) -> (r: &[char])
    ensures
        r@ == trim_end(s@),
        r@.len() <= s@.len(),
{
    let mut i: usize = s.len();
    assert(s@.take(s@.len() as int) =~= s@);
    while i > 0 && white(s[i - 1])
        invariant
            i <= s@.len(),
            trim_end(s@.take(i as int)) == trim_end(s@),
        decreases i,
    {
        assert(s@.take(i as int).drop_last() =~= s@.take(i - 1));
        i -= 1;
    }
    assert(s@.take(i as int) =~= s@.subrange(0, i as int));
    slice_subrange(s, 0, i)
}

pub fn trim_chars(s: &[char]) -> (r: &[char])
    ensures
        r@ == trim(s@),
        r@.len() <= s@.len(),
{
    drop_trailing_white(skip_white(s))
}

/// The index of the first character that satisfies `p`, or the length.
pub open spec fn index_where(s: Seq<char>, p: spec_fn(char) -> bool) -> int
    decreases s.len(),
{
    if s.len() == 0 || p(s[0]) {
        0
    } else {
        1 + index_where(s.drop_first(), p)
    }
}

pub proof fn lemma_index_where(s: Seq<char>, p: spec_fn(char) -> bool)
    ensures
        0 <= index_where(s, p) <= s.len(),
        forall|j: int| 0 <= j < index_where(s, p) ==> !p(#[trigger] s[j]),
        index_where(s, p) < s.len() ==> p(s[index_where(s, p)]),
    decreases s.len(),
{
    if s.len() > 0 && !p(s[0]) {
        let t = s.drop_first();
        lemma_index_where(t, p);
        assert forall|j: int| 0 <= j < index_where(s, p) implies !p(#[trigger] s[j]) by {
            if j > 0 {
                assert(t[j - 1] == s[j]);
            }
        }
    }
}

pub proof fn lemma_index_where_is(s: Seq<char>, p: spec_fn(char) -> bool, i: int)
    requires
        0 <= i <= s.len(),
        forall|j: int| 0 <= j < i ==> !p(#[trigger] s[j]),
        i < s.len() ==> p(s[i]),
    ensures
        index_where(s, p) == i,
{
    lemma_index_where(s, p);
    let k = index_where(s, p);
    if k < i {
        assert(!p(s[k]));
    } else if i < k {
        assert(!p(s[i]));
    }
}

pub open spec fn is_char(c: char) -> spec_fn(char) -> bool {
    |x: char| x == c
}

/// The index of the first `c`, or the length.
pub open spec fn index_of(s: Seq<char>, c: char) -> int {
    index_where(s, is_char(c))
}

pub fn find_char(s: &[char], c: char) -> (r: usize)
    ensures
        r == index_of(s@, c),
        r <= s@.len(),
        r < s@.len() ==> s@[r as int] == c,
{
    let mut i: usize = 0;
    while i < s.len() && s[i] != c
        invariant
            i <= s@.len(),
            forall|j: int| 0 <= j < i ==> s@[j] != c,
        decreases s@.len() - i,
    {
        i += 1;
    }
    proof {
        lemma_index_where_is(s@, is_char(c), i as int);
    }
    i
}

/// The index of the first white-space character, or the length.
pub open spec fn index_of_white(s: Seq<char>) -> int {
    index_where(s, |x: char| is_white(x))
}

pub fn find_white(s: &[char]) -> (r: usize)
    ensures
        r == index_of_white(s@),
        r <= s@.len(),
{
    let mut i: usize = 0;
    while i < s.len() && !white(s[i])
        invariant
            i <= s@.len(),
            forall|j: int| 0 <= j < i ==> !is_white(s@[j]),
        decreases s@.len() - i,
    {
        i += 1;
    }
    proof {
        lemma_index_where_is(s@, |x: char| is_white(x), i as int);
    }
    i
}

pub open spec fn starts_with(s: Seq<char>, prefix: Seq<char>) -> bool {
    prefix.len() <= s.len() && s.take(prefix.len() as int) == prefix
}

/// The rest of the slice after `prefix`, if it begins with it.
pub fn strip_prefix<'a>(s: &'a [char], prefix: &str) -> (r: Option<&'a [char]>)
    ensures
        r is Some <==> starts_with(s@, prefix@),
        r matches Some(t) ==> t@ == s@.skip(prefix@.len() as int),
{
    let p = to_chars(prefix);
    if p.len() > s.len() {
        return None;
    }
    let head = slice_subrange(s, 0, p.len());
    assert(head@ == s@.take(prefix@.len() as int));
    if chars_eq(head, prefix) {
        assert(s@.skip(prefix@.len() as int) =~= s@.subrange(p@.len() as int, s@.len() as int));
        Some(slice_subrange(s, p.len(), s.len()))
    } else {
        None
    }
}

/// The maximal runs of characters that are not white space.
pub open spec fn words(s: Seq<char>) -> Seq<Seq<char>>
    decreases s.len(),
{
    let t = trim_start(s);
    let i = index_of_white(t);
    if t.len() == 0 || t.len() > s.len() || i <= 0 || i > t.len() {
        seq![]
    } else {
        seq![t.take(i)] + words(t.skip(i))
    }
}

pub proof fn lemma_trim_start(s: Seq<char>)
    ensures
        trim_start(s).len() <= s.len(),
        trim_start(s) == s.skip(s.len() - trim_start(s).len()),
        trim_start(s).len() > 0 ==> !is_white(trim_start(s)[0]),
    decreases s.len(),
{
    if s.len() > 0 && is_white(s[0]) {
        lemma_trim_start(s.drop_first());
        let k = trim_start(s).len();
        assert(s.drop_first().skip(s.len() - 1 - k) =~= s.skip(s.len() - k));
    } else {
        assert(s.skip(0) =~= s);
    }
}

/// The first word of the slice and what follows it.
pub fn next_word<'a>(s: &'a [char]) -> (r: Option<(&'a [char], &'a [char])>)
    ensures
        r is None <==> words(s@).len() == 0,
        r matches Some((w, rest)) ==> words(s@) == seq![w@] + words(rest@) && w@.len() > 0,
{
    let t = skip_white(s);
    if t.len() == 0 {
        return None;
    }
    let i = find_white(t);
    proof {
        lemma_trim_start(s@);
        lemma_index_where(t@, |x: char| is_white(x));
    }
    assert(t@.take(i as int) =~= t@.subrange(0, i as int));
    assert(t@.skip(i as int) =~= t@.subrange(i as int, t@.len() as int));
    Some((slice_subrange(t, 0, i), slice_subrange(t, i, t.len())))
}

} // verus!
