//! Laws of percent-encoded texts and of the queries made of them.

use vstd::prelude::*;
use vstd::utf8::{decode_utf8, encode_utf8, valid_utf8};

use crate::http::{
    hex_byte, hex_pair, params_of, percent_bytes, percent_text, HttpErrorSpec, ParamPairs,
};
use crate::text::{
    index_of, is_char, lemma_char_range, lemma_encode_concat, lemma_encode_lacks,
    lemma_index_where_is,
};

verus! {

/// A piece of a percent-encoded text: a character that stands for itself, a
/// blank written as a plus sign, or a byte written as two digits of the given
/// values.
pub enum Piece {
    Plain(char),
    Blank,
    Byte { high: char, low: char, value: u8 },
}

/// The character is the hexadecimal digit of the value, in lower or upper case.
pub open spec fn is_hex(c: char, v: int) -> bool {
    0 <= v < 16 && ("0123456789abcdef"@[v] == c || "0123456789ABCDEF"@[v] == c)
}

pub open spec fn is_piece(p: Piece) -> bool {
    match p {
        Piece::Plain(c) => c != '%' && c != '+',
        Piece::Blank => true,
        Piece::Byte { high, low, value } => is_hex(high, value as int / 16) && is_hex(
            low,
            value as int % 16,
        ),
    }
}

/// How a piece is written.
pub open spec fn written(p: Piece) -> Seq<char> {
    match p {
        Piece::Plain(c) => seq![c],
        Piece::Blank => seq!['+'],
        Piece::Byte { high, low, .. } => seq!['%', high, low],
    }
}

/// The bytes that a piece stands for.
pub open spec fn meant(p: Piece) -> Seq<u8> {
    match p {
        Piece::Plain(c) => encode_utf8(seq![c]),
        Piece::Blank => encode_utf8(seq![' ']),
        Piece::Byte { value, .. } => seq![value],
    }
}

pub open spec fn are_pieces(s: Seq<Piece>) -> bool {
    forall|i: int| 0 <= i < s.len() ==> is_piece(#[trigger] s[i])
}

pub open spec fn all_written(s: Seq<Piece>) -> Seq<char>
    decreases s.len(),
{
    if s.len() == 0 {
        seq![]
    } else {
        written(s[0]) + all_written(s.skip(1))
    }
}

pub open spec fn all_meant(s: Seq<Piece>) -> Seq<u8>
    decreases s.len(),
{
    if s.len() == 0 {
        seq![]
    } else {
        meant(s[0]) + all_meant(s.skip(1))
    }
}

proof fn lemma_ascii(s: Seq<char>)
    requires
        forall|i: int| 0 <= i < s.len() ==> #[trigger] s[i] <= '\u{7f}',
    ensures
        encode_utf8(s).len() == s.len(),
        forall|i: int| 0 <= i < s.len() ==> #[trigger] encode_utf8(s)[i] == s[i] as u8,
{
    assert forall|i: int| 0 <= i < s.len() implies '\0' <= #[trigger] s[i] <= '\u{7f}' by {
        lemma_char_range(s[i]);
    }
    vstd::utf8::is_ascii_chars_encode_utf8(s);
}

proof fn lemma_hex(c: char, v: int)
    requires
        is_hex(c, v),
    ensures
        c <= '\u{7f}',
        hex_byte(c as u8) == Some(v as u8),
{
    reveal_strlit("0123456789abcdef");
    reveal_strlit("0123456789ABCDEF");
    assert("0123456789abcdef"@.len() == 16);
    assert("0123456789ABCDEF"@.len() == 16);
    if v < 8 {
        if v < 4 {
            assert(v == 0 || v == 1 || v == 2 || v == 3);
        } else {
            assert(v == 4 || v == 5 || v == 6 || v == 7);
        }
    } else if v < 12 {
        assert(v == 8 || v == 9 || v == 10 || v == 11);
    } else {
        assert(v == 12 || v == 13 || v == 14 || v == 15);
    }
}

/// Bytes without signs stand for themselves in front of others.
proof fn lemma_plain_front(b: Seq<u8>, rest: Seq<u8>, seen: Seq<u8>)
    requires
        forall|i: int| 0 <= i < b.len() ==> #[trigger] b[i] != 0x25 && b[i] != 0x2b,
    ensures
        percent_bytes(b + rest, seen) == percent_bytes(rest, seen + b),
    decreases b.len(),
{
    if b.len() == 0 {
        assert(seen + b =~= seen);
        assert(b + rest =~= rest);
    } else {
        let t = b.skip(1);
        assert forall|i: int| 0 <= i < t.len() implies #[trigger] t[i] != 0x25 && t[i] != 0x2b by {
            assert(t[i] == b[i + 1]);
        }
        let s = b + rest;
        assert(s[0] == b[0]);
        assert(s.skip(1) =~= t + rest);
        lemma_plain_front(t, rest, seen.push(b[0]));
        assert(seen.push(b[0]) + t =~= seen + b);
    }
}

proof fn lemma_piece(p: Piece, rest: Seq<u8>, seen: Seq<u8>)
    requires
        is_piece(p),
    ensures
        percent_bytes(encode_utf8(written(p)) + rest, seen) == percent_bytes(rest, seen + meant(p)),
{
    let b = encode_utf8(written(p));
    let s = b + rest;
    match p {
        Piece::Plain(c) => {
            lemma_encode_lacks(seq![c], '%');
            lemma_encode_lacks(seq![c], '+');
            lemma_plain_front(b, rest, seen);
        },
        Piece::Blank => {
            lemma_ascii(seq!['+']);
            lemma_ascii(seq![' ']);
            assert(b[0] == seq!['+'][0] as u8);
            assert(encode_utf8(seq![' '])[0] == seq![' '][0] as u8);
            assert(s[0] == 0x2b);
            assert(s.skip(1) =~= rest);
            assert(seen.push(0x20) =~= seen + meant(p));
        },
        Piece::Byte { high, low, value } => {
            lemma_hex(high, value as int / 16);
            lemma_hex(low, value as int % 16);
            let w = written(p);
            assert(w[0] == '%' && w[1] == high && w[2] == low);
            assert forall|i: int| 0 <= i < w.len() implies #[trigger] w[i]
                <= '\u{7f}' by {
                assert(i == 0 || i == 1 || i == 2);
            }
            lemma_ascii(w);
            assert(b[0] == w[0] as u8 && b[1] == w[1] as u8 && b[2] == w[2] as u8);
            assert(s[0] == b[0] && s[1] == b[1] && s[2] == b[2]);
            assert(s.skip(3) =~= rest);
            assert(16 * (value / 16) + value % 16 == value);
            assert(hex_pair(s[1], s[2]) == Some(value));
            assert(seen.push(value) =~= seen + meant(p));
        },
    }
}

proof fn lemma_pieces_front(s: Seq<Piece>, rest: Seq<u8>, seen: Seq<u8>)
    requires
        are_pieces(s),
    ensures
        percent_bytes(encode_utf8(all_written(s)) + rest, seen) == percent_bytes(
            rest,
            seen + all_meant(s),
        ),
    decreases s.len(),
{
    if s.len() == 0 {
        lemma_ascii(seq![]);
        assert(encode_utf8(all_written(s)) =~= seq![]);
        assert(encode_utf8(all_written(s)) + rest =~= rest);
        assert(seen + all_meant(s) =~= seen);
    } else {
        let t = s.skip(1);
        assert forall|i: int| 0 <= i < t.len() implies is_piece(#[trigger] t[i]) by {
            assert(t[i] == s[i + 1]);
        }
        assert(is_piece(s[0]));
        lemma_encode_concat(written(s[0]), all_written(t));
        let tail = encode_utf8(all_written(t)) + rest;
        assert(encode_utf8(all_written(s)) + rest =~= encode_utf8(written(s[0])) + tail);
        lemma_piece(s[0], tail, seen);
        lemma_pieces_front(t, rest, seen + meant(s[0]));
        assert(seen + meant(s[0]) + all_meant(t) =~= seen + all_meant(s));
    }
}

/// A percent-encoded text stands for the bytes of its pieces, in whatever way
/// each of them is written, if these bytes are a text.
pub proof fn law_encoded_text_is_decoded(s: Seq<Piece>)
    requires
        are_pieces(s),
    ensures
        valid_utf8(all_meant(s)) ==> percent_text(all_written(s)) == Some(decode_utf8(all_meant(s))),
        !valid_utf8(all_meant(s)) ==> percent_text(all_written(s)) is None,
{
    let b = encode_utf8(all_written(s));
    lemma_pieces_front(s, seq![], seq![]);
    assert(b + Seq::<u8>::empty() =~= b);
    assert(Seq::<u8>::empty() + all_meant(s) =~= all_meant(s));
}

/// Every text can be sent: written byte by byte it is read back.
pub proof fn law_text_written_in_bytes(t: Seq<char>, s: Seq<Piece>)
    requires
        are_pieces(s),
        s.len() == encode_utf8(t).len(),
        forall|i: int|
            0 <= i < s.len() ==> (#[trigger] s[i] matches Piece::Byte { value, .. } && value
                == encode_utf8(t)[i]),
    ensures
        percent_text(all_written(s)) == Some(t),
{
    lemma_bytes_meant(s, encode_utf8(t));
    law_encoded_text_is_decoded(s);
    vstd::utf8::encode_utf8_valid_utf8(t);
    vstd::utf8::encode_utf8_decode_utf8(t);
}

proof fn lemma_bytes_meant(s: Seq<Piece>, b: Seq<u8>)
    requires
        s.len() == b.len(),
        forall|i: int|
            0 <= i < s.len() ==> (#[trigger] s[i] matches Piece::Byte { value, .. } && value
                == b[i]),
    ensures
        all_meant(s) == b,
    decreases s.len(),
{
    if s.len() == 0 {
        assert(b =~= seq![]);
    } else {
        let t = s.skip(1);
        assert forall|i: int| 0 <= i < t.len() implies (#[trigger] t[i] matches Piece::Byte {
            value,
            ..
        } && value == b.skip(1)[i]) by {
            assert(t[i] == s[i + 1]);
        }
        lemma_bytes_meant(t, b.skip(1));
        assert(s[0] matches Piece::Byte { value, .. } && value == b[0]);
        assert(meant(s[0]) + b.skip(1) =~= b);
    }
}

/// The character is a hexadecimal digit.
pub open spec fn is_hex_digit(c: char) -> bool {
    '0' <= c <= '9' || 'a' <= c <= 'f' || 'A' <= c <= 'F'
}

/// A character whose first byte is an ASCII byte is that byte.
proof fn lemma_first_byte(c: char)
    ensures
        encode_utf8(seq![c]).len() > 0,
        encode_utf8(seq![c])[0] < 128 ==> c as int == encode_utf8(seq![c])[0] as int,
{
    let b = encode_utf8(seq![c]);
    lemma_char_range(c);
    if c <= '\u{7f}' {
        lemma_ascii(seq![c]);
        assert(b[0] == seq![c][0] as u8);
    } else {
        if b.len() == 0 {
            lemma_ascii(seq![]);
            vstd::utf8::encode_utf8_decode_utf8(seq![c]);
            vstd::utf8::encode_utf8_decode_utf8(seq![]);
            assert(b =~= encode_utf8(seq![]));
            assert(seq![c].len() == 1);
        }
        if b[0] < 128 {
            let x = b[0] as char;
            lemma_encode_lacks(seq![c], x);
        }
    }
}

/// A percent sign that no two digits follow, nor a plus sign and a digit, makes
/// the text unreadable.
pub proof fn law_stray_percent_sign(s: Seq<Piece>, rest: Seq<char>)
    requires
        are_pieces(s),
        rest.len() < 2 || !is_hex_digit(rest[1]) || !(is_hex_digit(rest[0]) || rest[0] == '+'),
    ensures
        percent_text(all_written(s) + seq!['%'] + rest) is None,
{
    let text = all_written(s) + seq!['%'] + rest;
    let tail = seq!['%'] + rest;
    assert(text =~= all_written(s) + tail);
    lemma_encode_concat(all_written(s), tail);
    lemma_pieces_front(s, encode_utf8(tail), seq![]);
    lemma_encode_concat(seq!['%'], rest);
    lemma_ascii(seq!['%']);
    let b = encode_utf8(tail);
    let r = encode_utf8(rest);
    assert(encode_utf8(seq!['%'])[0] == seq!['%'][0] as u8);
    assert(b[0] == 0x25);
    if b.len() >= 3 {
        assert(b[1] == r[0] && b[2] == r[1]);
        if rest.len() == 0 {
            lemma_ascii(rest);
        } else {
            let one = seq![rest[0]];
            let more = rest.skip(1);
            assert(rest =~= one + more);
            lemma_encode_concat(one, more);
            lemma_first_byte(rest[0]);
            assert(r[0] == encode_utf8(one)[0]);
            if r[0] < 128 {
                lemma_ascii(one);
                if more.len() == 0 {
                    lemma_ascii(more);
                } else {
                    let two = seq![more[0]];
                    assert(more =~= two + more.skip(1));
                    lemma_encode_concat(two, more.skip(1));
                    lemma_first_byte(more[0]);
                    assert(r[1] == encode_utf8(two)[0]);
                    assert(more[0] == rest[1]);
                }
            }
        }
        if r[0] < 128 {
            assert(hex_byte(r[0]) is Some ==> is_hex_digit(rest[0]));
            assert(r[0] == 0x2b ==> rest[0] == '+');
            assert(hex_byte(r[1]) is Some ==> is_hex_digit(rest[1]));
        }
        assert(hex_pair(b[1], b[2]) is None);
    }
}

/// A query of one parameter has that parameter, with its name and value
/// decoded; without an equals sign the value is empty.
pub proof fn law_one_parameter(name: Seq<char>, value: Seq<char>)
    requires
        !name.contains('='),
        !name.contains('&'),
        !value.contains('&'),
    ensures
        percent_text(name) matches Some(n) ==> (percent_text(value) matches Some(v) ==> params_of(
            name + seq!['='] + value,
            seq![],
        ) == Ok::<ParamPairs, HttpErrorSpec>(seq![(n, v)])),
        percent_text(name) matches Some(n) ==> name.len() > 0 ==> params_of(name, seq![])
            == Ok::<ParamPairs, HttpErrorSpec>(seq![(n, seq![])]),
        percent_text(name) is None || percent_text(value) is None ==> (params_of(
            name + seq!['='] + value,
            seq![],
        ) matches Err(HttpErrorSpec::BadPercentEncoding(_))),
        params_of(seq![], seq![]) == Ok::<ParamPairs, HttpErrorSpec>(seq![]),
{
    let part = name + seq!['='] + value;
    lemma_no_index(name, '=');
    lemma_no_index(name, '&');
    assert(name.take(name.len() as int) =~= name);
    assert forall|j: int| 0 <= j < name.len() implies !is_char('=')(#[trigger] part[j]) by {
        assert(part[j] == name[j]);
        assert(name.contains(name[j]));
    }
    assert(part[name.len() as int] == '=');
    lemma_index_where_is(part, is_char('='), name.len() as int);
    assert(part.take(name.len() as int) =~= name);
    assert(part.skip((name.len() + 1) as int) =~= value);
    assert(!part.contains('&')) by {
        if part.contains('&') {
            let i = choose|i: int| 0 <= i < part.len() && part[i] == '&';
            if i < name.len() {
                assert(name[i] == '&');
            } else {
                assert(value[i - name.len() - 1] == '&');
            }
        }
    }
    lemma_no_index(part, '&');
    assert(part.take(part.len() as int) =~= part);
    let none = Seq::<(Seq<char>, Seq<char>)>::empty();
    if let (Some(n), Some(v)) = (percent_text(name), percent_text(value)) {
        assert(none.push((n, v)) =~= seq![(n, v)]);
    }
    lemma_no_index(seq![], '&');
    lemma_empty_text();
    if let Some(n) = percent_text(name) {
        let v = Seq::<char>::empty();
        assert(none.push((n, v)) =~= seq![(n, v)]);
    }
}

proof fn lemma_empty_text()
    ensures
        percent_text(seq![]) == Some(Seq::<char>::empty()),
{
    let none = Seq::<char>::empty();
    assert(!none.contains('%') && !none.contains('+'));
    crate::http::law_plain_text_decodes_to_itself(none);
}

pub proof fn lemma_no_index(s: Seq<char>, c: char)
    requires
        !s.contains(c),
    ensures
        index_of(s, c) == s.len(),
{
    assert forall|j: int| 0 <= j < s.len() implies !is_char(c)(#[trigger] s[j]) by {
        assert(s.contains(s[j]));
    }
    lemma_index_where_is(s, is_char(c), s.len() as int);
}

} // verus!
