//! Minimal write-only JSON encoder.

use vstd::prelude::*;

use crate::decimal::{finite, is_finite, number_text, push_number};
use crate::numeral::{int_text, push_signed};
use crate::text::{lemma_char_range, to_chars};

verus! {

/// The lower-case hexadecimal digit of a number below sixteen.
pub open spec fn hex_digit(d: nat) -> char {
    if d < 10 {
        (d + '0' as u32) as char
    } else {
        (d - 10 + 'a' as u32) as char
    }
}

/// A character as it stands in a JSON string.
pub open spec fn escaped_char(c: char) -> Seq<char> {
    if c == '"' {
        seq!['\\', '"']
    } else if c == '\\' {
        seq!['\\', '\\']
    } else if c == '\n' {
        seq!['\\', 'n']
    } else if c == '\r' {
        seq!['\\', 'r']
    } else if c == '\t' {
        seq!['\\', 't']
    } else if ' ' > c {
        seq!['\\', 'u', '0', '0', hex_digit(c as nat / 16), hex_digit(c as nat % 16)]
    } else {
        seq![c]
    }
}

pub open spec fn escaped(s: Seq<char>) -> Seq<char>
    decreases s.len(),
{
    if s.len() == 0 {
        seq![]
    } else {
        escaped_char(s[0]) + escaped(s.skip(1))
    }
}

/// A text as a JSON string.
pub open spec fn json_string(s: Seq<char>) -> Seq<char> {
    seq!['"'] + escaped(s) + seq!['"']
}

/// A number as JSON: `null` if it is not finite.
pub open spec fn json_number(bits: u64) -> Seq<char> {
    if is_finite(bits) {
        number_text(bits)
    } else {
        "null"@
    }
}

fn push_hex(out: &mut String, d: u8)
    requires
        d < 16,
    ensures
        final(out)@ == old(out)@.push(hex_digit(d as nat)),
{
    if d < 10 {
        out.push((d + 48) as char);
    } else {
        out.push((d - 10 + 97) as char);
    }
}

pub fn escape_str(out: &mut String, s: &str)
    ensures
        final(out)@ == old(out)@ + json_string(s@),
{
    let cs = to_chars(s);
    let ghost begin = out@;
    out.push('"');
    let ghost start = out@;
    let mut i: usize = 0;
    assert(s@.skip(0) =~= s@);
    while i < cs.len()
        invariant
            i <= cs@.len(),
            cs@ == s@,
            out@ + escaped(s@.skip(i as int)) == start + escaped(s@),
        decreases cs@.len() - i,
    {
        let ghost t = s@.skip(i as int);
        let ghost before = out@;
        assert(t.skip(1) =~= s@.skip(i + 1));
        let c = cs[i];
        if c == '"' {
            out.push('\\');
            out.push('"');
        } else if c == '\\' {
            out.push('\\');
            out.push('\\');
        } else if c == '\n' {
            out.push('\\');
            out.push('n');
        } else if c == '\r' {
            out.push('\\');
            out.push('r');
        } else if c == '\t' {
            out.push('\\');
            out.push('t');
        } else if ' ' > c {
            let u: u8 = c as u8;
            out.push('\\');
            out.push('u');
            out.push('0');
            out.push('0');
            push_hex(out, u / 16);
            push_hex(out, u % 16);
            assert(out@ =~= before + escaped_char(c)) by {
                lemma_char_range(c);
            }
        } else {
            out.push(c);
        }
        assert(out@ =~= before + escaped_char(c));
        assert(out@ + escaped(t.skip(1)) =~= before + escaped(t));
        i += 1;
    }
    assert(s@.skip(i as int) =~= seq![]);
    assert(out@ + seq![] =~= out@);
    out.push('"');
    assert(out@ =~= begin + json_string(s@));
}

/// Non-finite floats encode as `null` (JSON has no NaN/Inf).
pub fn number(out: &mut String, v: u64)
    ensures
        final(out)@ == old(out)@ + json_number(v),
{
    if finite(v) {
        push_number(out, v);
    } else {
        out.append("null");
    }
}

/// What a JSON string holds, with its escapes replaced.
pub open spec fn unescaped(s: Seq<char>) -> Seq<char>
    decreases s.len(),
{
    if s.len() == 0 {
        seq![]
    } else if s[0] != '\\' || s.len() == 1 {
        seq![s[0]] + unescaped(s.skip(1))
    } else if s[1] == 'n' {
        seq!['\n'] + unescaped(s.skip(2))
    } else if s[1] == 'r' {
        seq!['\r'] + unescaped(s.skip(2))
    } else if s[1] == 't' {
        seq!['\t'] + unescaped(s.skip(2))
    } else if s[1] == 'u' && s.len() >= 6 {
        seq![(hex_value(s[4]) * 16 + hex_value(s[5])) as char] + unescaped(s.skip(6))
    } else {
        seq![s[1]] + unescaped(s.skip(2))
    }
}

pub open spec fn hex_value(c: char) -> nat {
    if '0' <= c <= '9' {
        (c as u32 - '0' as u32) as nat
    } else {
        (c as u32 - 'a' as u32 + 10) as nat
    }
}

/// Escaping loses nothing, and leaves no control character and no bare quote.
pub proof fn law_escaped(s: Seq<char>)
    ensures
        unescaped(escaped(s)) == s,
        forall|i: int| 0 <= i < escaped(s).len() ==> #[trigger] escaped(s)[i] >= ' ',
        forall|i: int|
            0 <= i < escaped(s).len() && #[trigger] escaped(s)[i] == '"' ==> i > 0 && escaped(s)[i
                - 1] == '\\',
    decreases s.len(),
{
    if s.len() == 0 {
        assert(unescaped(escaped(s)) =~= s);
    } else {
        let t = s.skip(1);
        let c = s[0];
        let e = escaped(s);
        let f = escaped(t);
        let w = escaped_char(c);
        law_escaped(t);
        if ' ' > c {
            lemma_char_range(c);
            let n = c as nat;
            assert(hex_value(hex_digit(n / 16)) == n / 16 && hex_value(hex_digit(n % 16)) == n % 16);
        }
        assert(e.skip(w.len() as int) =~= f);
        assert(seq![c] + t =~= s);
        assert forall|i: int| 0 <= i < e.len() implies #[trigger] e[i] >= ' ' by {
            if i >= w.len() {
                assert(e[i] == f[i - w.len()]);
            }
        }
        assert forall|i: int| 0 <= i < e.len() && #[trigger] e[i] == '"' implies i > 0 && e[i - 1]
            == '\\' by {
            if i >= w.len() {
                assert(e[i] == f[i - w.len()]);
            }
        }
    }
}

/// The items with commas between them.
pub open spec fn joined(items: Seq<Seq<char>>) -> Seq<char>
    decreases items.len(),
{
    if items.len() == 0 {
        seq![]
    } else if items.len() == 1 {
        items[0]
    } else {
        joined(items.drop_last()) + seq![','] + items.last()
    }
}

pub open spec fn member(key: Seq<char>, value: Seq<char>) -> Seq<char> {
    json_string(key) + seq![':'] + value
}

pub open spec fn json_object(members: Seq<Seq<char>>) -> Seq<char> {
    seq!['{'] + joined(members) + seq!['}']
}

pub open spec fn json_array(items: Seq<Seq<char>>) -> Seq<char> {
    seq!['['] + joined(items) + seq![']']
}

/// What has been written, and for each open bracket (and the whole) whether a
/// comma is due before the next value.
pub struct JsonState {
    pub text: Seq<char>,
    pub commas: Seq<bool>,
}

/// The commas after a value or a key was written.
pub open spec fn commas_after(commas: Seq<bool>, due: bool) -> Seq<bool> {
    if commas.len() == 0 {
        commas
    } else {
        commas.update(commas.len() - 1, due)
    }
}

pub open spec fn separator(st: JsonState) -> Seq<char> {
    if st.commas.len() > 0 && st.commas.last() {
        seq![',']
    } else {
        seq![]
    }
}

/// A value was written.
pub open spec fn with_value(st: JsonState, value: Seq<char>) -> JsonState {
    JsonState {
        text: st.text + separator(st) + value,
        commas: commas_after(st.commas, true),
    }
}

/// A key was written; its value follows without a comma.
pub open spec fn with_key(st: JsonState, key: Seq<char>) -> JsonState {
    JsonState {
        text: st.text + separator(st) + json_string(key) + seq![':'],
        commas: commas_after(st.commas, false),
    }
}

/// A bracket was opened.
pub open spec fn opened(st: JsonState, bracket: char) -> JsonState {
    JsonState {
        text: st.text + separator(st) + seq![bracket],
        commas: commas_after(st.commas, true).push(false),
    }
}

/// A bracket was closed.
pub open spec fn closed(st: JsonState, bracket: char) -> JsonState {
    JsonState {
        text: st.text.push(bracket),
        commas: if st.commas.len() == 0 {
            st.commas
        } else {
            st.commas.drop_last()
        },
    }
}

/// A bracket was opened and the given items were written inside it.
pub open spec fn within(st: JsonState, bracket: char, items: Seq<Seq<char>>) -> JsonState {
    JsonState {
        text: st.text + separator(st) + seq![bracket] + joined(items),
        commas: commas_after(st.commas, true).push(items.len() > 0),
    }
}

pub proof fn lemma_opened(st: JsonState, bracket: char)
    ensures
        opened(st, bracket) == within(st, bracket, seq![]),
{
    assert(opened(st, bracket).text =~= within(st, bracket, seq![]).text);
}

pub proof fn lemma_joined_push(items: Seq<Seq<char>>, v: Seq<char>)
    ensures
        joined(items.push(v)) == joined(items) + (if items.len() > 0 {
            seq![',']
        } else {
            seq![]
        }) + v,
{
    assert(items.push(v).drop_last() =~= items);
    assert(joined(items.push(v)) =~= joined(items) + (if items.len() > 0 {
        seq![',']
    } else {
        seq![]
    }) + v);
}

/// A value inside a bracket is a further item.
pub proof fn lemma_within_value(st: JsonState, bracket: char, items: Seq<Seq<char>>, v: Seq<char>)
    ensures
        with_value(within(st, bracket, items), v) == within(st, bracket, items.push(v)),
{
    lemma_joined_push(items, v);
    let a = with_value(within(st, bracket, items), v);
    let b = within(st, bracket, items.push(v));
    assert(a.text =~= b.text);
    assert(a.commas =~= b.commas);
}

/// A key and a value inside a bracket are a further item.
pub proof fn lemma_within_member(
    st: JsonState,
    bracket: char,
    items: Seq<Seq<char>>,
    key: Seq<char>,
    v: Seq<char>,
)
    ensures
        with_value(with_key(within(st, bracket, items), key), v) == within(
            st,
            bracket,
            items.push(member(key, v)),
        ),
{
    lemma_joined_push(items, member(key, v));
    let a = with_value(with_key(within(st, bracket, items), key), v);
    let b = within(st, bracket, items.push(member(key, v)));
    assert(a.text =~= b.text);
    assert(a.commas =~= b.commas);
}

/// A closed object or array is a value.
pub proof fn lemma_closed(st: JsonState, items: Seq<Seq<char>>)
    ensures
        closed(within(st, '{', items), '}') == with_value(st, json_object(items)),
        closed(within(st, '[', items), ']') == with_value(st, json_array(items)),
{
    let a = closed(within(st, '{', items), '}');
    let b = with_value(st, json_object(items));
    assert(a.text =~= b.text);
    assert(a.commas =~= b.commas);
    let c = closed(within(st, '[', items), ']');
    let d = with_value(st, json_array(items));
    assert(c.text =~= d.text);
    assert(c.commas =~= d.commas);
}

/// Builder for JSON objects/arrays without intermediate value trees.
pub struct JsonWriter {
    buf: String,
    needs_comma: Vec<bool>,
}

impl View for JsonWriter {
    type V = JsonState;

    closed spec fn view(&self) -> JsonState {
        JsonState { text: self.buf@, commas: self.needs_comma@ }
    }
}

pub open spec fn fresh() -> JsonState {
    JsonState { text: seq![], commas: seq![false] }
}

impl Default for JsonWriter {
    fn default() -> (r: Self)
        ensures
            r@ == fresh(),
    {
        JsonWriter::new()
    }
}

impl JsonWriter {
    pub fn new() -> (r: Self)
        ensures
            r@ == fresh(),
    {
        let r = JsonWriter { buf: String::new(), needs_comma: vec![false] };
        assert(r@.text =~= seq![]);
        assert(r@.commas =~= seq![false]);
        r
    }

    fn pre_value(&mut self)
        ensures
            final(self)@.text == old(self)@.text + separator(old(self)@),
            final(self)@.commas == commas_after(old(self)@.commas, true),
    {
        let ghost before = self@;
        let n = self.needs_comma.len();
        if n > 0 {
            if self.needs_comma[n - 1] {
                self.buf.push(',');
            }
            self.needs_comma.set(n - 1, true);
        }
        assert(self@.text =~= before.text + separator(before));
    }

    pub fn begin_object(&mut self) -> (r: &mut Self)
        ensures
            r@ == opened(old(self)@, '{'),
            *final(self) == *final(r),
    {
        self.pre_value();
        self.buf.push('{');
        self.needs_comma.push(false);
        assert(self@.text =~= opened(old(self)@, '{').text);
        self
    }

    pub fn end_object(&mut self) -> (r: &mut Self)
        ensures
            r@ == closed(old(self)@, '}'),
            *final(self) == *final(r),
    {
        let _ = self.needs_comma.pop();
        self.buf.push('}');
        self
    }

    pub fn begin_array(&mut self) -> (r: &mut Self)
        ensures
            r@ == opened(old(self)@, '['),
            *final(self) == *final(r),
    {
        self.pre_value();
        self.buf.push('[');
        self.needs_comma.push(false);
        assert(self@.text =~= opened(old(self)@, '[').text);
        self
    }

    pub fn end_array(&mut self) -> (r: &mut Self)
        ensures
            r@ == closed(old(self)@, ']'),
            *final(self) == *final(r),
    {
        let _ = self.needs_comma.pop();
        self.buf.push(']');
        self
    }

    pub fn key(&mut self, k: &str) -> (r: &mut Self)
        ensures
            r@ == with_key(old(self)@, k@),
            *final(self) == *final(r),
    {
        self.pre_value();
        escape_str(&mut self.buf, k);
        self.buf.push(':');
        // key consumed the comma slot; the value that follows must not add one
        let n = self.needs_comma.len();
        if n > 0 {
            self.needs_comma.set(n - 1, false);
        }
        assert(self@.text =~= with_key(old(self)@, k@).text);
        assert(self@.commas =~= with_key(old(self)@, k@).commas);
        self
    }

    pub fn string(&mut self, s: &str) -> (r: &mut Self)
        ensures
            r@ == with_value(old(self)@, json_string(s@)),
            *final(self) == *final(r),
    {
        self.pre_value();
        escape_str(&mut self.buf, s);
        self
    }

    pub fn number(&mut self, v: u64) -> (r: &mut Self)
        ensures
            r@ == with_value(old(self)@, json_number(v)),
            *final(self) == *final(r),
    {
        self.pre_value();
        number(&mut self.buf, v);
        self
    }

    pub fn integer(&mut self, v: i64) -> (r: &mut Self)
        ensures
            r@ == with_value(old(self)@, int_text(v as int)),
            *final(self) == *final(r),
    {
        self.pre_value();
        push_signed(&mut self.buf, v);
        self
    }

    pub fn finish(self) -> (r: String)
        ensures
            r@ == self@.text,
    {
        self.buf
    }
}

} // verus!
