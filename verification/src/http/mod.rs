//! Shared HTTP types: parsed requests, responses, query params.

pub mod client;
pub mod exchange;
pub mod server;

use vstd::prelude::*;
use vstd::std_specs::iter::IteratorSpec;
use vstd::slice::{slice_subrange, slice_to_vec};
use vstd::utf8::{decode_utf8, encode_utf8, valid_utf8};

use crate::json::{
    fresh, json_object, json_string, lemma_closed, lemma_opened, lemma_within_member, member,
    with_value, JsonWriter,
};
use crate::numeral::{int_text, push_unsigned};
use crate::text::{
    debug_string, debug_text, find_char, from_chars, index_of, is_char, lemma_encode_lacks,
    lemma_index_where, lemma_index_where_is, str_eq, string_from_utf8, to_chars,
};

verus! {

#[derive(Debug, Clone, Copy, PartialEq, Eq, Structural)]
pub enum Method {
    Get,
    Post,
}

/// The method that a word stands for.
pub open spec fn method_of(s: Seq<char>) -> Option<Method> {
    if s == "GET"@ {
        Some(Method::Get)
    } else if s == "POST"@ {
        Some(Method::Post)
    } else {
        None
    }
}

impl Method {
    pub fn parse(s: &str) -> (r: Result<Self, HttpError>)
        ensures
            match r {
                Ok(m) => method_of(s@) == Some(m),
                Err(e) => method_of(s@) is None && e@ == HttpErrorSpec::UnsupportedMethod(s@),
            },
    {
        if str_eq(s, "GET") {
            Ok(Method::Get)
        } else if str_eq(s, "POST") {
            Ok(Method::Post)
        } else {
            Err(HttpError::UnsupportedMethod(s.to_owned()))
        }
    }
}

/// Why a request cannot be read.
pub enum HttpErrorSpec {
    MalformedRequestLine(Seq<char>),
    UnsupportedMethod(Seq<char>),
    MalformedHeader(Seq<char>),
    HeadersTooLarge,
    BodyTooLarge(nat),
    LengthRequired,
    InvalidContentLength(Seq<char>),
    BadPercentEncoding(Seq<char>),
    Io(Seq<char>),
}

#[derive(Debug, PartialEq)]
pub enum HttpError {
    MalformedRequestLine(String),
    UnsupportedMethod(String),
    MalformedHeader(String),
    HeadersTooLarge,
    BodyTooLarge(usize),
    LengthRequired,
    InvalidContentLength(String),
    BadPercentEncoding(String),
    Io(String),
}

impl View for HttpError {
    type V = HttpErrorSpec;

    open spec fn view(&self) -> HttpErrorSpec {
        match self {
            HttpError::MalformedRequestLine(s) => HttpErrorSpec::MalformedRequestLine(s@),
            HttpError::UnsupportedMethod(s) => HttpErrorSpec::UnsupportedMethod(s@),
            HttpError::MalformedHeader(s) => HttpErrorSpec::MalformedHeader(s@),
            HttpError::HeadersTooLarge => HttpErrorSpec::HeadersTooLarge,
            HttpError::BodyTooLarge(n) => HttpErrorSpec::BodyTooLarge(*n as nat),
            HttpError::LengthRequired => HttpErrorSpec::LengthRequired,
            HttpError::InvalidContentLength(s) => HttpErrorSpec::InvalidContentLength(s@),
            HttpError::BadPercentEncoding(s) => HttpErrorSpec::BadPercentEncoding(s@),
            HttpError::Io(s) => HttpErrorSpec::Io(s@),
        }
    }
}

impl Clone for HttpError {
    fn clone(&self) -> (r: Self)
        ensures
            r@ == self@,
    {
        match self {
            HttpError::MalformedRequestLine(s) => HttpError::MalformedRequestLine(s.clone()),
            HttpError::UnsupportedMethod(s) => HttpError::UnsupportedMethod(s.clone()),
            HttpError::MalformedHeader(s) => HttpError::MalformedHeader(s.clone()),
            HttpError::HeadersTooLarge => HttpError::HeadersTooLarge,
            HttpError::BodyTooLarge(n) => HttpError::BodyTooLarge(*n),
            HttpError::LengthRequired => HttpError::LengthRequired,
            HttpError::InvalidContentLength(s) => HttpError::InvalidContentLength(s.clone()),
            HttpError::BadPercentEncoding(s) => HttpError::BadPercentEncoding(s.clone()),
            HttpError::Io(s) => HttpError::Io(s.clone()),
        }
    }
}

/// The status code with which a request is refused.
pub open spec fn error_status(e: HttpErrorSpec) -> u16 {
    match e {
        HttpErrorSpec::UnsupportedMethod(_) => 405,
        HttpErrorSpec::HeadersTooLarge => 413,
        HttpErrorSpec::BodyTooLarge(_) => 413,
        HttpErrorSpec::LengthRequired => 411,
        _ => 400,
    }
}

/// The text of an error.
pub open spec fn http_error_text(e: HttpErrorSpec) -> Seq<char> {
    match e {
        HttpErrorSpec::MalformedRequestLine(s) => "Request: malformed request line "@ + debug_text(
            s,
        ),
        HttpErrorSpec::UnsupportedMethod(s) => "Request: unsupported method "@ + debug_text(s),
        HttpErrorSpec::MalformedHeader(s) => "Request: malformed header "@ + debug_text(s),
        HttpErrorSpec::HeadersTooLarge => "Request: header block too large"@,
        HttpErrorSpec::BodyTooLarge(n) => "Request: body of "@ + int_text(n as int)
            + " bytes too large"@,
        HttpErrorSpec::LengthRequired => "Request: Content-Length required"@,
        HttpErrorSpec::InvalidContentLength(s) => "Request: invalid Content-Length "@ + debug_text(
            s,
        ),
        HttpErrorSpec::BadPercentEncoding(s) => "QueryParams: bad percent-encoding in "@
            + debug_text(s),
        HttpErrorSpec::Io(s) => "Request: io error: "@ + s,
    }
}

impl HttpError {
    pub fn status(&self) -> (r: u16)
        ensures
            r == error_status(self@),
    {
        match self {
            HttpError::UnsupportedMethod(_) => 405,
            HttpError::HeadersTooLarge => 413,
            HttpError::BodyTooLarge(_) => 413,
            HttpError::LengthRequired => 411,
            _ => 400,
        }
    }

    pub fn message(&self) -> (r: String)
        ensures
            r@ == http_error_text(self@),
    {
        let mut out = String::new();
        match self {
            HttpError::MalformedRequestLine(s) => {
                out.append("Request: malformed request line ");
                out.append(debug_string(s.as_str()).as_str());
            },
            HttpError::UnsupportedMethod(s) => {
                out.append("Request: unsupported method ");
                out.append(debug_string(s.as_str()).as_str());
            },
            HttpError::MalformedHeader(s) => {
                out.append("Request: malformed header ");
                out.append(debug_string(s.as_str()).as_str());
            },
            HttpError::HeadersTooLarge => {
                out.append("Request: header block too large");
            },
            HttpError::BodyTooLarge(n) => {
                out.append("Request: body of ");
                push_unsigned(&mut out, *n as u64);
                out.append(" bytes too large");
            },
            HttpError::LengthRequired => {
                out.append("Request: Content-Length required");
            },
            HttpError::InvalidContentLength(s) => {
                out.append("Request: invalid Content-Length ");
                out.append(debug_string(s.as_str()).as_str());
            },
            HttpError::BadPercentEncoding(s) => {
                out.append("QueryParams: bad percent-encoding in ");
                out.append(debug_string(s.as_str()).as_str());
            },
            HttpError::Io(s) => {
                out.append("Request: io error: ");
                out.append(s.as_str());
            },
        }
        assert(out@ =~= http_error_text(self@));
        out
    }
}

/// The value of a hexadecimal digit.
pub open spec fn hex_byte(b: u8) -> Option<u8> {
    if 0x30 <= b <= 0x39 {
        Some((b - 0x30) as u8)
    } else if 0x41 <= b <= 0x46 {
        Some((b - 0x41 + 10) as u8)
    } else if 0x61 <= b <= 0x66 {
        Some((b - 0x61 + 10) as u8)
    } else {
        None
    }
}

/// The byte that two characters after a percent sign denote: two hexadecimal
/// digits, or a plus sign and one.
pub open spec fn hex_pair(a: u8, b: u8) -> Option<u8> {
    match (hex_byte(a), hex_byte(b)) {
        (Some(x), Some(y)) => Some((16 * x + y) as u8),
        (None, Some(y)) => if a == 0x2b {
            Some(y)
        } else {
            None
        },
        _ => None,
    }
}

/// The bytes that percent-encoded bytes stand for, behind `seen`.
pub open spec fn percent_bytes(s: Seq<u8>, seen: Seq<u8>) -> Option<Seq<u8>>
    decreases s.len(),
{
    if s.len() == 0 {
        Some(seen)
    } else if s[0] == 0x25 {
        if s.len() < 3 {
            None
        } else {
            match hex_pair(s[1], s[2]) {
                Some(b) => percent_bytes(s.skip(3), seen.push(b)),
                None => None,
            }
        }
    } else if s[0] == 0x2b {
        percent_bytes(s.skip(1), seen.push(0x20))
    } else {
        percent_bytes(s.skip(1), seen.push(s[0]))
    }
}

/// The text that a percent-encoded text stands for.
pub open spec fn percent_text(s: Seq<char>) -> Option<Seq<char>> {
    match percent_bytes(encode_utf8(s), seq![]) {
        Some(b) => if valid_utf8(b) {
            Some(decode_utf8(b))
        } else {
            None
        },
        None => None,
    }
}

fn hex_value(b: u8) -> (r: Option<u8>)
    ensures
        r == hex_byte(b),
        r matches Some(v) ==> v < 16,
{
    if 0x30 <= b && b <= 0x39 {
        Some(b - 0x30)
    } else if 0x41 <= b && b <= 0x46 {
        Some(b - 0x41 + 10)
    } else if 0x61 <= b && b <= 0x66 {
        Some(b - 0x61 + 10)
    } else {
        None
    }
}

pub fn percent_decode(s: &str) -> (r: Result<String, HttpError>)
    ensures
        match percent_text(s@) {
            Some(t) => r matches Ok(x) && x@ == t,
            None => r matches Err(e) && e@ == HttpErrorSpec::BadPercentEncoding(s@),
        },
{
    let bytes = s.as_bytes();
    let ghost all = encode_utf8(s@);
    let mut out: Vec<u8> = Vec::new();
    let mut i: usize = 0;
    assert(all.skip(0) =~= all);
    assert(out@ =~= seq![]);
    while i < bytes.len()
        invariant
            bytes@ == all,
            all == encode_utf8(s@),
            i <= all.len(),
            percent_bytes(all, seq![]) == percent_bytes(all.skip(i as int), out@),
        decreases all.len() - i,
    {
        let ghost t = all.skip(i as int);
        let b = bytes[i];
        assert(t.skip(1) =~= all.skip(i + 1));
        if b == 0x25 {
            if bytes.len() - i < 3 {
                return Err(HttpError::BadPercentEncoding(s.to_owned()));
            }
            assert(t.skip(3) =~= all.skip(i + 3));
            let low = match hex_value(bytes[i + 2]) {
                Some(v) => v,
                None => {
                    return Err(HttpError::BadPercentEncoding(s.to_owned()));
                },
            };
            let byte: u8 = match hex_value(bytes[i + 1]) {
                Some(v) => 16 * v + low,
                None => if bytes[i + 1] == 0x2b {
                    low
                } else {
                    return Err(HttpError::BadPercentEncoding(s.to_owned()));
                },
            };
            out.push(byte);
            i += 3;
        } else if b == 0x2b {
            out.push(0x20);
            i += 1;
        } else {
            out.push(b);
            i += 1;
        }
    }
    match string_from_utf8(out) {
        Some(text) => Ok(text),
        None => Err(HttpError::BadPercentEncoding(s.to_owned())),
    }
}

/// A text without percent and plus signs stands for itself.
pub proof fn law_plain_text_decodes_to_itself(s: Seq<char>)
    requires
        !s.contains('%'),
        !s.contains('+'),
    ensures
        percent_text(s) == Some(s),
{
    let b = encode_utf8(s);
    lemma_encode_lacks(s, '%');
    lemma_encode_lacks(s, '+');
    lemma_plain_bytes(b, seq![]);
    assert(Seq::<u8>::empty() + b =~= b);
    vstd::utf8::encode_utf8_valid_utf8(s);
    vstd::utf8::encode_utf8_decode_utf8(s);
}

proof fn lemma_plain_bytes(b: Seq<u8>, seen: Seq<u8>)
    requires
        forall|i: int| 0 <= i < b.len() ==> #[trigger] b[i] != 0x25 && b[i] != 0x2b,
    ensures
        percent_bytes(b, seen) == Some(seen + b),
    decreases b.len(),
{
    if b.len() == 0 {
        assert(seen + b =~= seen);
    } else {
        let t = b.skip(1);
        assert forall|i: int| 0 <= i < t.len() implies #[trigger] t[i] != 0x25 && t[i] != 0x2b by {
            assert(t[i] == b[i + 1]);
        }
        assert(b[0] != 0x25 && b[0] != 0x2b);
        lemma_plain_bytes(t, seen.push(b[0]));
        assert(seen.push(b[0]) + t =~= seen + b);
    }
}

/// The names and values of a query.
pub type ParamPairs = Seq<(Seq<char>, Seq<char>)>;

/// The parameter that a part of a query stands for.
pub open spec fn param_of(part: Seq<char>) -> Result<(Seq<char>, Seq<char>), HttpErrorSpec> {
    let e = index_of(part, '=');
    let key = part.take(e);
    let value = if e < part.len() {
        part.skip(e + 1)
    } else {
        seq![]
    };
    match percent_text(key) {
        None => Err(HttpErrorSpec::BadPercentEncoding(key)),
        Some(k) => match percent_text(value) {
            None => Err(HttpErrorSpec::BadPercentEncoding(value)),
            Some(v) => Ok((k, v)),
        },
    }
}

/// The parameters of a query, behind `seen`; empty parts are passed over.
pub open spec fn params_of(s: Seq<char>, seen: ParamPairs) -> Result<ParamPairs, HttpErrorSpec>
    decreases s.len(),
{
    let i = index_of(s, '&');
    let part = s.take(i);
    let next = if part.len() == 0 {
        Ok(seen)
    } else {
        match param_of(part) {
            Ok(p) => Ok(seen.push(p)),
            Err(e) => Err(e),
        }
    };
    match next {
        Err(e) => Err(e),
        Ok(found) => if 0 <= i < s.len() {
            params_of(s.skip(i + 1), found)
        } else {
            Ok(found)
        },
    }
}

/// The parameters behind others are read as they are alone.
proof fn lemma_params_behind(s: Seq<char>, seen: ParamPairs)
    ensures
        params_of(s, seen) == match params_of(s, seq![]) {
            Ok(found) => Ok(seen + found),
            Err(e) => Err(e),
        },
    decreases s.len(),
{
    let i = index_of(s, '&');
    lemma_index_where(s, is_char('&'));
    let part = s.take(i);
    assert(seen + Seq::<(Seq<char>, Seq<char>)>::empty() =~= seen);
    if part.len() == 0 {
        if i < s.len() {
            lemma_params_behind(s.skip(i + 1), seen);
        }
    } else if let Ok(p) = param_of(part) {
        let one = Seq::<(Seq<char>, Seq<char>)>::empty().push(p);
        assert(seen + one =~= seen.push(p));
        if i < s.len() {
            let rest = s.skip(i + 1);
            lemma_params_behind(rest, seen.push(p));
            lemma_params_behind(rest, one);
            if let Ok(found) = params_of(rest, seq![]) {
                assert(seen.push(p) + found =~= seen + (one + found));
            }
        }
    }
}

/// Two queries joined by an ampersand have the parameters of both, in their
/// order; the first refusal counts.
pub proof fn law_joined_queries(a: Seq<char>, b: Seq<char>)
    ensures
        params_of(a.push('&') + b, seq![]) == match (
            params_of(a, seq![]),
            params_of(b, seq![]),
        ) {
            (Err(e), _) => Err(e),
            (Ok(_), Err(e)) => Err(e),
            (Ok(x), Ok(y)) => Ok(x + y),
        },
{
    lemma_joined_queries(a, b, seq![]);
    if let Ok(x) = params_of(a, seq![]) {
        lemma_params_behind(b, x);
    }
}

proof fn lemma_joined_queries(a: Seq<char>, b: Seq<char>, seen: ParamPairs)
    ensures
        params_of(a.push('&') + b, seen) == match params_of(a, seen) {
            Ok(x) => params_of(b, x),
            Err(e) => Err(e),
        },
    decreases a.len(),
{
    let s = a.push('&') + b;
    let i = index_of(a, '&');
    lemma_index_where(a, is_char('&'));
    assert forall|j: int| 0 <= j < i implies !is_char('&')(#[trigger] s[j]) by {
        assert(s[j] == a[j]);
    }
    assert(s[i] == if i < a.len() {
        a[i]
    } else {
        '&'
    });
    lemma_index_where_is(s, is_char('&'), i);
    assert(s.take(i) =~= a.take(i));
    if i < a.len() {
        let rest = a.skip(i + 1);
        assert(s.skip(i + 1) =~= rest.push('&') + b);
        let part = a.take(i);
        if part.len() == 0 {
            lemma_joined_queries(rest, b, seen);
        } else if let Ok(p) = param_of(part) {
            lemma_joined_queries(rest, b, seen.push(p));
        }
    } else {
        assert(s.skip(i + 1) =~= b);
    }
}

/// The value of the first parameter with the name.
pub open spec fn param_value(s: ParamPairs, key: Seq<char>) -> Option<Seq<char>>
    decreases s.len(),
{
    if s.len() == 0 {
        None
    } else if s[0].0 == key {
        Some(s[0].1)
    } else {
        param_value(s.skip(1), key)
    }
}

/// Decoded query parameters, preserving order and repeats.
#[derive(Debug, PartialEq)]
pub struct QueryParams {
    pairs: Vec<(String, String)>,
}

pub open spec fn string_pairs(s: Seq<(String, String)>) -> ParamPairs {
    s.map_values(|e: (String, String)| (e.0@, e.1@))
}

impl View for QueryParams {
    type V = ParamPairs;

    closed spec fn view(&self) -> ParamPairs {
        string_pairs(self.pairs@)
    }
}

impl Default for QueryParams {
    fn default() -> (r: Self)
        ensures
            r@ == ParamPairs::empty(),
    {
        let r = QueryParams { pairs: Vec::new() };
        assert(r@ =~= ParamPairs::empty());
        r
    }
}

impl Clone for QueryParams {
    fn clone(&self) -> (r: Self)
        ensures
            r@ == self@,
    {
        let mut pairs: Vec<(String, String)> = Vec::new();
        for i in 0..self.pairs.len()
            invariant
                string_pairs(pairs@) == self@.take(i as int),
        {
            let ghost before = string_pairs(pairs@);
            let (k, v) = &self.pairs[i];
            pairs.push((k.clone(), v.clone()));
            assert(string_pairs(pairs@) =~= before.push((k@, v@)));
            assert(self@.take(i + 1) =~= self@.take(i as int).push(self@[i as int]));
        }
        assert(self@.take(self.pairs@.len() as int) =~= self@);
        QueryParams { pairs }
    }
}

impl QueryParams {
    fn parse_part(part: &[char]) -> (r: Result<(String, String), HttpError>)
        ensures
            match param_of(part@) {
                Ok(p) => r matches Ok(x) && (x.0@, x.1@) == p,
                Err(e) => r matches Err(x) && x@ == e,
            },
    {
        let e = find_char(part, '=');
        let before = slice_subrange(part, 0, e);
        assert(before@ == part@.take(e as int));
        let key_text = from_chars(before);
        let mut value_text = String::new();
        if e < part.len() {
            let after = slice_subrange(part, e + 1, part.len());
            assert(after@ == part@.skip(e + 1));
            value_text = from_chars(after);
        }
        assert(value_text@ =~= if e < part@.len() {
            part@.skip(e + 1)
        } else {
            seq![]
        });
        let key = match percent_decode(key_text.as_str()) {
            Ok(k) => k,
            Err(x) => {
                return Err(x);
            },
        };
        match percent_decode(value_text.as_str()) {
            Ok(value) => Ok((key, value)),
            Err(x) => Err(x),
        }
    }

    pub fn parse(raw: &str) -> (r: Result<Self, HttpError>)
        ensures
            match params_of(raw@, seq![]) {
                Ok(p) => r matches Ok(x) && x@ == p,
                Err(e) => r matches Err(x) && x@ == e,
            },
    {
        let chars = to_chars(raw);
        let mut at: &[char] = chars.as_slice();
        let mut pairs: Vec<(String, String)> = Vec::new();
        assert(string_pairs(pairs@) =~= seq![]);
        loop
            invariant
                params_of(raw@, seq![]) == params_of(at@, string_pairs(pairs@)),
            decreases at@.len(),
        {
            let ghost seen = string_pairs(pairs@);
            let i = find_char(at, '&');
            let part = slice_subrange(at, 0, i);
            assert(part@ == at@.take(i as int));
            if part.len() > 0 {
                match QueryParams::parse_part(part) {
                    Ok(p) => {
                        let ghost view = (p.0@, p.1@);
                        pairs.push(p);
                        assert(string_pairs(pairs@) =~= seen.push(view));
                    },
                    Err(e) => {
                        return Err(e);
                    },
                }
            }
            if i == at.len() {
                return Ok(QueryParams { pairs });
            }
            assert(at@.subrange(i + 1, at@.len() as int) =~= at@.skip(i + 1));
            at = slice_subrange(at, i + 1, at.len());
        }
    }

    pub fn get(&self, key: &str) -> (r: Option<&str>)
        ensures
            match param_value(self@, key@) {
                Some(v) => r matches Some(x) && x@ == v,
                None => r is None,
            },
    {
        assert(self@.skip(0) =~= self@);
        for i in 0..self.pairs.len()
            invariant
                param_value(self@, key@) == param_value(self@.skip(i as int), key@),
        {
            let (k, v) = &self.pairs[i];
            assert(self@.skip(i as int)[0] == (k@, v@));
            if str_eq(k.as_str(), key) {
                return Some(v.as_str());
            }
            assert(self@.skip(i as int).skip(1) =~= self@.skip(i + 1));
        }
        None
    }

    pub fn iter(&self) -> (r: std::slice::Iter<'_, (String, String)>)
        ensures
            string_pairs(vstd::std_specs::slice::into_iter_elts(r)) == self@,
            IteratorSpec::remaining(&r).unref() == vstd::std_specs::slice::into_iter_elts(r),
            IteratorSpec::decrease(&r) is Some,
            IteratorSpec::initial_value_relation(&r, &r),
    {
        self.pairs.as_slice().iter()
    }

    pub fn len(&self) -> (r: usize)
        ensures
            r == self@.len(),
    {
        self.pairs.len()
    }

    /// The name and the value at an index.
    pub fn at(&self, i: usize) -> (r: (&str, &str))
        requires
            i < self@.len(),
        ensures
            (r.0@, r.1@) == self@[i as int],
    {
        let (k, v) = &self.pairs[i];
        (k.as_str(), v.as_str())
    }
}

/// The contents of a request.
pub struct RequestSpec {
    pub method: Method,
    pub path: Seq<char>,
    pub query: ParamPairs,
    pub body: Seq<u8>,
}

/// A fully parsed HTTP request: the only request shape handlers ever see.
#[derive(Debug, PartialEq)]
pub struct Request {
    pub method: Method,
    pub path: String,
    pub query: QueryParams,
    pub body: Vec<u8>,
}

impl View for Request {
    type V = RequestSpec;

    open spec fn view(&self) -> RequestSpec {
        RequestSpec {
            method: self.method,
            path: self.path@,
            query: self.query@,
            body: self.body@,
        }
    }
}

impl Clone for Request {
    fn clone(&self) -> (r: Self)
        ensures
            r@ == self@,
    {
        Request {
            method: self.method,
            path: self.path.clone(),
            query: self.query.clone(),
            body: slice_to_vec(self.body.as_slice()),
        }
    }
}

/// The contents of a response.
pub struct ResponseSpec {
    pub status: u16,
    pub content_type: Seq<char>,
    pub body: Seq<u8>,
}

#[derive(Debug, PartialEq)]
pub struct Response {
    pub status: u16,
    pub content_type: &'static str,
    pub body: Vec<u8>,
}

impl View for Response {
    type V = ResponseSpec;

    open spec fn view(&self) -> ResponseSpec {
        ResponseSpec {
            status: self.status,
            content_type: self.content_type@,
            body: self.body@,
        }
    }
}

impl Clone for Response {
    fn clone(&self) -> (r: Self)
        ensures
            r@ == self@,
    {
        Response {
            status: self.status,
            content_type: self.content_type,
            body: slice_to_vec(self.body.as_slice()),
        }
    }
}

pub open spec fn json_response(status: u16, body: Seq<char>) -> ResponseSpec {
    ResponseSpec {
        status,
        content_type: "application/json; charset=utf-8"@,
        body: encode_utf8(body),
    }
}

pub open spec fn text_response(status: u16, body: Seq<char>) -> ResponseSpec {
    ResponseSpec { status, content_type: "text/plain; charset=utf-8"@, body: encode_utf8(body) }
}

pub open spec fn html_response(body: Seq<char>) -> ResponseSpec {
    ResponseSpec {
        status: 200,
        content_type: "text/html; charset=utf-8"@,
        body: encode_utf8(body),
    }
}

pub open spec fn empty_response() -> ResponseSpec {
    ResponseSpec { status: 204, content_type: "text/plain; charset=utf-8"@, body: seq![] }
}

/// A refusal, with its reason as JSON.
pub open spec fn error_response(status: u16, message: Seq<char>) -> ResponseSpec {
    json_response(status, json_object(seq![member("error"@, json_string(message))]))
}

impl Response {
    pub fn json(status: u16, body: String) -> (r: Self)
        ensures
            r@ == json_response(status, body@),
    {
        Response {
            status,
            content_type: "application/json; charset=utf-8",
            body: slice_to_vec(body.as_str().as_bytes()),
        }
    }

    pub fn text(status: u16, body: String) -> (r: Self)
        ensures
            r@ == text_response(status, body@),
    {
        Response {
            status,
            content_type: "text/plain; charset=utf-8",
            body: slice_to_vec(body.as_str().as_bytes()),
        }
    }

    pub fn html(body: &'static str) -> (r: Self)
        ensures
            r@ == html_response(body@),
    {
        Response {
            status: 200,
            content_type: "text/html; charset=utf-8",
            body: slice_to_vec(body.as_bytes()),
        }
    }

    pub fn no_content() -> (r: Self)
        ensures
            r@ == empty_response(),
    {
        let r = Response {
            status: 204,
            content_type: "text/plain; charset=utf-8",
            body: Vec::new(),
        };
        assert(r.body@ =~= seq![]);
        r
    }

    pub fn json_error(status: u16, message: &str) -> (r: Self)
        ensures
            r@ == error_response(status, message@),
    {
        let mut w = JsonWriter::new();
        let _ = w.begin_object();
        let _ = w.key("error");
        let _ = w.string(message);
        let _ = w.end_object();
        proof {
            let items = seq![member("error"@, json_string(message@))];
            lemma_opened(fresh(), '{');
            lemma_within_member(fresh(), '{', seq![], "error"@, json_string(message@));
            assert(Seq::<Seq<char>>::empty().push(member("error"@, json_string(message@)))
                =~= items);
            lemma_closed(fresh(), items);
            assert(with_value(fresh(), json_object(items)).text =~= json_object(items));
        }
        Response::json(status, w.finish())
    }
}

/// The reason phrase of a status code.
pub open spec fn reason(status: u16) -> Seq<char> {
    if status == 200 {
        "OK"@
    } else if status == 204 {
        "No Content"@
    } else if status == 400 {
        "Bad Request"@
    } else if status == 404 {
        "Not Found"@
    } else if status == 405 {
        "Method Not Allowed"@
    } else if status == 411 {
        "Length Required"@
    } else if status == 413 {
        "Payload Too Large"@
    } else if status == 500 {
        "Internal Server Error"@
    } else {
        "Unknown"@
    }
}

pub fn status_reason(status: u16) -> (r: &'static str)
    ensures
        r@ == reason(status),
{
    match status {
        200 => "OK",
        204 => "No Content",
        400 => "Bad Request",
        404 => "Not Found",
        405 => "Method Not Allowed",
        411 => "Length Required",
        413 => "Payload Too Large",
        500 => "Internal Server Error",
        _ => "Unknown",
    }
}

} // verus!
