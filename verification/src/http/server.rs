//! HTTP/1.1 server subset: request parsing, line by line, and responses.

use vstd::prelude::*;
use vstd::slice::{slice_subrange, slice_to_vec};
use vstd::utf8::{decode_utf8, encode_utf8, valid_utf8};

use super::{
    error_status, http_error_text, method_of, params_of, percent_decode, percent_text, reason,
    status_reason, text_response, HttpError, HttpErrorSpec, Method, ParamPairs, QueryParams,
    Request, RequestSpec, Response, ResponseSpec,
};
use crate::numeral::{int_text, push_unsigned, read_unsigned, unsigned_upto};
use crate::text::{
    chars_eq_ignore_case, drop_trailing_white, find_char, from_chars, index_of, lower_text,
    starts_with, string_from_utf8, strip_prefix, to_chars, trim, trim_chars, trim_end,
};

verus! {

pub const MAX_HEADER_BYTES: usize = 16384;

pub const MAX_BODY_BYTES: usize = 4194304;

pub const MAX_CONNECTIONS: usize = 64;

/// The number of bytes of the first line, with its line feed.
pub open spec fn line_len(s: Seq<u8>) -> nat
    decreases s.len(),
{
    if s.len() == 0 {
        0
    } else if s[0] == 0x0a {
        1
    } else {
        1 + line_len(s.skip(1))
    }
}

/// The pieces between the blanks of a text.
pub open spec fn pieces(s: Seq<char>) -> Seq<Seq<char>>
    decreases s.len(),
{
    let i = index_of(s, ' ');
    if 0 <= i < s.len() {
        seq![s.take(i)] + pieces(s.skip(i + 1))
    } else {
        seq![s]
    }
}

/// What a request line says.
pub struct HeadSpec {
    pub method: Method,
    pub path: Seq<char>,
    pub query: ParamPairs,
}

/// What a request line, without white space at its end, says.
pub open spec fn head_of(line: Seq<char>) -> Result<HeadSpec, HttpErrorSpec> {
    let ps = pieces(line);
    if ps.len() != 3 || !starts_with(ps[2], "HTTP/1."@) {
        Err(HttpErrorSpec::MalformedRequestLine(line))
    } else {
        match method_of(ps[0]) {
            None => Err(HttpErrorSpec::UnsupportedMethod(ps[0])),
            Some(method) => {
                let q = index_of(ps[1], '?');
                let raw = ps[1].take(q);
                let query = if q < ps[1].len() {
                    ps[1].skip(q + 1)
                } else {
                    seq![]
                };
                match percent_text(raw) {
                    None => Err(HttpErrorSpec::BadPercentEncoding(raw)),
                    Some(path) => match params_of(query, seq![]) {
                        Err(e) => Err(e),
                        Ok(params) => Ok(HeadSpec { method, path, query: params }),
                    },
                }
            },
        }
    }
}

/// The content length after a header line: the one known before, unless the
/// line gives one.
pub open spec fn header_length(line: Seq<char>, known: Option<nat>) -> Result<
    Option<nat>,
    HttpErrorSpec,
> {
    let c = index_of(line, ':');
    let value = trim(line.skip(c + 1));
    if c >= line.len() {
        Err(HttpErrorSpec::MalformedHeader(line))
    } else if lower_text(trim(line.take(c))) == "content-length"@ {
        match unsigned_upto(value, usize::MAX as nat) {
            Some(n) => Ok(Some(n)),
            None => Err(HttpErrorSpec::InvalidContentLength(value)),
        }
    } else {
        Ok(known)
    }
}

/// The length of the body that follows the headers.
pub open spec fn body_length(method: Method, known: Option<nat>) -> Result<nat, HttpErrorSpec> {
    match known {
        Some(n) => if n > MAX_BODY_BYTES {
            Err(HttpErrorSpec::BodyTooLarge(n))
        } else {
            Ok(n)
        },
        None => if method == Method::Post {
            Err(HttpErrorSpec::LengthRequired)
        } else {
            Ok(0)
        },
    }
}

/// The text of a line, without white space at its end, after `used` bytes of
/// other lines.
pub open spec fn line_text(line: Seq<u8>, used: nat) -> Result<Seq<char>, HttpErrorSpec> {
    if !valid_utf8(line) {
        Err(HttpErrorSpec::Io("stream did not contain valid UTF-8"@))
    } else if line.len() == 0 {
        Err(HttpErrorSpec::Io("connection closed mid-request"@))
    } else if used + line.len() > MAX_HEADER_BYTES {
        Err(HttpErrorSpec::HeadersTooLarge)
    } else {
        Ok(trim_end(decode_utf8(line)))
    }
}

/// What is known of a request after some of its lines.
pub struct Progress {
    pub used: nat,
    pub head: Option<HeadSpec>,
    pub length: Option<nat>,
}

pub open spec fn no_lines() -> Progress {
    Progress { used: 0, head: None, length: None }
}

/// What is known after a further line, and the length of the body if the line
/// ends the headers.
pub open spec fn after_line(known: Progress, line: Seq<u8>) -> Result<
    (Progress, Option<nat>),
    HttpErrorSpec,
> {
    let used = known.used + line.len();
    match line_text(line, known.used) {
        Err(e) => Err(e),
        Ok(text) => match known.head {
            None => match head_of(text) {
                Err(e) => Err(e),
                Ok(head) => Ok((Progress { used, head: Some(head), length: known.length }, None)),
            },
            Some(head) => if text.len() == 0 {
                match body_length(head.method, known.length) {
                    Err(e) => Err(e),
                    Ok(n) => Ok((Progress { used, ..known }, Some(n))),
                }
            } else {
                match header_length(text, known.length) {
                    Err(e) => Err(e),
                    Ok(length) => Ok((Progress { used, length, ..known }, None)),
                }
            },
        },
    }
}

/// The request that the bytes hold, after the lines that are known.
pub open spec fn request_after(known: Progress, s: Seq<u8>) -> Result<RequestSpec, HttpErrorSpec>
    decreases s.len(),
    via request_after_shrinks
{
    let n = line_len(s);
    let rest = s.skip(n as int);
    match after_line(known, s.take(n as int)) {
        Err(e) => Err(e),
        Ok((next, None)) => request_after(next, rest),
        Ok((next, Some(length))) => if rest.len() < length {
            Err(HttpErrorSpec::Io("failed to fill whole buffer"@))
        } else {
            let head = next.head->0;
            Ok(
                RequestSpec {
                    method: head.method,
                    path: head.path,
                    query: head.query,
                    body: rest.take(length as int),
                },
            )
        },
    }
}

#[via_fn]
proof fn request_after_shrinks(known: Progress, s: Seq<u8>) {
    lemma_line_len(s);
}

pub proof fn lemma_line_len(s: Seq<u8>)
    ensures
        line_len(s) <= s.len(),
        s.len() > 0 ==> line_len(s) > 0,
    decreases s.len(),
{
    if s.len() > 0 && s[0] != 0x0a {
        lemma_line_len(s.skip(1));
    }
}

/// The request that the bytes hold.
pub open spec fn request_of(s: Seq<u8>) -> Result<RequestSpec, HttpErrorSpec> {
    request_after(no_lines(), s)
}

struct Head {
    method: Method,
    path: String,
    query: QueryParams,
}

impl View for Head {
    type V = HeadSpec;

    closed spec fn view(&self) -> HeadSpec {
        HeadSpec { method: self.method, path: self.path@, query: self.query@ }
    }
}

/// The piece before the first blank, and what follows the blank.
pub(crate) fn split_blank<'a>(s: &'a [char]) -> (r: (&'a [char], Option<&'a [char]>))
    ensures
        match r.1 {
            Some(rest) => pieces(s@) == seq![r.0@] + pieces(rest@),
            None => pieces(s@) == seq![r.0@],
        },
{
    let i = find_char(s, ' ');
    let first = slice_subrange(s, 0, i);
    assert(first@ == s@.take(i as int));
    if i < s.len() {
        let rest = slice_subrange(s, i + 1, s.len());
        assert(rest@ == s@.skip(i + 1));
        (first, Some(rest))
    } else {
        assert(s@.take(i as int) =~= s@);
        (first, None)
    }
}

/// The three pieces of a text, if it has three.
fn three_pieces<'a>(s: &'a [char]) -> (r: Option<(&'a [char], &'a [char], &'a [char])>)
    ensures
        match r {
            Some((a, b, c)) => pieces(s@) == seq![a@, b@, c@],
            None => pieces(s@).len() != 3,
        },
{
    let (a, rest) = split_blank(s);
    let rest = match rest {
        Some(t) => t,
        None => {
            return None;
        },
    };
    let (b, rest1) = split_blank(rest);
    let rest1 = match rest1 {
        Some(t) => t,
        None => {
            return None;
        },
    };
    let (c, rest2) = split_blank(rest1);
    match rest2 {
        Some(t) => {
            proof {
                lemma_pieces(t@);
            }
            None
        },
        None => {
            assert(pieces(s@) =~= seq![a@, b@, c@]);
            Some((a, b, c))
        },
    }
}

proof fn lemma_pieces(s: Seq<char>)
    ensures
        pieces(s).len() > 0,
{
}

fn parse_head(line: &[char]) -> (r: Result<Head, HttpError>)
    ensures
        match head_of(line@) {
            Ok(h) => r matches Ok(x) && x@ == h,
            Err(e) => r matches Err(x) && x@ == e,
        },
{
    let (first, target, version) = match three_pieces(line) {
        Some(t) => t,
        None => {
            return Err(HttpError::MalformedRequestLine(from_chars(line)));
        },
    };
    if strip_prefix(version, "HTTP/1.").is_none() {
        return Err(HttpError::MalformedRequestLine(from_chars(line)));
    }
    let word = from_chars(first);
    let method = match Method::parse(word.as_str()) {
        Ok(m) => m,
        Err(e) => {
            return Err(e);
        },
    };
    let q = find_char(target, '?');
    let raw = slice_subrange(target, 0, q);
    assert(raw@ == target@.take(q as int));
    let mut query_text = String::new();
    if q < target.len() {
        let tail = slice_subrange(target, q + 1, target.len());
        assert(tail@ == target@.skip(q + 1));
        query_text = from_chars(tail);
    }
    assert(query_text@ =~= if q < target@.len() {
        target@.skip(q + 1)
    } else {
        seq![]
    });
    let path_text = from_chars(raw);
    let path = match percent_decode(path_text.as_str()) {
        Ok(p) => p,
        Err(e) => {
            return Err(e);
        },
    };
    match QueryParams::parse(query_text.as_str()) {
        Ok(query) => Ok(Head { method, path, query }),
        Err(e) => Err(e),
    }
}

pub open spec fn as_nat(n: Option<usize>) -> Option<nat> {
    match n {
        Some(v) => Some(v as nat),
        None => None,
    }
}

fn parse_header(line: &[char], known: Option<usize>) -> (r: Result<Option<usize>, HttpError>)
    ensures
        match header_length(line@, as_nat(known)) {
            Ok(n) => r matches Ok(x) && as_nat(x) == n,
            Err(e) => r matches Err(x) && x@ == e,
        },
{
    let c = find_char(line, ':');
    if c == line.len() {
        return Err(HttpError::MalformedHeader(from_chars(line)));
    }
    let before = slice_subrange(line, 0, c);
    let after = slice_subrange(line, c + 1, line.len());
    assert(before@ == line@.take(c as int));
    assert(after@ == line@.skip(c + 1));
    if chars_eq_ignore_case(trim_chars(before), "content-length") {
        let value = trim_chars(after);
        match read_unsigned(value, usize::MAX as u64) {
            Some(n) => Ok(Some(n as usize)),
            None => Err(HttpError::InvalidContentLength(from_chars(value))),
        }
    } else {
        Ok(known)
    }
}

fn body_size(method: Method, known: Option<usize>) -> (r: Result<usize, HttpError>)
    ensures
        match body_length(method, as_nat(known)) {
            Ok(n) => r matches Ok(x) && x == n,
            Err(e) => r matches Err(x) && x@ == e,
        },
{
    match known {
        Some(n) => if n > MAX_BODY_BYTES {
            Err(HttpError::BodyTooLarge(n))
        } else {
            Ok(n)
        },
        None => match method {
            Method::Post => Err(HttpError::LengthRequired),
            Method::Get => Ok(0),
        },
    }
}

/// Reads the head of a request, line by line.
pub struct HeadReader {
    used: usize,
    head: Option<Head>,
    content_length: Option<usize>,
}

impl View for HeadReader {
    type V = Progress;

    closed spec fn view(&self) -> Progress {
        Progress {
            used: self.used as nat,
            head: match self.head {
                Some(h) => Some(h@),
                None => None,
            },
            length: as_nat(self.content_length),
        }
    }
}

impl HeadReader {
    #[verifier::type_invariant]
    spec fn within_limit(&self) -> bool {
        self.used <= MAX_HEADER_BYTES
    }

    pub fn new() -> (r: Self)
        ensures
            r@ == no_lines(),
    {
        HeadReader { used: 0, head: None, content_length: None }
    }

    /// Takes the next line, with its line feed; the empty line stands for the
    /// end of the stream. Gives the length of the body once the headers end.
    pub fn line(&mut self, line: &[u8]) -> (r: Result<Option<usize>, HttpError>)
        ensures
            match after_line(old(self)@, line@) {
                Ok((next, length)) => final(self)@ == next && (r matches Ok(x) && as_nat(x)
                    == length),
                Err(e) => final(self)@ == old(self)@ && (r matches Err(x) && x@ == e),
            },
    {
        proof {
            use_type_invariant(&*self);
        }
        let text = match string_from_utf8(slice_to_vec(line)) {
            Some(t) => t,
            None => {
                return Err(HttpError::Io("stream did not contain valid UTF-8".to_owned()));
            },
        };
        if line.len() == 0 {
            return Err(HttpError::Io("connection closed mid-request".to_owned()));
        }
        if line.len() > MAX_HEADER_BYTES - self.used {
            return Err(HttpError::HeadersTooLarge);
        }
        let used = self.used + line.len();
        let chars = to_chars(text.as_str());
        let trimmed = drop_trailing_white(chars.as_slice());
        let method = match &self.head {
            Some(h) => h.method,
            None => {
                return match parse_head(trimmed) {
                    Ok(head) => {
                        self.head = Some(head);
                        self.used = used;
                        Ok(None)
                    },
                    Err(e) => Err(e),
                };
            },
        };
        if trimmed.len() == 0 {
            match body_size(method, self.content_length) {
                Ok(n) => {
                    self.used = used;
                    Ok(Some(n))
                },
                Err(e) => Err(e),
            }
        } else {
            match parse_header(trimmed, self.content_length) {
                Ok(length) => {
                    self.content_length = length;
                    self.used = used;
                    Ok(None)
                },
                Err(e) => Err(e),
            }
        }
    }

    /// The request with the head that was read and the given body; none if no
    /// request line was read.
    pub fn finish(self, body: Vec<u8>) -> (r: Option<Request>)
        ensures
            match self@.head {
                Some(head) => r matches Some(x) && x@ == (RequestSpec {
                    method: head.method,
                    path: head.path,
                    query: head.query,
                    body: body@,
                }),
                None => r is None,
            },
    {
        match self.head {
            Some(head) => Some(
                Request { method: head.method, path: head.path, query: head.query, body },
            ),
            None => None,
        }
    }
}

/// The number of bytes of the first line, with its line feed.
pub(crate) fn first_line(s: &[u8]) -> (r: usize)
    ensures
        r == line_len(s@),
        r <= s@.len(),
        s@.len() > 0 ==> r > 0,
{
    let mut i: usize = 0;
    assert(s@.skip(0) =~= s@);
    while i < s.len()
        invariant
            i <= s@.len(),
            line_len(s@) == i + line_len(s@.skip(i as int)),
        decreases s@.len() - i,
    {
        assert(s@.skip(i as int).skip(1) =~= s@.skip(i + 1));
        if s[i] == 0x0a {
            return i + 1;
        }
        i += 1;
    }
    i
}

/// Parse one HTTP request from the bytes of a stream. Boundary parser:
/// everything downstream sees only `Request`.
pub fn parse_request(input: &[u8]) -> (r: Result<Request, HttpError>)
    ensures
        match request_of(input@) {
            Ok(q) => r matches Ok(x) && x@ == q,
            Err(e) => r matches Err(x) && x@ == e,
        },
{
    let mut reader = HeadReader::new();
    let mut at: &[u8] = input;
    loop
        invariant
            request_of(input@) == request_after(reader@, at@),
        decreases at@.len(),
    {
        let n = first_line(at);
        let line = slice_subrange(at, 0, n);
        let rest = slice_subrange(at, n, at.len());
        assert(line@ == at@.take(n as int));
        assert(rest@ == at@.skip(n as int));
        match reader.line(line) {
            Ok(None) => {
                at = rest;
            },
            Ok(Some(length)) => {
                if rest.len() < length {
                    return Err(HttpError::Io("failed to fill whole buffer".to_owned()));
                }
                let body = slice_to_vec(slice_subrange(rest, 0, length));
                assert(body@ == rest@.take(length as int));
                return match reader.finish(body) {
                    Some(request) => Ok(request),
                    None => Err(HttpError::Io("connection closed mid-request".to_owned())),
                };
            },
            Err(e) => {
                return Err(e);
            },
        }
    }
}

/// The status line and the headers of a response.
pub open spec fn response_head(r: ResponseSpec) -> Seq<char> {
    "HTTP/1.1 "@ + int_text(r.status as int) + " "@ + reason(r.status) + "\r\nContent-Type: "@
        + r.content_type + "\r\nContent-Length: "@ + int_text(r.body.len() as int)
        + "\r\nConnection: close\r\n\r\n"@
}

/// The bytes of a response.
pub open spec fn response_bytes(r: ResponseSpec) -> Seq<u8> {
    encode_utf8(response_head(r)) + r.body
}

fn push_bytes(out: &mut Vec<u8>, s: &[u8])
    ensures
        final(out)@ == old(out)@ + s@,
{
    let ghost start = out@;
    for i in 0..s.len()
        invariant
            out@ == start + s@.take(i as int),
    {
        out.push(s[i]);
        assert(s@.take(i + 1) =~= s@.take(i as int).push(s@[i as int]));
    }
    assert(s@.take(s@.len() as int) =~= s@);
}

/// Appends the bytes of a response.
pub fn write_response(out: &mut Vec<u8>, resp: &Response)
    ensures
        final(out)@ == old(out)@ + response_bytes(resp@),
{
    let ghost before = out@;
    let mut head = String::new();
    head.append("HTTP/1.1 ");
    push_unsigned(&mut head, resp.status as u64);
    head.append(" ");
    head.append(status_reason(resp.status));
    head.append("\r\nContent-Type: ");
    head.append(resp.content_type);
    head.append("\r\nContent-Length: ");
    push_unsigned(&mut head, resp.body.len() as u64);
    head.append("\r\nConnection: close\r\n\r\n");
    assert(head@ =~= response_head(resp@));
    push_bytes(out, head.as_str().as_bytes());
    push_bytes(out, resp.body.as_slice());
    assert(out@ =~= before + response_bytes(resp@));
}

/// The answer to a request that could not be read.
pub fn refusal(e: &HttpError) -> (r: Response)
    ensures
        r@ == text_response(error_status(e@), http_error_text(e@).push('\n')),
{
    let mut text = e.message();
    text.push('\n');
    Response::text(e.status(), text)
}

/// There is room for a further connection.
pub open spec fn has_room(active: nat) -> bool {
    active < MAX_CONNECTIONS
}

/// The answer to a connection beyond the limit; none while there is room.
pub fn admission(active: usize) -> (r: Option<Response>)
    ensures
        r is None <==> active < MAX_CONNECTIONS,
        r is None <==> has_room(active as nat),
        r matches Some(x) ==> x@ == text_response(500, "server busy\n"@),
{
    if active >= MAX_CONNECTIONS {
        Some(Response::text(500, "server busy\n".to_owned()))
    } else {
        None
    }
}

/// How far the head of a request reaches, and what is known at its end.
pub struct HeadEnd {
    pub size: nat,
    pub known: Progress,
    pub length: nat,
}

/// Where the head that the bytes begin with ends, after the lines that are
/// known; none if it is refused.
pub open spec fn head_end(known: Progress, s: Seq<u8>) -> Option<HeadEnd>
    decreases s.len(),
    via head_end_shrinks
{
    let n = line_len(s);
    match after_line(known, s.take(n as int)) {
        Err(_) => None,
        Ok((next, None)) => match head_end(next, s.skip(n as int)) {
            Some(end) => Some(HeadEnd { size: n + end.size, ..end }),
            None => None,
        },
        Ok((next, Some(length))) => Some(HeadEnd { size: n, known: next, length }),
    }
}

#[via_fn]
proof fn head_end_shrinks(known: Progress, s: Seq<u8>) {
    lemma_line_len(s);
}

/// The first line of bytes that agree with others on that line is the same.
proof fn lemma_same_line(s: Seq<u8>, w: Seq<u8>, k: int)
    requires
        line_len(s) <= k <= s.len(),
        k <= w.len(),
        s.take(k) == w.take(k),
        line_len(s) > 0,
        s[line_len(s) - 1] == 0x0a,
    ensures
        line_len(w) == line_len(s),
    decreases s.len(),
{
    lemma_line_len(s);
    assert(s.take(k)[0] == s[0] && w.take(k)[0] == w[0]);
    if s[0] != 0x0a {
        let (t, u) = (s.skip(1), w.skip(1));
        lemma_line_len(t);
        assert(t[line_len(t) - 1] == s[line_len(s) - 1]);
        assert(t.take(k - 1) =~= s.take(k).skip(1));
        assert(u.take(k - 1) =~= w.take(k).skip(1));
        lemma_same_line(t, u, k - 1);
    }
}

/// A line that does not reach the end of the bytes ends with a line feed.
proof fn lemma_line_ends(s: Seq<u8>)
    requires
        line_len(s) < s.len(),
    ensures
        line_len(s) > 0,
        s[line_len(s) - 1] == 0x0a,
    decreases s.len(),
{
    if s[0] != 0x0a {
        lemma_line_ends(s.skip(1));
    }
}

proof fn lemma_head_end(known: Progress, s: Seq<u8>)
    ensures
        match head_end(known, s) {
            Some(end) => {
                &&& 0 < end.size <= s.len()
                &&& end.known.head is Some
                &&& body_length(end.known.head->0.method, end.known.length) == Ok::<
                    nat,
                    HttpErrorSpec,
                >(end.length)
                &&& request_after(known, s) == if s.len() < end.size + end.length {
                    Err(HttpErrorSpec::Io("failed to fill whole buffer"@))
                } else {
                    Ok(
                        RequestSpec {
                            method: end.known.head->0.method,
                            path: end.known.head->0.path,
                            query: end.known.head->0.query,
                            body: s.subrange(end.size as int, (end.size + end.length) as int),
                        },
                    )
                }
            },
            None => request_after(known, s) is Err,
        },
    decreases s.len(),
{
    let n = line_len(s);
    let rest = s.skip(n as int);
    lemma_line_len(s);
    match after_line(known, s.take(n as int)) {
        Err(_) => {},
        Ok((next, None)) => {
            lemma_head_end(next, rest);
            if let Some(end) = head_end(next, rest) {
                if rest.len() >= end.size + end.length {
                    assert(rest.subrange(end.size as int, (end.size + end.length) as int)
                        =~= s.subrange(
                        (n + end.size) as int,
                        (n + end.size + end.length) as int,
                    ));
                }
            }
        },
        Ok((next, Some(length))) => {
            if rest.len() >= length {
                assert(rest.take(length as int) =~= s.subrange(n as int, (n + length) as int));
            }
        },
    }
}

proof fn lemma_same_head(known: Progress, s: Seq<u8>, w: Seq<u8>, k: int)
    requires
        head_end(known, s) matches Some(end) && end.size <= k && s[end.size - 1] == 0x0a,
        k <= s.len(),
        k <= w.len(),
        s.take(k) == w.take(k),
    ensures
        head_end(known, w) == head_end(known, s),
    decreases s.len(),
{
    let n = line_len(s) as int;
    let end = head_end(known, s)->0;
    lemma_line_len(s);
    lemma_head_end(known, s);
    let (rest, tail) = (s.skip(n), w.skip(n));
    match after_line(known, s.take(n)) {
        Ok((next, None)) => {
            lemma_head_end(next, rest);
            let inner = head_end(next, rest)->0;
            lemma_line_ends(s);
            lemma_same_line(s, w, k);
            assert(s.take(n) =~= s.take(k).take(n));
            assert(w.take(n) =~= w.take(k).take(n));
            assert(rest[inner.size - 1] == s[end.size - 1]);
            assert(rest.take(k - n) =~= s.take(k).skip(n));
            assert(tail.take(k - n) =~= w.take(k).skip(n));
            lemma_same_head(next, rest, tail, k - n);
        },
        _ => {
            lemma_same_line(s, w, k);
            assert(s.take(n) =~= s.take(k).take(n));
            assert(w.take(n) =~= w.take(k).take(n));
        },
    }
}

/// A request is determined by its head and by the body that the head names, and
/// nothing behind it is read: where a head that ends with a line feed is
/// accepted, the body is what the content length says, at most the limit, and
/// none of a GET without one, and any bytes may follow.
pub proof fn law_request_ends_with_its_body(s: Seq<u8>, t: Seq<u8>)
    requires
        head_end(no_lines(), s) matches Some(end) && s[end.size - 1] == 0x0a && s.len()
            >= end.size + end.length,
    ensures
        ({
            let end = head_end(no_lines(), s)->0;
            let size = (end.size + end.length) as int;
            &&& request_of(s) matches Ok(req)
            &&& req.body == s.subrange(end.size as int, size)
            &&& end.length == match end.known.length {
                Some(n) => n,
                None => 0,
            }
            &&& end.known.length is None ==> req.method == Method::Get
            &&& end.length <= MAX_BODY_BYTES
            &&& head_end(no_lines(), s.take(size) + t) == Some(end)
            &&& request_of(s.take(size) + t) == Ok::<RequestSpec, HttpErrorSpec>(req)
        }),
{
    let end = head_end(no_lines(), s)->0;
    let size = (end.size + end.length) as int;
    let w = s.take(size) + t;
    assert(w.take(size) =~= s.take(size));
    lemma_head_end(no_lines(), s);
    lemma_same_head(no_lines(), s, w, size);
    lemma_head_end(no_lines(), w);
    assert(w.subrange(end.size as int, size) =~= s.subrange(end.size as int, size));
}

/// Every request that is read has a head that is accepted and its whole body.
pub proof fn law_request_has_a_head(s: Seq<u8>)
    ensures
        request_of(s) is Ok <==> (head_end(no_lines(), s) matches Some(end) && s.len() >= end.size
            + end.length),
{
    lemma_head_end(no_lines(), s);
}

} // verus!
