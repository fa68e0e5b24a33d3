//! Minimal HTTP GET client for scraping (http:// only): target URLs, the request
//! that is sent and the reading of the reply.

use vstd::prelude::*;
use vstd::slice::{slice_subrange, slice_to_vec};
use vstd::utf8::{decode_utf8, valid_utf8};

use super::server::{line_len, pieces};
use crate::numeral::{int_text, push_unsigned, read_unsigned, unsigned_upto};
use crate::text::{
    chars_eq_ignore_case, debug_string, debug_text, drop_trailing_white, find_char, from_chars,
    index_of, lower_text, starts_with, string_from_utf8, strip_prefix, to_chars, trim, trim_chars,
    trim_end,
};

verus! {

/// The most bytes of a reply's body that are read.
pub const MAX_RESPONSE_BYTES: u64 = 1048576;

/// What is wrong with a target or with its reply.
pub enum ClientErrorSpec {
    UnsupportedScheme(Seq<char>),
    MissingHost(Seq<char>),
    InvalidPort(Seq<char>),
    Connect(Seq<char>),
    Io(Seq<char>),
    BadStatusLine(Seq<char>),
    HttpStatus(nat),
    BodyNotUtf8,
}

#[derive(Debug, PartialEq)]
pub enum ClientError {
    UnsupportedScheme(String),
    MissingHost(String),
    InvalidPort(String),
    Connect(String),
    Io(String),
    BadStatusLine(String),
    HttpStatus(u16),
    BodyNotUtf8,
}

impl View for ClientError {
    type V = ClientErrorSpec;

    open spec fn view(&self) -> ClientErrorSpec {
        match self {
            ClientError::UnsupportedScheme(s) => ClientErrorSpec::UnsupportedScheme(s@),
            ClientError::MissingHost(s) => ClientErrorSpec::MissingHost(s@),
            ClientError::InvalidPort(s) => ClientErrorSpec::InvalidPort(s@),
            ClientError::Connect(s) => ClientErrorSpec::Connect(s@),
            ClientError::Io(s) => ClientErrorSpec::Io(s@),
            ClientError::BadStatusLine(s) => ClientErrorSpec::BadStatusLine(s@),
            ClientError::HttpStatus(n) => ClientErrorSpec::HttpStatus(*n as nat),
            ClientError::BodyNotUtf8 => ClientErrorSpec::BodyNotUtf8,
        }
    }
}

impl Clone for ClientError {
    fn clone(&self) -> (r: Self)
        ensures
            r@ == self@,
    {
        match self {
            ClientError::UnsupportedScheme(s) => ClientError::UnsupportedScheme(s.clone()),
            ClientError::MissingHost(s) => ClientError::MissingHost(s.clone()),
            ClientError::InvalidPort(s) => ClientError::InvalidPort(s.clone()),
            ClientError::Connect(s) => ClientError::Connect(s.clone()),
            ClientError::Io(s) => ClientError::Io(s.clone()),
            ClientError::BadStatusLine(s) => ClientError::BadStatusLine(s.clone()),
            ClientError::HttpStatus(n) => ClientError::HttpStatus(*n),
            ClientError::BodyNotUtf8 => ClientError::BodyNotUtf8,
        }
    }
}

/// The text of an error.
pub open spec fn client_error_text(e: ClientErrorSpec) -> Seq<char> {
    match e {
        ClientErrorSpec::UnsupportedScheme(s) => "ScrapeUrl: unsupported scheme in "@ + debug_text(
            s,
        ) + " (http:// only)"@,
        ClientErrorSpec::MissingHost(s) => "ScrapeUrl: missing host in "@ + debug_text(s),
        ClientErrorSpec::InvalidPort(s) => "ScrapeUrl: invalid port "@ + debug_text(s),
        ClientErrorSpec::Connect(s) => "scrape: connect failed: "@ + s,
        ClientErrorSpec::Io(s) => "scrape: io error: "@ + s,
        ClientErrorSpec::BadStatusLine(s) => "scrape: bad status line "@ + debug_text(s),
        ClientErrorSpec::HttpStatus(n) => "scrape: target returned HTTP "@ + int_text(n as int),
        ClientErrorSpec::BodyNotUtf8 => "scrape: response body is not UTF-8"@,
    }
}

impl ClientError {
    pub fn message(&self) -> (r: String)
        ensures
            r@ == client_error_text(self@),
    {
        let mut out = String::new();
        match self {
            ClientError::UnsupportedScheme(s) => {
                out.append("ScrapeUrl: unsupported scheme in ");
                out.append(debug_string(s.as_str()).as_str());
                out.append(" (http:// only)");
            },
            ClientError::MissingHost(s) => {
                out.append("ScrapeUrl: missing host in ");
                out.append(debug_string(s.as_str()).as_str());
            },
            ClientError::InvalidPort(s) => {
                out.append("ScrapeUrl: invalid port ");
                out.append(debug_string(s.as_str()).as_str());
            },
            ClientError::Connect(s) => {
                out.append("scrape: connect failed: ");
                out.append(s.as_str());
            },
            ClientError::Io(s) => {
                out.append("scrape: io error: ");
                out.append(s.as_str());
            },
            ClientError::BadStatusLine(s) => {
                out.append("scrape: bad status line ");
                out.append(debug_string(s.as_str()).as_str());
            },
            ClientError::HttpStatus(n) => {
                out.append("scrape: target returned HTTP ");
                push_unsigned(&mut out, *n as u64);
            },
            ClientError::BodyNotUtf8 => {
                out.append("scrape: response body is not UTF-8");
            },
        }
        assert(out@ =~= client_error_text(self@));
        out
    }
}

/// The index of the last `c`, or -1.
pub open spec fn last_index_of(s: Seq<char>, c: char) -> int
    decreases s.len(),
{
    if s.len() == 0 {
        -1
    } else if s.last() == c {
        s.len() - 1
    } else {
        last_index_of(s.drop_last(), c)
    }
}

/// The parts of a target URL.
pub struct UrlSpec {
    pub host: Seq<char>,
    pub port: nat,
    pub path: Seq<char>,
    pub original: Seq<char>,
}

/// The parts of a URL of the form `http://host[:port][/path]`.
pub open spec fn url_of(s: Seq<char>) -> Result<UrlSpec, ClientErrorSpec> {
    let rest = s.skip(7);
    let i = index_of(rest, '/');
    let authority = rest.take(i);
    let path = if i < rest.len() {
        rest.skip(i)
    } else {
        seq!['/']
    };
    let c = last_index_of(authority, ':');
    if !starts_with(s, "http://"@) {
        Err(ClientErrorSpec::UnsupportedScheme(s))
    } else if authority.len() == 0 {
        Err(ClientErrorSpec::MissingHost(s))
    } else if c < 0 {
        Ok(UrlSpec { host: authority, port: 80, path, original: s })
    } else {
        match unsigned_upto(authority.skip(c + 1), 65535) {
            None => Err(ClientErrorSpec::InvalidPort(authority.skip(c + 1))),
            Some(port) => if c == 0 {
                Err(ClientErrorSpec::MissingHost(s))
            } else {
                Ok(UrlSpec { host: authority.take(c), port, path, original: s })
            },
        }
    }
}

/// A validated scrape target URL (http only). Constructed once in config.
#[derive(Debug, PartialEq, Eq)]
pub struct ScrapeUrl {
    host: String,
    port: u16,
    path: String,
    original: String,
}

impl View for ScrapeUrl {
    type V = UrlSpec;

    closed spec fn view(&self) -> UrlSpec {
        UrlSpec {
            host: self.host@,
            port: self.port as nat,
            path: self.path@,
            original: self.original@,
        }
    }
}

impl Clone for ScrapeUrl {
    fn clone(&self) -> (r: Self)
        ensures
            r@ == self@,
    {
        proof {
            use_type_invariant(self);
        }
        ScrapeUrl {
            host: self.host.clone(),
            port: self.port,
            path: self.path.clone(),
            original: self.original.clone(),
        }
    }
}

/// The index of the last `c`.
fn find_last(s: &[char], c: char) -> (r: Option<usize>)
    ensures
        match r {
            Some(i) => i == last_index_of(s@, c) && i < s@.len(),
            None => last_index_of(s@, c) < 0,
        },
{
    let mut i: usize = s.len();
    assert(s@.take(i as int) =~= s@);
    while i > 0
        invariant
            i <= s@.len(),
            last_index_of(s@, c) == last_index_of(s@.take(i as int), c),
        decreases i,
    {
        assert(s@.take(i as int).drop_last() =~= s@.take(i - 1));
        if s[i - 1] == c {
            return Some(i - 1);
        }
        i -= 1;
    }
    None
}

impl ScrapeUrl {
    /// The parts are those of the text that was parsed.
    #[verifier::type_invariant]
    spec fn is_parsed(&self) -> bool {
        url_of(self.original@) == Ok::<UrlSpec, ClientErrorSpec>(self@)
    }

    pub fn parse(s: &str) -> (r: Result<Self, ClientError>)
        ensures
            match url_of(s@) {
                Ok(u) => r matches Ok(x) && x@ == u,
                Err(e) => r matches Err(x) && x@ == e,
            },
    {
        proof {
            reveal_strlit("http://");
        }
        let chars = to_chars(s);
        let rest = match strip_prefix(chars.as_slice(), "http://") {
            Some(t) => t,
            None => {
                return Err(ClientError::UnsupportedScheme(s.to_owned()));
            },
        };
        assert(rest@ == s@.skip(7));
        let i = find_char(rest, '/');
        let authority = slice_subrange(rest, 0, i);
        assert(authority@ == rest@.take(i as int));
        let path = if i < rest.len() {
            let tail = slice_subrange(rest, i, rest.len());
            assert(tail@ == rest@.skip(i as int));
            from_chars(tail)
        } else {
            from_chars(&['/'])
        };
        assert(path@ =~= if i < rest@.len() {
            rest@.skip(i as int)
        } else {
            seq!['/']
        });
        if authority.len() == 0 {
            return Err(ClientError::MissingHost(s.to_owned()));
        }
        let c = match find_last(authority, ':') {
            Some(c) => c,
            None => {
                return Ok(
                    ScrapeUrl {
                        host: from_chars(authority),
                        port: 80,
                        path,
                        original: s.to_owned(),
                    },
                );
            },
        };
        let host = slice_subrange(authority, 0, c);
        let digits = slice_subrange(authority, c + 1, authority.len());
        assert(host@ == authority@.take(c as int));
        assert(digits@ == authority@.skip(c + 1));
        let port: u16 = match read_unsigned(digits, 65535) {
            Some(p) => p as u16,
            None => {
                return Err(ClientError::InvalidPort(from_chars(digits)));
            },
        };
        if host.len() == 0 {
            return Err(ClientError::MissingHost(s.to_owned()));
        }
        Ok(ScrapeUrl { host: from_chars(host), port, path, original: s.to_owned() })
    }

    pub fn as_str(&self) -> (r: &str)
        ensures
            r@ == self@.original,
            url_of(r@) == Ok::<UrlSpec, ClientErrorSpec>(self@),
    {
        proof {
            use_type_invariant(self);
        }
        self.original.as_str()
    }

    pub fn host(&self) -> (r: &str)
        ensures
            r@ == self@.host,
    {
        self.host.as_str()
    }

    pub fn port(&self) -> (r: u16)
        ensures
            r == self@.port,
    {
        self.port
    }

    pub fn path(&self) -> (r: &str)
        ensures
            r@ == self@.path,
    {
        self.path.as_str()
    }

    /// The request that is sent to the target.
    pub fn request(&self) -> (r: String)
        ensures
            r@ == request_text(self@),
    {
        let mut out = String::new();
        out.append("GET ");
        out.append(self.path.as_str());
        out.append(" HTTP/1.1\r\nHost: ");
        out.append(self.host.as_str());
        out.append("\r\nAccept: text/plain\r\nConnection: close\r\n\r\n");
        assert(out@ =~= request_text(self@));
        out
    }
}

pub open spec fn request_text(u: UrlSpec) -> Seq<char> {
    "GET "@ + u.path + " HTTP/1.1\r\nHost: "@ + u.host
        + "\r\nAccept: text/plain\r\nConnection: close\r\n\r\n"@
}

/// A parsed URL is the text that it was parsed from, with a host and a path
/// that begins with a slash.
pub proof fn law_parsed_url(s: Seq<char>)
    requires
        url_of(s) is Ok,
    ensures
        ({
            let u = url_of(s)->Ok_0;
            &&& u.original == s
            &&& u.host.len() > 0
            &&& u.path.len() > 0 && u.path[0] == '/'
            &&& u.port <= 65535
        }),
{
    let rest = s.skip(7);
    crate::text::lemma_index_where(rest, crate::text::is_char('/'));
    let authority = rest.take(index_of(rest, '/'));
    lemma_last_index(authority, ':');
}

proof fn lemma_last_index(s: Seq<char>, c: char)
    ensures
        -1 <= last_index_of(s, c) < s.len(),
    decreases s.len(),
{
    if s.len() > 0 && s.last() != c {
        lemma_last_index(s.drop_last(), c);
    }
}

/// The status code in a status line.
pub open spec fn status_of(line: Seq<char>) -> Option<nat> {
    let ps = pieces(line);
    if ps.len() < 2 {
        None
    } else {
        unsigned_upto(ps[1], 65535)
    }
}

/// The content length after a header line: the one known before, unless the
/// line gives another one, which may be unreadable.
pub open spec fn reply_length(line: Seq<char>, known: Option<nat>) -> Option<nat> {
    let c = index_of(line, ':');
    if c < line.len() && lower_text(trim(line.take(c))) == "content-length"@ {
        unsigned_upto(trim(line.skip(c + 1)), u64::MAX as nat)
    } else {
        known
    }
}

/// What is known of a reply after some of its lines.
pub struct ReplyProgress {
    pub accepted: bool,
    pub length: Option<nat>,
}

pub open spec fn no_reply() -> ReplyProgress {
    ReplyProgress { accepted: false, length: None }
}

/// How much of the body is read.
pub open spec fn body_limit(length: Option<nat>) -> nat {
    match length {
        Some(n) => if n < MAX_RESPONSE_BYTES {
            n
        } else {
            MAX_RESPONSE_BYTES as nat
        },
        None => MAX_RESPONSE_BYTES as nat,
    }
}

/// What is known after a further line, and how much of the body is read if the
/// line ends the headers.
pub open spec fn after_reply_line(known: ReplyProgress, line: Seq<u8>) -> Result<
    (ReplyProgress, Option<nat>),
    ClientErrorSpec,
> {
    let text = decode_utf8(line);
    if !valid_utf8(line) {
        Err(ClientErrorSpec::Io("stream did not contain valid UTF-8"@))
    } else if !known.accepted {
        match status_of(text) {
            None => Err(ClientErrorSpec::BadStatusLine(trim_end(text))),
            Some(code) => if code != 200 {
                Err(ClientErrorSpec::HttpStatus(code))
            } else {
                Ok((ReplyProgress { accepted: true, length: known.length }, None))
            },
        }
    } else if trim_end(text).len() == 0 {
        Ok((known, Some(body_limit(known.length))))
    } else {
        Ok(
            (
                ReplyProgress {
                    accepted: true,
                    length: reply_length(trim_end(text), known.length),
                },
                None,
            ),
        )
    }
}

/// The body of the reply that the bytes hold, after the lines that are known.
pub open spec fn body_after(known: ReplyProgress, s: Seq<u8>) -> Result<
    Seq<char>,
    ClientErrorSpec,
>
    decreases s.len() + if known.accepted {
        0nat
    } else {
        1nat
    },
    via body_after_shrinks
{
    let n = line_len(s);
    let rest = s.skip(n as int);
    match after_reply_line(known, s.take(n as int)) {
        Err(e) => Err(e),
        Ok((next, None)) => body_after(next, rest),
        Ok((_, Some(limit))) => {
            let body = if limit < rest.len() {
                rest.take(limit as int)
            } else {
                rest
            };
            if valid_utf8(body) {
                Ok(decode_utf8(body))
            } else {
                Err(ClientErrorSpec::BodyNotUtf8)
            }
        },
    }
}

#[via_fn]
proof fn body_after_shrinks(known: ReplyProgress, s: Seq<u8>) {
    super::server::lemma_line_len(s);
    if s.len() == 0 {
        assert(s.take(0) =~= seq![]);
        assert(decode_utf8(seq![]) =~= seq![]);
    }
}

/// The body of the reply that the bytes hold.
pub open spec fn reply_body(s: Seq<u8>) -> Result<Seq<char>, ClientErrorSpec> {
    body_after(no_reply(), s)
}

pub open spec fn wide_nat(n: Option<u64>) -> Option<nat> {
    match n {
        Some(v) => Some(v as nat),
        None => None,
    }
}

/// The status code in a status line.
fn parse_status(line: &[char]) -> (r: Option<u16>)
    ensures
        match status_of(line@) {
            Some(n) => r matches Some(x) && x == n,
            None => r is None,
        },
{
    let (_, rest) = super::server::split_blank(line);
    match rest {
        None => None,
        Some(t) => {
            let (word, tail) = super::server::split_blank(t);
            assert(pieces(line@)[1] == word@) by {
                assert(pieces(t@)[0] == word@);
            }
            match read_unsigned(word, 65535) {
                Some(n) => Some(n as u16),
                None => None,
            }
        },
    }
}

fn parse_length(line: &[char], known: Option<u64>) -> (r: Option<u64>)
    ensures
        wide_nat(r) == reply_length(line@, wide_nat(known)),
{
    let c = find_char(line, ':');
    if c == line.len() {
        return known;
    }
    let before = slice_subrange(line, 0, c);
    let after = slice_subrange(line, c + 1, line.len());
    assert(before@ == line@.take(c as int));
    assert(after@ == line@.skip(c + 1));
    if chars_eq_ignore_case(trim_chars(before), "content-length") {
        read_unsigned(trim_chars(after), u64::MAX)
    } else {
        known
    }
}

/// Reads the head of a reply, line by line.
pub struct ReplyReader {
    accepted: bool,
    content_length: Option<u64>,
}

impl View for ReplyReader {
    type V = ReplyProgress;

    closed spec fn view(&self) -> ReplyProgress {
        ReplyProgress { accepted: self.accepted, length: wide_nat(self.content_length) }
    }
}

impl ReplyReader {
    pub fn new() -> (r: Self)
        ensures
            r@ == no_reply(),
    {
        ReplyReader { accepted: false, content_length: None }
    }

    /// Takes the next line, with its line feed; the empty line stands for the
    /// end of the stream. Gives the number of bytes of the body to read once the
    /// headers end.
    pub fn line(&mut self, line: &[u8]) -> (r: Result<Option<u64>, ClientError>)
        ensures
            match after_reply_line(old(self)@, line@) {
                Ok((next, limit)) => final(self)@ == next && (r matches Ok(x) && wide_nat(x)
                    == limit),
                Err(e) => final(self)@ == old(self)@ && (r matches Err(x) && x@ == e),
            },
    {
        let text = match string_from_utf8(slice_to_vec(line)) {
            Some(t) => t,
            None => {
                return Err(ClientError::Io("stream did not contain valid UTF-8".to_owned()));
            },
        };
        let chars = to_chars(text.as_str());
        let trimmed = drop_trailing_white(chars.as_slice());
        if !self.accepted {
            return match parse_status(chars.as_slice()) {
                None => Err(ClientError::BadStatusLine(from_chars(trimmed))),
                Some(code) => if code != 200 {
                    Err(ClientError::HttpStatus(code))
                } else {
                    self.accepted = true;
                    Ok(None)
                },
            };
        }
        if trimmed.len() == 0 {
            let limit: u64 = match self.content_length {
                Some(n) => if n < MAX_RESPONSE_BYTES {
                    n
                } else {
                    MAX_RESPONSE_BYTES
                },
                None => MAX_RESPONSE_BYTES,
            };
            Ok(Some(limit))
        } else {
            self.content_length = parse_length(trimmed, self.content_length);
            Ok(None)
        }
    }
}

/// The body of a reply as text.
pub fn decode_body(body: Vec<u8>) -> (r: Result<String, ClientError>)
    ensures
        match r {
            Ok(text) => valid_utf8(body@) && text@ == decode_utf8(body@),
            Err(e) => !valid_utf8(body@) && e@ == ClientErrorSpec::BodyNotUtf8,
        },
{
    match string_from_utf8(body) {
        Some(text) => Ok(text),
        None => Err(ClientError::BodyNotUtf8),
    }
}

/// The body of the reply that the bytes of a stream hold.
pub fn read_reply(input: &[u8]) -> (r: Result<String, ClientError>)
    ensures
        match reply_body(input@) {
            Ok(t) => r matches Ok(x) && x@ == t,
            Err(e) => r matches Err(x) && x@ == e,
        },
{
    let mut reader = ReplyReader::new();
    let mut at: &[u8] = input;
    loop
        invariant
            reply_body(input@) == body_after(reader@, at@),
        decreases
            at@.len() + if reader@.accepted {
                0int
            } else {
                1int
            },
    {
        let ghost before = reader@;
        let n = super::server::first_line(at);
        let line = slice_subrange(at, 0, n);
        let rest = slice_subrange(at, n, at.len());
        assert(line@ == at@.take(n as int));
        assert(rest@ == at@.skip(n as int));
        match reader.line(line) {
            Ok(None) => {
                proof {
                    if at@.len() == 0 && before.accepted {
                        assert(line@ =~= seq![]);
                        assert(decode_utf8(line@) =~= seq![]);
                    }
                }
                at = rest;
            },
            Ok(Some(limit)) => {
                let size: usize = if limit < rest.len() as u64 {
                    limit as usize
                } else {
                    rest.len()
                };
                let body = slice_to_vec(slice_subrange(rest, 0, size));
                assert(body@ =~= if limit < rest@.len() {
                    rest@.take(limit as int)
                } else {
                    rest@
                });
                return decode_body(body);
            },
            Err(e) => {
                return Err(e);
            },
        }
    }
}

} // verus!
