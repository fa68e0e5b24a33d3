//! Laws of the exchange between client and server: each understands what the
//! other one writes.

use vstd::prelude::*;
use vstd::utf8::{
    decode_utf8, encode_utf8, encode_utf8_decode_utf8, encode_utf8_valid_utf8, valid_utf8,
};

use super::client::{
    after_reply_line, body_after, no_reply, reply_body, reply_length, request_text, status_of,
    ClientErrorSpec, ReplyProgress, UrlSpec, MAX_RESPONSE_BYTES,
};
use super::server::{
    after_line, head_of, header_length, line_len, line_text, no_lines, pieces, request_after,
    request_of, response_bytes, response_head, HeadSpec, Progress, MAX_HEADER_BYTES,
};
use super::{params_of, percent_text, reason, HttpErrorSpec, Method, RequestSpec, ResponseSpec};
use crate::numeral::{int_text, lemma_dec};
use crate::text::{
    index_of, is_char, is_digit, is_white, lemma_encode_concat, lemma_encode_lacks,
    lemma_index_where_is, lemma_trim_start, lower_text, starts_with, trim, trim_end, trim_start,
};

verus! {

/// A text on one line that does not end in white space.
pub open spec fn is_header_value(s: Seq<char>) -> bool {
    &&& s.len() > 0
    &&& !is_white(s.last())
    &&& !s.contains('\n')
}

/// The line with the end of line that HTTP asks for.
pub open spec fn crlf(line: Seq<char>) -> Seq<char> {
    line.push('\r').push('\n')
}

proof fn lemma_line_len_is(s: Seq<u8>, n: int)
    requires
        0 <= n < s.len(),
        s[n] == 0x0a,
        forall|i: int| 0 <= i < n ==> #[trigger] s[i] != 0x0a,
    ensures
        line_len(s) == n + 1,
    decreases n,
{
    if n > 0 {
        let t = s.skip(1);
        assert(s[0] != 0x0a);
        assert forall|i: int| 0 <= i < n - 1 implies #[trigger] t[i] != 0x0a by {
            assert(t[i] == s[i + 1]);
        }
        lemma_line_len_is(t, n - 1);
    }
}

/// A line in front of other bytes is cut off as that line.
pub proof fn lemma_line(line: Seq<char>, rest: Seq<u8>)
    requires
        !line.contains('\n'),
    ensures
        ({
            let b = encode_utf8(crlf(line));
            let s = b + rest;
            &&& line_len(s) == b.len()
            &&& s.take(b.len() as int) == b
            &&& s.skip(b.len() as int) == rest
            &&& valid_utf8(b)
            &&& decode_utf8(b) == crlf(line)
        }),
{
    let front = line.push('\r');
    let feed = seq!['\n'];
    let b = encode_utf8(crlf(line));
    assert(crlf(line) =~= front + feed);
    lemma_encode_concat(front, feed);
    assert(vstd::utf8::is_ascii_chars(feed));
    vstd::utf8::is_ascii_chars_encode_utf8(feed);
    let a = encode_utf8(front);
    assert(!front.contains('\n')) by {
        if front.contains('\n') {
            let i = choose|i: int| 0 <= i < front.len() && front[i] == '\n';
            assert(line[i] == '\n');
        }
    }
    lemma_encode_lacks(front, '\n');
    let s = b + rest;
    assert(encode_utf8(feed)[0] == feed[0] as u8);
    assert(b == a + encode_utf8(feed));
    assert(s[a.len() as int] == 0x0a);
    assert forall|i: int| 0 <= i < a.len() implies #[trigger] s[i] != 0x0a by {
        assert(s[i] == a[i]);
    }
    lemma_line_len_is(s, a.len() as int);
    assert(s.take(b.len() as int) =~= b);
    assert(s.skip(b.len() as int) =~= rest);
    encode_utf8_valid_utf8(crlf(line));
    encode_utf8_decode_utf8(crlf(line));
}

pub proof fn lemma_trim_crlf(line: Seq<char>)
    requires
        line.len() > 0 ==> !is_white(line.last()),
    ensures
        trim_end(crlf(line)) == line,
{
    let one = line.push('\r');
    assert(crlf(line).drop_last() =~= one);
    assert(one.drop_last() =~= line);
    assert(trim_end(crlf(line)) == trim_end(one));
    assert(trim_end(one) == trim_end(line));
}

proof fn lemma_trim_end_len(s: Seq<char>)
    ensures
        trim_end(s).len() <= s.len(),
    decreases s.len(),
{
    if s.len() > 0 && is_white(s.last()) {
        lemma_trim_end_len(s.drop_last());
    }
}

/// A header line other than the content length leaves the content length.
proof fn lemma_other_header(name: Seq<char>, value: Seq<char>, known: Option<nat>)
    requires
        name.len() < 14,
        forall|i: int| 0 <= i < name.len() ==> #[trigger] name[i] != ':',
    ensures
        reply_length(name + ": "@ + value, known) == known,
{
    reveal_strlit(": ");
    let line = name + ": "@ + value;
    let c = name.len() as int;
    assert forall|j: int| 0 <= j < c implies !is_char(':')(#[trigger] line[j]) by {
        assert(line[j] == name[j]);
    }
    assert(line[c] == ':');
    lemma_index_where_is(line, is_char(':'), c);
    lemma_short_name(line.take(c));
}

/// The line that gives the content length is read as that length.
proof fn lemma_length_header(n: nat, known: Option<nat>)
    requires
        n <= u64::MAX,
    ensures
        reply_length("Content-Length: "@ + int_text(n as int), known) == Some(n),
{
    reveal_strlit("Content-Length: ");
    reveal_strlit("content-length");
    let digits = int_text(n as int);
    lemma_dec(n);
    assert(is_digit(digits[0]) && is_digit(digits.last()));
    let line = "Content-Length: "@ + digits;
    assert forall|j: int| 0 <= j < 14 implies !is_char(':')(#[trigger] line[j]) by {
        assert(line[j] == "Content-Length: "@[j]);
    }
    assert(line[14] == "Content-Length: "@[14]);
    lemma_index_where_is(line, is_char(':'), 14);
    let name = line.take(14);
    assert(name[0] == 'C' && name.last() == 'h') by {
        assert(name[0] == "Content-Length: "@[0]);
        assert(name[13] == "Content-Length: "@[13]);
    }
    assert(trim(name) == name);
    assert forall|j: int| 0 <= j < 14 implies #[trigger] name[j] == "Content-Length: "@[j] by {}
    assert(lower_text(name) =~= "content-length"@);
    let value = line.skip(15);
    assert(value =~= seq![' '] + digits);
    assert(value[0] == ' ');
    assert(value.drop_first() =~= digits);
    assert(trim_start(value) == trim_start(digits));
    assert(trim(value) == digits);
}

/// The status line of a response is read as its status.
proof fn lemma_status_line(status: u16, tail: Seq<char>)
    ensures
        status_of("HTTP/1.1 "@ + int_text(status as int) + " "@ + tail) == Some(status as nat),
{
    reveal_strlit("HTTP/1.1 ");
    reveal_strlit(" ");
    let digits = int_text(status as int);
    lemma_dec(status as nat);
    let line = "HTTP/1.1 "@ + digits + " "@ + tail;
    assert forall|j: int| 0 <= j < 8 implies !is_char(' ')(#[trigger] line[j]) by {
        assert(line[j] == "HTTP/1.1 "@[j]);
    }
    assert(line[8] == "HTTP/1.1 "@[8]);
    lemma_index_where_is(line, is_char(' '), 8);
    let rest = line.skip(9);
    assert(rest =~= digits + " "@ + tail);
    let n = digits.len() as int;
    assert forall|j: int| 0 <= j < n implies !is_char(' ')(#[trigger] rest[j]) by {
        assert(is_digit(digits[j]));
    }
    assert(rest[n] == ' ');
    lemma_index_where_is(rest, is_char(' '), n);
    assert(rest.take(n) =~= digits);
    assert(pieces(rest)[0] == digits);
    assert(pieces(line)[1] == digits);
    assert(pieces(line).len() >= 2);
    assert(is_digit(digits[0]));
}

proof fn lemma_reason_on_one_line(status: u16)
    ensures
        !reason(status).contains('\n'),
{
    reveal_strlit("OK");
    reveal_strlit("No Content");
    reveal_strlit("Bad Request");
    reveal_strlit("Not Found");
    reveal_strlit("Method Not Allowed");
    reveal_strlit("Length Required");
    reveal_strlit("Payload Too Large");
    reveal_strlit("Internal Server Error");
    reveal_strlit("Unknown");
}

/// Reading goes on behind a line that does not end the headers.
pub proof fn lemma_reply_step(known: ReplyProgress, line: Seq<char>, rest: Seq<u8>)
    requires
        !line.contains('\n'),
    ensures
        after_reply_line(known, encode_utf8(crlf(line))) matches Ok((next, None)) ==> body_after(
            known,
            encode_utf8(crlf(line)) + rest,
        ) == body_after(next, rest),
{
    lemma_line(line, rest);
}

/// The texts in a row hold the character only if one of them does.
proof fn lemma_lacks(a: Seq<char>, b: Seq<char>, c: char)
    requires
        !a.contains(c),
        !b.contains(c),
    ensures
        !(a + b).contains(c),
{
    if (a + b).contains(c) {
        let i = choose|i: int| 0 <= i < (a + b).len() && (a + b)[i] == c;
        if i < a.len() {
            assert(a[i] == c);
        } else {
            assert(b[i - a.len()] == c);
        }
    }
}

proof fn lemma_digits_lack(n: nat)
    ensures
        !int_text(n as int).contains('\n'),
        !int_text(n as int).contains(' '),
{
    let d = int_text(n as int);
    lemma_dec(n);
    assert forall|i: int| 0 <= i < d.len() implies d[i] != '\n' && d[i] != ' ' by {
        assert(is_digit(d[i]));
    }
}

/// The lines of the head of a response, without their ends.
spec fn head_lines(r: ResponseSpec) -> Seq<Seq<char>> {
    seq![
        "HTTP/1.1 "@ + int_text(r.status as int) + " "@ + reason(r.status),
        "Content-Type: "@ + r.content_type,
        "Content-Length: "@ + int_text(r.body.len() as int),
        "Connection: close"@,
        ""@,
    ]
}

proof fn lemma_head_lines(r: ResponseSpec)
    requires
        is_header_value(r.content_type),
    ensures
        ({
            let l = head_lines(r);
            &&& response_head(r) == crlf(l[0]) + (crlf(l[1]) + (crlf(l[2]) + (crlf(l[3]) + crlf(
                l[4],
            ))))
            &&& forall|i: int| 0 <= i < 5 ==> !(#[trigger] l[i]).contains('\n')
        }),
{
    reveal_strlit("HTTP/1.1 ");
    reveal_strlit(" ");
    reveal_strlit("\r\nContent-Type: ");
    reveal_strlit("Content-Type: ");
    reveal_strlit("\r\nContent-Length: ");
    reveal_strlit("Content-Length: ");
    reveal_strlit("\r\nConnection: close\r\n\r\n");
    reveal_strlit("Connection: close");
    reveal_strlit("");
    let l = head_lines(r);
    let (status, length) = (int_text(r.status as int), int_text(r.body.len() as int));
    assert(response_head(r) =~= crlf(l[0]) + (crlf(l[1]) + (crlf(l[2]) + (crlf(l[3]) + crlf(
        l[4],
    )))));
    lemma_digits_lack(r.status as nat);
    lemma_digits_lack(r.body.len());
    lemma_reason_on_one_line(r.status);
    lemma_lacks("HTTP/1.1 "@, status, '\n');
    lemma_lacks("HTTP/1.1 "@ + status, " "@, '\n');
    lemma_lacks("HTTP/1.1 "@ + status + " "@, reason(r.status), '\n');
    lemma_lacks("Content-Type: "@, r.content_type, '\n');
    lemma_lacks("Content-Length: "@, length, '\n');
}

/// What the client makes of a response of the server: of a status other than
/// 200, that status; otherwise the text of the body, unless the body is too long
/// to be read whole.
pub proof fn law_response_is_understood(r: ResponseSpec)
    requires
        is_header_value(r.content_type),
        r.body.len() <= u64::MAX,
    ensures
        r.status != 200 ==> reply_body(response_bytes(r)) == Err::<Seq<char>, ClientErrorSpec>(
            ClientErrorSpec::HttpStatus(r.status as nat),
        ),
        r.status == 200 && r.body.len() <= MAX_RESPONSE_BYTES ==> reply_body(response_bytes(r))
            == if valid_utf8(r.body) {
            Ok::<Seq<char>, ClientErrorSpec>(decode_utf8(r.body))
        } else {
            Err(ClientErrorSpec::BodyNotUtf8)
        },
{
    let l = head_lines(r);
    lemma_head_lines(r);
    let (c0, c1, c2, c3, c4) = (crlf(l[0]), crlf(l[1]), crlf(l[2]), crlf(l[3]), crlf(l[4]));
    lemma_encode_concat(c3, c4);
    lemma_encode_concat(c2, c3 + c4);
    lemma_encode_concat(c1, c2 + (c3 + c4));
    lemma_encode_concat(c0, c1 + (c2 + (c3 + c4)));
    let t4 = encode_utf8(c4) + r.body;
    let t3 = encode_utf8(c3) + t4;
    let t2 = encode_utf8(c2) + t3;
    let t1 = encode_utf8(c1) + t2;
    assert(response_bytes(r) =~= encode_utf8(c0) + t1);
    let n = r.body.len();
    let tail = reason(r.status).push('\r').push('\n');
    lemma_status_line(r.status, tail);
    assert(c0 =~= "HTTP/1.1 "@ + int_text(r.status as int) + " "@ + tail);
    lemma_line(l[0], t1);
    if r.status == 200 {
        let p0 = ReplyProgress { accepted: true, length: None };
        let p1 = ReplyProgress { accepted: true, length: Some(n) };
        lemma_header_lines(r);
        lemma_reply_step(no_reply(), l[0], t1);
        lemma_line(l[1], t2);
        lemma_reply_step(p0, l[1], t2);
        lemma_line(l[2], t3);
        lemma_reply_step(p0, l[2], t3);
        lemma_line(l[3], t4);
        lemma_reply_step(p1, l[3], t4);
        lemma_line(l[4], r.body);
    }
}

/// What the client takes from each line behind the status line.
proof fn lemma_header_lines(r: ResponseSpec)
    requires
        is_header_value(r.content_type),
        r.body.len() <= u64::MAX,
    ensures
        ({
            let l = head_lines(r);
            let n = r.body.len();
            &&& trim_end(crlf(l[1])).len() > 0 && reply_length(trim_end(crlf(l[1])), None) is None
            &&& trim_end(crlf(l[2])).len() > 0 && reply_length(trim_end(crlf(l[2])), None) == Some(
                n,
            )
            &&& trim_end(crlf(l[3])).len() > 0 && reply_length(trim_end(crlf(l[3])), Some(n))
                == Some(n)
            &&& trim_end(crlf(l[4])).len() == 0
        }),
{
    let l = head_lines(r);
    let n = r.body.len();
    reveal_strlit("Content-Type: ");
    reveal_strlit("Content-Type");
    reveal_strlit("Content-Length: ");
    reveal_strlit("Connection: close");
    reveal_strlit("Connection");
    reveal_strlit("close");
    reveal_strlit(": ");
    reveal_strlit("");
    assert(l[1] =~= "Content-Type"@ + ": "@ + r.content_type);
    assert(l[1].last() == r.content_type.last());
    lemma_trim_crlf(l[1]);
    lemma_other_header("Content-Type"@, r.content_type, None);
    let digits = int_text(n as int);
    lemma_dec(n);
    assert(is_digit(digits.last()));
    assert(l[2].last() == digits.last());
    lemma_trim_crlf(l[2]);
    lemma_length_header(n, None);
    assert(l[3] =~= "Connection"@ + ": "@ + "close"@);
    lemma_trim_crlf(l[3]);
    lemma_other_header("Connection"@, "close"@, Some(n));
    lemma_trim_crlf(l[4]);
}

/// A header line other than the content length is accepted and changes nothing.
proof fn lemma_plain_header(name: Seq<char>, value: Seq<char>)
    requires
        name.len() < 14,
        !name.contains(':'),
    ensures
        header_length(name + ": "@ + value, None) == Ok::<Option<nat>, HttpErrorSpec>(None),
{
    reveal_strlit(": ");
    let line = name + ": "@ + value;
    let c = name.len() as int;
    assert forall|j: int| 0 <= j < c implies !is_char(':')(#[trigger] line[j]) by {
        assert(line[j] == name[j]);
    }
    assert(line[c] == ':');
    lemma_index_where_is(line, is_char(':'), c);
    lemma_short_name(line.take(c));
}

/// A name that is too short is not that of the content length.
proof fn lemma_short_name(name: Seq<char>)
    requires
        name.len() < 14,
    ensures
        lower_text(trim(name)) != "content-length"@,
{
    reveal_strlit("content-length");
    lemma_trim_start(name);
    lemma_trim_end_len(trim_start(name));
    assert(lower_text(trim(name)).len() < 14);
    assert("content-length"@.len() == 14);
}

/// The pieces of the request line that the client writes.
proof fn lemma_request_pieces(path: Seq<char>)
    requires
        !path.contains(' '),
    ensures
        pieces("GET "@ + path + " HTTP/1.1"@) == seq!["GET"@, path, "HTTP/1.1"@],
{
    reveal_strlit("GET ");
    reveal_strlit("GET");
    reveal_strlit(" HTTP/1.1");
    reveal_strlit("HTTP/1.1");
    let line = "GET "@ + path + " HTTP/1.1"@;
    assert(line[3] == ' ');
    lemma_index_where_is(line, is_char(' '), 3);
    assert(line.take(3) =~= "GET"@);
    let rest = line.skip(4);
    assert(rest =~= path + " HTTP/1.1"@);
    let n = path.len() as int;
    assert forall|j: int| 0 <= j < n implies !is_char(' ')(#[trigger] rest[j]) by {
        assert(rest[j] == path[j]);
    }
    assert(rest[n] == ' ');
    lemma_index_where_is(rest, is_char(' '), n);
    assert(rest.take(n) =~= path);
    let version = rest.skip(n + 1);
    assert(version =~= "HTTP/1.1"@);
    lemma_index_where_is(version, is_char(' '), 8);
    assert(pieces(version) == seq![version]);
    assert(pieces(rest) =~= seq![path, version]);
    assert(pieces(line) =~= seq!["GET"@, path, version]);
}

/// The query part of a target.
pub open spec fn query_part(path: Seq<char>) -> Seq<char> {
    let q = index_of(path, '?');
    if q < path.len() {
        path.skip(q + 1)
    } else {
        seq![]
    }
}

/// The lines of the request that the client writes, without their ends.
spec fn request_lines(u: UrlSpec) -> Seq<Seq<char>> {
    seq![
        "GET "@ + u.path + " HTTP/1.1"@,
        "Host: "@ + u.host,
        "Accept: text/plain"@,
        "Connection: close"@,
        ""@,
    ]
}

proof fn lemma_request_lines(u: UrlSpec)
    requires
        !u.path.contains('\n'),
        is_header_value(u.host),
    ensures
        ({
            let l = request_lines(u);
            &&& request_text(u) == crlf(l[0]) + (crlf(l[1]) + (crlf(l[2]) + (crlf(l[3]) + crlf(
                l[4],
            ))))
            &&& forall|i: int| 0 <= i < 5 ==> !(#[trigger] l[i]).contains('\n')
            &&& forall|i: int| 0 <= i < 5 ==> trim_end(crlf(#[trigger] l[i])) == l[i]
            &&& forall|i: int|
                1 <= i < 4 ==> (#[trigger] l[i]).len() > 0 && header_length(l[i], None) == Ok::<
                    Option<nat>,
                    HttpErrorSpec,
                >(None)
            &&& l[4].len() == 0
        }),
{
    reveal_strlit("GET ");
    reveal_strlit(" HTTP/1.1\r\nHost: ");
    reveal_strlit(" HTTP/1.1");
    reveal_strlit("Host: ");
    reveal_strlit("\r\nAccept: text/plain\r\nConnection: close\r\n\r\n");
    reveal_strlit("Accept: text/plain");
    reveal_strlit("Connection: close");
    reveal_strlit("");
    let l = request_lines(u);
    assert(request_text(u) =~= crlf(l[0]) + (crlf(l[1]) + (crlf(l[2]) + (crlf(l[3]) + crlf(
        l[4],
    )))));
    lemma_lacks("GET "@, u.path, '\n');
    lemma_lacks("GET "@ + u.path, " HTTP/1.1"@, '\n');
    lemma_lacks("Host: "@, u.host, '\n');
    assert(l[0].last() == " HTTP/1.1"@.last());
    assert(l[1].last() == u.host.last());
    lemma_trim_crlf(l[0]);
    lemma_trim_crlf(l[1]);
    lemma_trim_crlf(l[2]);
    lemma_trim_crlf(l[3]);
    lemma_trim_crlf(l[4]);
    reveal_strlit("Host");
    reveal_strlit("Accept");
    reveal_strlit("text/plain");
    reveal_strlit("Connection");
    reveal_strlit("close");
    reveal_strlit(": ");
    assert(l[1] =~= "Host"@ + ": "@ + u.host);
    assert(l[2] =~= "Accept"@ + ": "@ + "text/plain"@);
    assert(l[3] =~= "Connection"@ + ": "@ + "close"@);
    lemma_plain_header("Host"@, u.host);
    lemma_plain_header("Accept"@, "text/plain"@);
    lemma_plain_header("Connection"@, "close"@);
}

/// Reading goes on behind a line that does not end the headers.
pub proof fn lemma_request_step(known: Progress, line: Seq<char>, rest: Seq<u8>)
    requires
        !line.contains('\n'),
    ensures
        after_line(known, encode_utf8(crlf(line))) matches Ok((next, None)) ==> request_after(
            known,
            encode_utf8(crlf(line)) + rest,
        ) == request_after(next, rest),
        known.used + encode_utf8(crlf(line)).len() <= MAX_HEADER_BYTES ==> line_text(
            encode_utf8(crlf(line)),
            known.used,
        ) == Ok::<Seq<char>, HttpErrorSpec>(trim_end(crlf(line))),
{
    lemma_line(line, rest);
    crate::http::server::lemma_line_len(encode_utf8(crlf(line)) + rest);
}

/// What the server makes of the request of the client: a GET of the target's
/// path, with the parameters of its query, where these can be decoded.
pub proof fn law_request_is_understood(u: UrlSpec)
    requires
        !u.path.contains(' '),
        !u.path.contains('\n'),
        is_header_value(u.host),
        encode_utf8(request_text(u)).len() <= MAX_HEADER_BYTES,
        percent_text(u.path.take(index_of(u.path, '?'))) is Some,
        params_of(query_part(u.path), seq![]) is Ok,
    ensures
        request_of(encode_utf8(request_text(u))) == Ok::<RequestSpec, HttpErrorSpec>(
            RequestSpec {
                method: Method::Get,
                path: percent_text(u.path.take(index_of(u.path, '?')))->0,
                query: params_of(query_part(u.path), seq![])->Ok_0,
                body: seq![],
            },
        ),
{
    let l = request_lines(u);
    lemma_request_lines(u);
    lemma_request_pieces(u.path);
    let (c0, c1, c2, c3, c4) = (crlf(l[0]), crlf(l[1]), crlf(l[2]), crlf(l[3]), crlf(l[4]));
    lemma_encode_concat(c3, c4);
    lemma_encode_concat(c2, c3 + c4);
    lemma_encode_concat(c1, c2 + (c3 + c4));
    lemma_encode_concat(c0, c1 + (c2 + (c3 + c4)));
    let (b0, b1, b2) = (encode_utf8(c0), encode_utf8(c1), encode_utf8(c2));
    let (b3, b4) = (encode_utf8(c3), encode_utf8(c4));
    let t4 = b4 + seq![];
    let t3 = b3 + t4;
    let t2 = b2 + t3;
    let t1 = b1 + t2;
    assert(encode_utf8(request_text(u)) =~= b0 + t1);
    let head = HeadSpec {
        method: Method::Get,
        path: percent_text(u.path.take(index_of(u.path, '?')))->0,
        query: params_of(query_part(u.path), seq![])->Ok_0,
    };
    reveal_strlit("GET");
    reveal_strlit("POST");
    reveal_strlit("HTTP/1.");
    reveal_strlit("HTTP/1.1");
    assert(starts_with("HTTP/1.1"@, "HTTP/1."@)) by {
        assert("HTTP/1.1"@.take(7) =~= "HTTP/1."@);
    }
    crate::text::lemma_index_where(u.path, is_char('?'));
    assert(head_of(l[0]) == Ok::<HeadSpec, HttpErrorSpec>(head));
    let p0 = no_lines();
    let p1 = Progress { used: b0.len(), head: Some(head), length: None };
    let p2 = Progress { used: b0.len() + b1.len(), ..p1 };
    let p3 = Progress { used: b0.len() + b1.len() + b2.len(), ..p1 };
    let p4 = Progress { used: b0.len() + b1.len() + b2.len() + b3.len(), ..p1 };
    lemma_request_step(p0, l[0], t1);
    lemma_request_step(p1, l[1], t2);
    lemma_request_step(p2, l[2], t3);
    lemma_request_step(p3, l[3], t4);
    lemma_request_step(p4, l[4], seq![]);
    lemma_line(l[4], seq![]);
    assert(after_line(p0, b0) == Ok::<(Progress, Option<nat>), HttpErrorSpec>((p1, None)));
    assert(after_line(p1, b1) == Ok::<(Progress, Option<nat>), HttpErrorSpec>((p2, None)));
    assert(after_line(p2, b2) == Ok::<(Progress, Option<nat>), HttpErrorSpec>((p3, None)));
    assert(after_line(p3, b3) == Ok::<(Progress, Option<nat>), HttpErrorSpec>((p4, None)));
    assert(Seq::<u8>::empty().take(0) =~= seq![]);
}

} // verus!
