//! Laws of the messages that server and client read: request lines, header
//! lines, bodies and URLs.

use vstd::prelude::*;
use vstd::utf8::{decode_utf8, encode_utf8, valid_utf8};

use crate::http::client::{
    body_after, no_reply, reply_body, reply_length, status_of, url_of, ClientErrorSpec,
    ReplyProgress, UrlSpec,
};
use crate::http::exchange::{
    crlf, lemma_line, lemma_reply_step, lemma_request_step, lemma_trim_crlf,
};
use crate::http::server::{
    after_line, has_room, head_of, header_length, line_len, no_lines, pieces, request_after,
    request_of, HeadSpec, Progress,
};
use crate::http::{params_of, percent_text, reason, HttpErrorSpec, Method, RequestSpec};
use crate::line_laws::{is_gap, is_trimmed, lemma_trim_gaps};
use crate::numeral::unsigned_value;
use crate::percent_laws::lemma_no_index;
use crate::text::{
    index_of, is_char, is_white, lemma_char_range, lemma_index_where_is, lower, lower_text,
    starts_with, trim_end,
};

verus! {

proof fn lemma_found(a: Seq<char>, c: char, b: Seq<char>)
    requires
        !a.contains(c),
    ensures
        index_of(a + seq![c] + b, c) == a.len(),
        (a + seq![c] + b).take(a.len() as int) == a,
        (a + seq![c] + b).skip(a.len() as int + 1) == b,
{
    let s = a + seq![c] + b;
    assert forall|j: int| 0 <= j < a.len() implies !is_char(c)(#[trigger] s[j]) by {
        assert(s[j] == a[j]);
        assert(a.contains(a[j]));
    }
    assert(s[a.len() as int] == c);
    lemma_index_where_is(s, is_char(c), a.len() as int);
    assert(s.take(a.len() as int) =~= a);
    assert(s.skip(a.len() as int + 1) =~= b);
}

/// A text without blanks is one piece, and a blank separates pieces.
pub proof fn law_pieces(a: Seq<char>, b: Seq<char>)
    requires
        !a.contains(' '),
    ensures
        pieces(a) == seq![a],
        pieces(a + seq![' '] + b) == seq![a] + pieces(b),
{
    lemma_no_index(a, ' ');
    lemma_found(a, ' ', b);
}

/// A request line of three parts, with a version 1, is the method of the first
/// part, and the path and the query of the second one, divided by the first
/// question mark; every other line is refused.
pub proof fn law_request_line(
    word: Seq<char>,
    path: Seq<char>,
    query: Seq<char>,
    version: Seq<char>,
)
    requires
        !word.contains(' '),
        !path.contains(' '),
        !path.contains('?'),
        !query.contains(' '),
        !version.contains(' '),
    ensures
        ({
            let bare = word + seq![' '] + path + seq![' '] + version;
            let full = word + seq![' '] + (path + seq!['?'] + query) + seq![' '] + version;
            let right = version.len() >= 7 && version.take(7) == "HTTP/1."@;
            &&& !right ==> head_of(bare) == Err::<HeadSpec, HttpErrorSpec>(
                HttpErrorSpec::MalformedRequestLine(bare),
            ) && head_of(full) == Err::<HeadSpec, HttpErrorSpec>(
                HttpErrorSpec::MalformedRequestLine(full),
            )
            &&& right && word != "GET"@ && word != "POST"@ ==> head_of(bare) == Err::<
                HeadSpec,
                HttpErrorSpec,
            >(HttpErrorSpec::UnsupportedMethod(word)) && head_of(full) == head_of(bare)
            &&& right && (word == "GET"@ || word == "POST"@) ==> {
                let method = if word == "GET"@ {
                    Method::Get
                } else {
                    Method::Post
                };
                match percent_text(path) {
                    None => {
                        &&& head_of(bare) == Err::<HeadSpec, HttpErrorSpec>(
                            HttpErrorSpec::BadPercentEncoding(path),
                        )
                        &&& head_of(full) == head_of(bare)
                    },
                    Some(p) => {
                        &&& head_of(bare) == Ok::<HeadSpec, HttpErrorSpec>(
                            HeadSpec { method, path: p, query: seq![] },
                        )
                        &&& match params_of(query, seq![]) {
                            Ok(q) => head_of(full) == Ok::<HeadSpec, HttpErrorSpec>(
                                HeadSpec { method, path: p, query: q },
                            ),
                            Err(e) => head_of(full) == Err::<HeadSpec, HttpErrorSpec>(e),
                        }
                    },
                }
            }
        }),
{
    let bare = word + seq![' '] + path + seq![' '] + version;
    let target = path + seq!['?'] + query;
    let full = word + seq![' '] + target + seq![' '] + version;
    assert(!target.contains(' ')) by {
        if target.contains(' ') {
            let i = choose|i: int| 0 <= i < target.len() && target[i] == ' ';
            if i < path.len() {
                assert(path[i] == ' ');
            } else if i > path.len() {
                assert(query[i - path.len() - 1] == ' ');
            }
        }
    }
    lemma_three(word, path, version);
    lemma_three(word, target, version);
    lemma_no_index(path, '?');
    lemma_found(path, '?', query);
    assert(path.take(path.len() as int) =~= path);
    reveal_strlit("HTTP/1.");
    assert("HTTP/1."@.len() == 7);
    reveal_strlit("GET");
    reveal_strlit("POST");
    assert("GET"@.len() == 3 && "POST"@.len() == 4);
    lemma_no_index(seq![], '&');
    assert(params_of(seq![], seq![]) == Ok::<Seq<(Seq<char>, Seq<char>)>, HttpErrorSpec>(seq![]));
}

proof fn lemma_three(a: Seq<char>, b: Seq<char>, c: Seq<char>)
    requires
        !a.contains(' '),
        !b.contains(' '),
        !c.contains(' '),
    ensures
        pieces(a + seq![' '] + b + seq![' '] + c) == seq![a, b, c],
{
    law_pieces(c, seq![]);
    law_pieces(b, c);
    let rest = b + seq![' '] + c;
    law_pieces(a, rest);
    assert(a + seq![' '] + b + seq![' '] + c =~= a + seq![' '] + rest);
    assert(seq![a] + (seq![b] + seq![c]) =~= seq![a, b, c]);
}

/// A line that is not of three parts is no request line.
pub proof fn law_other_request_line(line: Seq<char>)
    requires
        pieces(line).len() != 3,
    ensures
        head_of(line) == Err::<HeadSpec, HttpErrorSpec>(HttpErrorSpec::MalformedRequestLine(line)),
{
}

/// The name is that of the content length, in any case.
pub open spec fn names_length(name: Seq<char>) -> bool {
    name.len() == 14 && forall|i: int|
        0 <= i < 14 ==> #[trigger] name[i] == "content-length"@[i] || name[i]
            == "CONTENT-LENGTH"@[i]
}

proof fn lemma_letter(i: int, c: char)
    requires
        0 <= i < 14,
    ensures
        lower(c) == "content-length"@[i] <==> c == "content-length"@[i] || c
            == "CONTENT-LENGTH"@[i],
{
    reveal_strlit("content-length");
    reveal_strlit("CONTENT-LENGTH");
    lemma_char_range(c);
    if i < 7 {
        assert(i == 0 || i == 1 || i == 2 || i == 3 || i == 4 || i == 5 || i == 6);
    } else {
        assert(i == 7 || i == 8 || i == 9 || i == 10 || i == 11 || i == 12 || i == 13);
    }
}

proof fn lemma_names_length(name: Seq<char>)
    ensures
        names_length(name) <==> lower_text(name) == "content-length"@,
{
    let (small, great) = ("content-length"@, "CONTENT-LENGTH"@);
    assert(small.len() == 14) by {
        reveal_strlit("content-length");
    }
    if names_length(name) {
        assert forall|i: int| 0 <= i < 14 implies #[trigger] lower_text(name)[i] == small[i] by {
            assert(name[i] == small[i] || name[i] == great[i]);
            lemma_letter(i, name[i]);
        }
        assert(lower_text(name) =~= small);
    }
    if lower_text(name) == small {
        assert(name.len() == 14);
        assert forall|i: int| 0 <= i < 14 implies #[trigger] name[i] == small[i] || name[i]
            == great[i] by {
            assert(lower_text(name)[i] == small[i]);
            lemma_letter(i, name[i]);
        }
    }
}

/// A header line gives the content length if and only if that is its name, in
/// any case and with any white space around name and value; a length that is no
/// number, or too great, is refused by the server and unknown to the client.
/// Every other header leaves the length, and a line without colon is no header.
pub proof fn law_length_header(
    name: Seq<char>,
    value: Seq<char>,
    gaps: (Seq<char>, Seq<char>, Seq<char>, Seq<char>),
    known: Option<nat>,
)
    requires
        !name.contains(':'),
        is_trimmed(name),
        is_trimmed(value),
        is_gap(gaps.0),
        is_gap(gaps.1),
        is_gap(gaps.2),
        is_gap(gaps.3),
    ensures
        ({
            let line = (gaps.0 + name + gaps.1) + seq![':'] + (gaps.2 + value + gaps.3);
            if names_length(name) {
                match unsigned_value(value) {
                    Some(n) => {
                        &&& n <= usize::MAX ==> header_length(line, known) == Ok::<
                            Option<nat>,
                            HttpErrorSpec,
                        >(Some(n))
                        &&& n > usize::MAX ==> header_length(line, known) == Err::<
                            Option<nat>,
                            HttpErrorSpec,
                        >(HttpErrorSpec::InvalidContentLength(value))
                        &&& n <= u64::MAX ==> reply_length(line, known) == Some(n)
                        &&& n > u64::MAX ==> reply_length(line, known) is None
                    },
                    None => {
                        &&& header_length(line, known) == Err::<Option<nat>, HttpErrorSpec>(
                            HttpErrorSpec::InvalidContentLength(value),
                        )
                        &&& reply_length(line, known) is None
                    },
                }
            } else {
                &&& header_length(line, known) == Ok::<Option<nat>, HttpErrorSpec>(known)
                &&& reply_length(line, known) == known
            }
        }),
        header_length(name, known) == Err::<Option<nat>, HttpErrorSpec>(
            HttpErrorSpec::MalformedHeader(name),
        ),
        reply_length(name, known) == known,
{
    let front = gaps.0 + name + gaps.1;
    let back = gaps.2 + value + gaps.3;
    assert(!front.contains(':')) by {
        if front.contains(':') {
            let i = choose|i: int| 0 <= i < front.len() && front[i] == ':';
            let k = i - gaps.0.len();
            if k < 0 {
                assert(is_white(gaps.0[i]));
            } else if k < name.len() {
                assert(name[k] == ':');
            } else {
                assert(is_white(gaps.1[k - name.len()]));
            }
        }
    }
    lemma_found(front, ':', back);
    lemma_trim_gaps(gaps.0, name, gaps.1);
    lemma_trim_gaps(gaps.2, value, gaps.3);
    lemma_names_length(name);
    lemma_no_index(name, ':');
}

/// A header line as it is sent: something on one line that does not end in
/// white space.
pub open spec fn is_sent(line: Seq<char>) -> bool {
    line.len() > 0 && !line.contains('\n') && !is_white(line.last())
}

/// The line gives the content length.
pub open spec fn gives(line: Seq<char>, n: nat) -> bool {
    forall|known: Option<nat>| #[trigger]
        header_length(line, known) == Ok::<Option<nat>, HttpErrorSpec>(Some(n))
}

/// The line is another header.
pub open spec fn gives_none(line: Seq<char>) -> bool {
    forall|known: Option<nat>| #[trigger]
        header_length(line, known) == Ok::<Option<nat>, HttpErrorSpec>(known)
}

/// The content length that the lines give: the last one.
pub open spec fn give(lines: Seq<Seq<char>>, length: Option<nat>) -> bool {
    &&& forall|i: int|
        0 <= i < lines.len() ==> is_sent(#[trigger] lines[i]) && (gives_none(lines[i]) || exists|
            n: nat,
        |
            gives(lines[i], n))
    &&& match length {
        Some(n) => exists|i: int|
            0 <= i < lines.len() && gives(#[trigger] lines[i], n) && forall|j: int|
                i < j < lines.len() ==> gives_none(#[trigger] lines[j]),
        None => forall|j: int| 0 <= j < lines.len() ==> gives_none(#[trigger] lines[j]),
    }
}

/// The bytes of lines.
pub open spec fn sent(lines: Seq<Seq<char>>) -> Seq<u8>
    decreases lines.len(),
{
    if lines.len() == 0 {
        seq![]
    } else {
        encode_utf8(crlf(lines[0])) + sent(lines.skip(1))
    }
}

/// What the server makes of the bytes behind the headers.
pub open spec fn is_read_as(
    r: Result<RequestSpec, HttpErrorSpec>,
    head: HeadSpec,
    length: Option<nat>,
    rest: Seq<u8>,
) -> bool {
    match length {
        None => if head.method == Method::Get {
            r matches Ok(req) && is_request(req, head, seq![])
        } else {
            r == Err::<RequestSpec, HttpErrorSpec>(HttpErrorSpec::LengthRequired)
        },
        Some(n) => if n > 4194304 {
            r == Err::<RequestSpec, HttpErrorSpec>(HttpErrorSpec::BodyTooLarge(n))
        } else if rest.len() < n {
            r matches Err(HttpErrorSpec::Io(_))
        } else {
            r matches Ok(req) && is_request(req, head, rest.take(n as int))
        },
    }
}

pub open spec fn is_request(req: RequestSpec, head: HeadSpec, body: Seq<u8>) -> bool {
    &&& req.method == head.method
    &&& req.path == head.path
    &&& req.query == head.query
    &&& req.body == body
}

proof fn lemma_blank_line(known: Progress, head: HeadSpec, rest: Seq<u8>)
    requires
        known.head == Some(head),
    ensures
        ({
            let b = encode_utf8(crlf(seq![]));
            let r = request_after(known, b + rest);
            &&& known.used + b.len() <= 16384 ==> is_read_as(r, head, known.length, rest)
            &&& known.used + b.len() > 16384 ==> r == Err::<RequestSpec, HttpErrorSpec>(
                HttpErrorSpec::HeadersTooLarge,
            )
        }),
{
    let none = Seq::<char>::empty();
    let b = encode_utf8(crlf(none));
    lemma_line(none, rest);
    lemma_trim_crlf(none);
    lemma_request_step(known, none, rest);
    assert(rest.take(0) =~= seq![]);
}

proof fn lemma_too_large(known: Progress, line: Seq<char>, rest: Seq<u8>)
    requires
        !line.contains('\n'),
        known.used + encode_utf8(crlf(line)).len() > 16384,
    ensures
        request_after(known, encode_utf8(crlf(line)) + rest) == Err::<RequestSpec, HttpErrorSpec>(
            HttpErrorSpec::HeadersTooLarge,
        ),
{
    lemma_line(line, rest);
}

proof fn lemma_headers(
    known: Progress,
    head: HeadSpec,
    lines: Seq<Seq<char>>,
    length: Option<nat>,
    rest: Seq<u8>,
)
    requires
        known.head == Some(head),
        give(lines, length),
    ensures
        ({
            let size = known.used + sent(lines).len() + encode_utf8(crlf(seq![])).len();
            let r = request_after(known, sent(lines) + (encode_utf8(crlf(seq![])) + rest));
            &&& size > 16384 ==> r == Err::<RequestSpec, HttpErrorSpec>(
                HttpErrorSpec::HeadersTooLarge,
            )
            &&& size <= 16384 ==> is_read_as(
                r,
                head,
                if length is Some {
                    length
                } else {
                    known.length
                },
                rest,
            )
        }),
    decreases lines.len(),
{
    let end = encode_utf8(crlf(seq![])) + rest;
    if lines.len() == 0 {
        assert(sent(lines) + end =~= end);
        lemma_blank_line(known, head, rest);
    } else {
        let line = lines[0];
        let more = lines.skip(1);
        let b = encode_utf8(crlf(line));
        assert(is_sent(line));
        assert(sent(lines) + end =~= b + (sent(more) + end));
        lemma_line(line, sent(more) + end);
        lemma_trim_crlf(line);
        lemma_request_step(known, line, sent(more) + end);
        if known.used + b.len() > 16384 {
            lemma_too_large(known, line, sent(more) + end);
        } else {
            assert forall|i: int| 0 <= i < more.len() implies is_sent(#[trigger] more[i]) && (
            gives_none(more[i]) || exists|n: nat| gives(more[i], n)) by {
                assert(more[i] == lines[i + 1]);
            }
            let here = header_length(line, known.length);
            assert(here is Ok) by {
                if !gives_none(line) {
                    let n = choose|n: nat| gives(line, n);
                    assert(gives(line, n));
                }
            }
            let next = Progress { used: known.used + b.len(), length: here->Ok_0, ..known };
            assert(after_line(known, b) == Ok::<(Progress, Option<nat>), HttpErrorSpec>(
                (next, None),
            ));
            if let Some(n) = length {
                let i = choose|i: int|
                    0 <= i < lines.len() && gives(#[trigger] lines[i], n) && forall|j: int|
                        i < j < lines.len() ==> gives_none(#[trigger] lines[j]);
                assert forall|j: int| i - 1 < j < more.len() && j >= 0 implies gives_none(
                    #[trigger] more[j],
                ) by {
                    assert(more[j] == lines[j + 1]);
                }
                if i > 0 {
                    assert(more[i - 1] == lines[i]);
                    assert(give(more, length));
                    lemma_headers(next, head, more, length, rest);
                } else {
                    assert(give(more, None));
                    assert(next.length == Some(n));
                    lemma_headers(next, head, more, None, rest);
                }
            } else {
                assert(gives_none(lines[0]));
                assert forall|j: int| 0 <= j < more.len() implies gives_none(#[trigger] more[j]) by {
                    assert(more[j] == lines[j + 1]);
                }
                assert(give(more, None));
                lemma_headers(next, head, more, None, rest);
            }
        }
    }
}

/// A whole request: its first line says what is asked for, the last content
/// length among its headers says how many of the bytes behind the empty line
/// are its body, and its head has at most 16384 bytes. Without a length a GET
/// has no body and a POST is refused.
pub proof fn law_request_in_full(
    first: Seq<char>,
    head: HeadSpec,
    lines: Seq<Seq<char>>,
    length: Option<nat>,
    rest: Seq<u8>,
)
    requires
        is_sent(first),
        head_of(first) == Ok::<HeadSpec, HttpErrorSpec>(head),
        give(lines, length),
    ensures
        ({
            let top = encode_utf8(crlf(first)) + sent(lines) + encode_utf8(crlf(seq![]));
            if top.len() > 16384 {
                request_of(top + rest) == Err::<RequestSpec, HttpErrorSpec>(
                    HttpErrorSpec::HeadersTooLarge,
                )
            } else {
                is_read_as(request_of(top + rest), head, length, rest)
            }
        }),
{
    let b = encode_utf8(crlf(first));
    let end = encode_utf8(crlf(seq![]));
    let more = sent(lines) + (end + rest);
    assert(b + sent(lines) + end + rest =~= b + more);
    lemma_line(first, more);
    lemma_trim_crlf(first);
    lemma_request_step(no_lines(), first, more);
    if b.len() > 16384 {
        lemma_too_large(no_lines(), first, more);
    } else {
        let next = Progress { used: b.len(), head: Some(head), length: None };
        assert(after_line(no_lines(), b) == Ok::<(Progress, Option<nat>), HttpErrorSpec>(
            (next, None),
        ));
        lemma_headers(next, head, lines, length, rest);
    }
}

/// A request whose first line is refused is refused with that reason, whatever
/// follows.
pub proof fn law_refused_first_line(first: Seq<char>, e: HttpErrorSpec, rest: Seq<u8>)
    requires
        is_sent(first),
        encode_utf8(crlf(first)).len() <= 16384,
        head_of(first) == Err::<HeadSpec, HttpErrorSpec>(e),
    ensures
        request_of(encode_utf8(crlf(first)) + rest) == Err::<RequestSpec, HttpErrorSpec>(e),
{
    lemma_line(first, rest);
    lemma_trim_crlf(first);
    lemma_request_step(no_lines(), first, rest);
}

/// The line gives the client the content length, or an unreadable one.
pub open spec fn tells(line: Seq<char>, n: Option<nat>) -> bool {
    forall|known: Option<nat>| #[trigger] reply_length(line, known) == n
}

/// The line tells the client no length.
pub open spec fn tells_nothing(line: Seq<char>) -> bool {
    forall|known: Option<nat>| #[trigger] reply_length(line, known) == known
}

/// The content length that the lines tell the client: the last one.
pub open spec fn tell(lines: Seq<Seq<char>>, length: Option<nat>) -> bool {
    &&& forall|i: int| 0 <= i < lines.len() ==> is_sent(#[trigger] lines[i])
    &&& {
        ||| length is None && forall|j: int|
            0 <= j < lines.len() ==> tells_nothing(#[trigger] lines[j])
        ||| exists|i: int|
            0 <= i < lines.len() && tells(#[trigger] lines[i], length) && forall|j: int|
                i < j < lines.len() ==> tells_nothing(#[trigger] lines[j])
    }
}

/// What the client makes of the bytes behind the headers: the text of the body,
/// of at most 1048576 bytes.
pub open spec fn is_taken_as(
    r: Result<Seq<char>, ClientErrorSpec>,
    length: Option<nat>,
    rest: Seq<u8>,
) -> bool {
    let limit: int = match length {
        Some(n) => if n < 1048576 {
            n as int
        } else {
            1048576
        },
        None => 1048576,
    };
    let body = if limit < rest.len() {
        rest.take(limit)
    } else {
        rest
    };
    if valid_utf8(body) {
        r == Ok::<Seq<char>, ClientErrorSpec>(decode_utf8(body))
    } else {
        r == Err::<Seq<char>, ClientErrorSpec>(ClientErrorSpec::BodyNotUtf8)
    }
}

proof fn lemma_reply_headers(
    known: ReplyProgress,
    lines: Seq<Seq<char>>,
    length: Option<nat>,
    rest: Seq<u8>,
)
    requires
        known.accepted,
        tell(lines, length) || (forall|j: int|
            0 <= j < lines.len() ==> is_sent(lines[j]) && tells_nothing(#[trigger] lines[j]))
            && known.length == length,
        tell(lines, length) && (forall|j: int|
            0 <= j < lines.len() ==> tells_nothing(#[trigger] lines[j])) ==> known.length == length
            || exists|i: int| 0 <= i < lines.len() && tells(#[trigger] lines[i], length),
    ensures
        is_taken_as(
            body_after(known, sent(lines) + (encode_utf8(crlf(seq![])) + rest)),
            length,
            rest,
        ),
    decreases lines.len(),
{
    let none = Seq::<char>::empty();
    let end = encode_utf8(crlf(none)) + rest;
    if lines.len() == 0 {
        assert(sent(lines) + end =~= end);
        lemma_line(none, rest);
        lemma_trim_crlf(none);
    } else {
        let line = lines[0];
        let more = lines.skip(1);
        let b = encode_utf8(crlf(line));
        assert(is_sent(line));
        assert(sent(lines) + end =~= b + (sent(more) + end));
        lemma_line(line, sent(more) + end);
        lemma_trim_crlf(line);
        lemma_reply_step(known, line, sent(more) + end);
        let next = ReplyProgress { accepted: true, length: reply_length(line, known.length) };
        assert forall|j: int| 0 <= j < more.len() implies is_sent(#[trigger] more[j]) by {
            assert(more[j] == lines[j + 1]);
            assert(is_sent(lines[j + 1]));
        }
        if forall|j: int| 0 <= j < lines.len() ==> tells_nothing(#[trigger] lines[j]) {
            assert forall|j: int| 0 <= j < more.len() implies tells_nothing(#[trigger] more[j]) by {
                assert(more[j] == lines[j + 1]);
            }
            if known.length != length {
                let i = choose|i: int| 0 <= i < lines.len() && tells(#[trigger] lines[i], length);
                let other: Option<nat> = if length is None {
                    Some(0)
                } else {
                    None
                };
                assert(reply_length(lines[i], other) == length);
                assert(reply_length(lines[i], other) == other);
            }
            assert(tells_nothing(line));
            lemma_reply_headers(next, more, length, rest);
        } else {
            let i = choose|i: int|
                0 <= i < lines.len() && tells(#[trigger] lines[i], length) && forall|j: int|
                    i < j < lines.len() ==> tells_nothing(#[trigger] lines[j]);
            assert forall|j: int| i - 1 < j < more.len() && j >= 0 implies tells_nothing(
                #[trigger] more[j],
            ) by {
                assert(more[j] == lines[j + 1]);
            }
            if i > 0 {
                assert(more[i - 1] == lines[i]);
                assert(tells(more[i - 1], length));
                assert(tell(more, length));
            } else {
                assert(next.length == length);
            }
            lemma_reply_headers(next, more, length, rest);
        }
    }
}

/// A whole reply with status 200: the last content length among its headers
/// says how many of the bytes behind the empty line are its body, all of them
/// without one, and at most 1048576 are read.
pub proof fn law_reply_in_full(
    first: Seq<char>,
    lines: Seq<Seq<char>>,
    length: Option<nat>,
    rest: Seq<u8>,
)
    requires
        !first.contains('\n'),
        status_of(crlf(first)) == Some(200nat),
        tell(lines, length),
    ensures
        is_taken_as(
            reply_body(
                encode_utf8(crlf(first)) + sent(lines) + encode_utf8(crlf(seq![])) + rest,
            ),
            length,
            rest,
        ),
{
    let b = encode_utf8(crlf(first));
    let end = encode_utf8(crlf(seq![]));
    let more = sent(lines) + (end + rest);
    assert(b + sent(lines) + end + rest =~= b + more);
    lemma_line(first, more);
    lemma_reply_step(no_reply(), first, more);
    let next = ReplyProgress { accepted: true, length: None };
    lemma_reply_headers(next, lines, length, rest);
}

/// The status of a reply is the number between the first two blanks of its
/// first line; any other one than 200 is reported, as is a line without one.
pub proof fn law_reply_status(version: Seq<char>, code: Seq<char>, tail: Seq<char>, rest: Seq<u8>)
    requires
        !version.contains(' '),
        !code.contains(' '),
        !(version + seq![' '] + code + seq![' '] + tail).contains('\n'),
    ensures
        ({
            let first = version + seq![' '] + code + seq![' '] + tail;
            let r = reply_body(encode_utf8(crlf(first)) + rest);
            match unsigned_value(code) {
                Some(n) => if n > 65535 {
                    r == Err::<Seq<char>, ClientErrorSpec>(
                        ClientErrorSpec::BadStatusLine(trim_end(crlf(first))),
                    )
                } else if n != 200 {
                    r == Err::<Seq<char>, ClientErrorSpec>(ClientErrorSpec::HttpStatus(n))
                } else {
                    status_of(crlf(first)) == Some(200nat)
                },
                None => r == Err::<Seq<char>, ClientErrorSpec>(
                    ClientErrorSpec::BadStatusLine(trim_end(crlf(first))),
                ),
            }
        }),
{
    let first = version + seq![' '] + code + seq![' '] + tail;
    let end = crlf(tail);
    lemma_line(first, rest);
    let more = code + seq![' '] + end;
    assert(crlf(first) =~= version + seq![' '] + more);
    law_pieces(version, more);
    law_pieces(code, end);
    let ps = pieces(crlf(first));
    assert(ps =~= seq![version] + (seq![code] + pieces(end)));
    assert(ps[1] == code);
}

/// Something that a path may be: empty, or behind a slash.
pub open spec fn is_path(path: Seq<char>) -> bool {
    path.len() > 0 ==> path[0] == '/'
}

/// The path that is asked for.
pub open spec fn asked_path(path: Seq<char>) -> Seq<char> {
    if path.len() == 0 {
        seq!['/']
    } else {
        path
    }
}

proof fn lemma_authority(authority: Seq<char>, path: Seq<char>)
    requires
        !authority.contains('/'),
        is_path(path),
    ensures
        ({
            let s = "http://"@ + authority + path;
            let rest = s.skip(7);
            &&& starts_with(s, "http://"@)
            &&& index_of(rest, '/') == authority.len()
            &&& rest.take(authority.len() as int) == authority
            &&& rest.skip(authority.len() as int) == path
            &&& rest.len() == authority.len() + path.len()
        }),
{
    reveal_strlit("http://");
    assert("http://"@.len() == 7);
    let s = "http://"@ + authority + path;
    let rest = s.skip(7);
    assert(s.take(7) =~= "http://"@);
    assert(rest =~= authority + path);
    assert forall|j: int| 0 <= j < authority.len() implies !is_char('/')(#[trigger] rest[j]) by {
        assert(rest[j] == authority[j]);
        assert(authority.contains(authority[j]));
    }
    if path.len() > 0 {
        assert(rest[authority.len() as int] == path[0]);
    }
    lemma_index_where_is(rest, is_char('/'), authority.len() as int);
    assert(rest.take(authority.len() as int) =~= authority);
    assert(rest.skip(authority.len() as int) =~= path);
}

proof fn lemma_last_colon(a: Seq<char>, b: Seq<char>)
    requires
        !b.contains(':'),
    ensures
        crate::http::client::last_index_of(a + seq![':'] + b, ':') == a.len(),
    decreases b.len(),
{
    let s = a + seq![':'] + b;
    if b.len() == 0 {
        assert(s.last() == ':');
    } else {
        assert(b.contains(b.last()));
        let c = b.drop_last();
        assert(!c.contains(':')) by {
            if c.contains(':') {
                let i = choose|i: int| 0 <= i < c.len() && c[i] == ':';
                assert(b[i] == ':');
            }
        }
        assert(s.last() == b.last());
        assert(s.drop_last() =~= a + seq![':'] + c);
        lemma_last_colon(a, c);
    }
}

proof fn lemma_no_colon(s: Seq<char>)
    requires
        !s.contains(':'),
    ensures
        crate::http::client::last_index_of(s, ':') == -1,
    decreases s.len(),
{
    if s.len() > 0 {
        assert(s.contains(s.last()));
        let t = s.drop_last();
        assert(!t.contains(':')) by {
            if t.contains(':') {
                let i = choose|i: int| 0 <= i < t.len() && t[i] == ':';
                assert(s[i] == ':');
            }
        }
        lemma_no_colon(t);
    }
}

/// A URL without port names its host, port 80 and its path, or the root.
pub proof fn law_url_without_port(host: Seq<char>, path: Seq<char>)
    requires
        !host.contains('/'),
        !host.contains(':'),
        is_path(path),
    ensures
        ({
            let s = "http://"@ + host + path;
            if host.len() == 0 {
                url_of(s) == Err::<UrlSpec, ClientErrorSpec>(ClientErrorSpec::MissingHost(s))
            } else {
                url_of(s) == Ok::<UrlSpec, ClientErrorSpec>(
                    UrlSpec { host, port: 80, path: asked_path(path), original: s },
                )
            }
        }),
{
    lemma_authority(host, path);
    lemma_no_colon(host);
}

/// A URL with a port names its host, that port and its path, or the root; a port
/// that is no number, or too great, is refused, and so is an empty host.
pub proof fn law_url_with_port(host: Seq<char>, port: Seq<char>, path: Seq<char>)
    requires
        !host.contains('/'),
        !port.contains('/'),
        !port.contains(':'),
        is_path(path),
    ensures
        ({
            let s = "http://"@ + (host + seq![':'] + port) + path;
            match unsigned_value(port) {
                Some(n) => if n > 65535 {
                    url_of(s) == Err::<UrlSpec, ClientErrorSpec>(ClientErrorSpec::InvalidPort(port))
                } else if host.len() == 0 {
                    url_of(s) == Err::<UrlSpec, ClientErrorSpec>(ClientErrorSpec::MissingHost(s))
                } else {
                    url_of(s) == Ok::<UrlSpec, ClientErrorSpec>(
                        UrlSpec { host, port: n, path: asked_path(path), original: s },
                    )
                },
                None => url_of(s) == Err::<UrlSpec, ClientErrorSpec>(
                    ClientErrorSpec::InvalidPort(port),
                ),
            }
        }),
{
    let authority = host + seq![':'] + port;
    assert(!authority.contains('/')) by {
        if authority.contains('/') {
            let i = choose|i: int| 0 <= i < authority.len() && authority[i] == '/';
            if i < host.len() {
                assert(host[i] == '/');
            } else if i > host.len() {
                assert(port[i - host.len() - 1] == '/');
            }
        }
    }
    lemma_authority(authority, path);
    lemma_last_colon(host, port);
    assert(authority.skip(host.len() as int + 1) =~= port);
    assert(authority.take(host.len() as int) =~= host);
}

/// Only `http` URLs are taken.
pub proof fn law_other_schemes(s: Seq<char>)
    requires
        s.len() < 7 || s.take(7) != "http://"@,
    ensures
        url_of(s) == Err::<UrlSpec, ClientErrorSpec>(ClientErrorSpec::UnsupportedScheme(s)),
{
    reveal_strlit("http://");
    assert("http://"@.len() == 7);
}

/// A line of a request that is no text, and a request that ends before its
/// headers do, cannot be read.
pub proof fn law_broken_request(known: Progress, line: Seq<u8>, rest: Seq<u8>)
    requires
        line.len() > 0,
        line.last() == 0x0a,
        forall|i: int| 0 <= i < line.len() - 1 ==> #[trigger] line[i] != 0x0a,
        !valid_utf8(line),
    ensures
        request_after(known, line + rest) matches Err(HttpErrorSpec::Io(_)),
        request_after(known, seq![]) matches Err(HttpErrorSpec::Io(_)),
        request_of(seq![]) is Err,
{
    lemma_whole_line(line, rest);
    let none = Seq::<u8>::empty();
    assert(none.take(0) =~= none);
    assert(valid_utf8(none)) by {
        vstd::utf8::encode_utf8_valid_utf8(seq![]);
        assert(encode_utf8(seq![]) =~= none);
    }
}

proof fn lemma_whole_line(line: Seq<u8>, rest: Seq<u8>)
    requires
        line.len() > 0,
        line.last() == 0x0a,
        forall|i: int| 0 <= i < line.len() - 1 ==> #[trigger] line[i] != 0x0a,
    ensures
        line_len(line + rest) == line.len(),
        (line + rest).take(line.len() as int) == line,
        (line + rest).skip(line.len() as int) == rest,
    decreases line.len(),
{
    let s = line + rest;
    assert(s.take(line.len() as int) =~= line);
    assert(s.skip(line.len() as int) =~= rest);
    if line.len() == 1 {
        assert(s[0] == line.last());
    } else {
        let t = line.skip(1);
        assert(s[0] == line[0]);
        assert(s.skip(1) =~= t + rest);
        assert forall|i: int| 0 <= i < t.len() - 1 implies #[trigger] t[i] != 0x0a by {
            assert(t[i] == line[i + 1]);
        }
        lemma_whole_line(t, rest);
    }
}

/// A line of a reply that is no text cannot be read, and a reply that ends
/// within its headers has an empty body.
pub proof fn law_broken_reply(known: ReplyProgress, line: Seq<u8>, rest: Seq<u8>)
    requires
        line.len() > 0,
        line.last() == 0x0a,
        forall|i: int| 0 <= i < line.len() - 1 ==> #[trigger] line[i] != 0x0a,
        !valid_utf8(line),
    ensures
        body_after(known, line + rest) matches Err(ClientErrorSpec::Io(_)),
        known.accepted ==> body_after(known, seq![]) == Ok::<Seq<char>, ClientErrorSpec>(seq![]),
{
    lemma_whole_line(line, rest);
    let none = Seq::<u8>::empty();
    assert(none.take(0) =~= none);
    assert(none.skip(0) =~= none);
    assert(valid_utf8(none) && decode_utf8(none) =~= seq![]) by {
        vstd::utf8::encode_utf8_valid_utf8(seq![]);
        vstd::utf8::encode_utf8_decode_utf8(seq![]);
        assert(encode_utf8(seq![]) =~= none);
    }
}

/// Up to 64 connections are served at a time.
pub proof fn law_connections(active: nat)
    ensures
        has_room(active) <==> active + 1 <= 64,
{
}

/// Each status that is answered has its phrase, and no other one has any of
/// these.
pub proof fn law_reason_phrases(status: u16)
    ensures
        status == 200 <==> reason(status) == "OK"@,
        status == 204 <==> reason(status) == "No Content"@,
        status == 400 <==> reason(status) == "Bad Request"@,
        status == 404 <==> reason(status) == "Not Found"@,
        status == 405 <==> reason(status) == "Method Not Allowed"@,
        status == 411 <==> reason(status) == "Length Required"@,
        status == 413 <==> reason(status) == "Payload Too Large"@,
        status == 500 <==> reason(status) == "Internal Server Error"@,
{
    reveal_strlit("OK");
    reveal_strlit("No Content");
    reveal_strlit("Bad Request");
    reveal_strlit("Not Found");
    reveal_strlit("Method Not Allowed");
    reveal_strlit("Length Required");
    reveal_strlit("Payload Too Large");
    reveal_strlit("Internal Server Error");
    reveal_strlit("Unknown");
    assert("OK"@.len() == 2 && "No Content"@.len() == 10 && "Bad Request"@.len() == 11);
    assert("Not Found"@.len() == 9 && "Method Not Allowed"@.len() == 18);
    assert("Length Required"@.len() == 15 && "Payload Too Large"@.len() == 17);
    assert("Internal Server Error"@.len() == 21 && "Unknown"@.len() == 7);
}

} // verus!
