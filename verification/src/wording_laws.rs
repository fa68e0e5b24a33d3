//! Laws of the texts that are written: samples and metadata, and messages.

use vstd::prelude::*;

use crate::binary64::{is_nan, INFINITY, SIGN};
use crate::config::{config_error_text, ConfigErrorSpec};
use crate::decimal::{is_finite, number_text};
use crate::http::client::{client_error_text, ClientErrorSpec};
use crate::http::{http_error_text, HttpErrorSpec};
use crate::model::{kind_text, LabelPairs, MetaSpec, ModelError, ScrapedSpec};
use crate::numeral::int_text;
use crate::snapshot::{snapshot_error_text, snapshot_file, SnapshotErrorSpec};
use crate::text::debug_text;
use crate::textfmt::{
    error_text, escape_help, escape_value, meta_text, pairs_text, sample_line, value_text,
    ErrorKindSpec, ErrorSpec,
};

verus! {

/// The text holds the part.
pub open spec fn holds(text: Seq<char>, part: Seq<char>) -> bool {
    exists|before: Seq<char>, after: Seq<char>| text == #[trigger] (before + part + after)
}

proof fn lemma_at_the_end(a: Seq<char>, part: Seq<char>)
    ensures
        holds(a + part, part),
{
    assert(a + part =~= a + part + Seq::<char>::empty());
}

proof fn lemma_inside(a: Seq<char>, part: Seq<char>, b: Seq<char>)
    ensures
        holds(a + part + b, part),
{
    assert(a + part + b == a + part + b);
}

/// A character of a label value is escaped if it is a backslash, a quote or a
/// line feed, and stands for itself otherwise; so it is in a help text, where
/// quotes stand for themselves too. Texts in a row are escaped one by one.
pub proof fn law_escaped_in_text(c: char, a: Seq<char>, b: Seq<char>)
    ensures
        escape_value(seq![c]) == if c == '\\' || c == '"' {
            seq!['\\', c]
        } else if c == '\n' {
            seq!['\\', 'n']
        } else {
            seq![c]
        },
        escape_help(seq![c]) == if c == '\\' {
            seq!['\\', c]
        } else if c == '\n' {
            seq!['\\', 'n']
        } else {
            seq![c]
        },
        escape_value(a + b) == escape_value(a) + escape_value(b),
        escape_help(a + b) == escape_help(a) + escape_help(b),
    decreases a.len(),
{
    let one = seq![c];
    assert(one.skip(1) =~= seq![]);
    assert(escape_value(one.skip(1)) == Seq::<char>::empty());
    assert(escape_help(one.skip(1)) == Seq::<char>::empty());
    if a.len() == 0 {
        assert(a + b =~= b);
        assert(escape_value(a) + escape_value(b) =~= escape_value(b));
        assert(escape_help(a) + escape_help(b) =~= escape_help(b));
    } else {
        let t = a.skip(1);
        law_escaped_in_text(c, t, b);
        assert((a + b).skip(1) =~= t + b);
        assert(escape_value(a + b) =~= escape_value(a) + escape_value(b));
        assert(escape_help(a + b) =~= escape_help(a) + escape_help(b));
    }
}

/// Labels are written as name and quoted value, with commas between them.
pub proof fn law_labels_in_text(p: (Seq<char>, Seq<char>), a: LabelPairs, b: LabelPairs)
    ensures
        pairs_text(seq![], true) == Seq::<char>::empty(),
        pairs_text(seq![p], true) == p.0 + "=\""@ + escape_value(p.1) + "\""@,
        a.len() > 0 && b.len() > 0 ==> pairs_text(a + b, true) == pairs_text(a, true) + ","@
            + pairs_text(b, true),
{
    reveal_strlit("=\"");
    reveal_strlit("\"");
    reveal_strlit(",");
    let one = seq![p];
    assert(one.skip(1) =~= seq![]);
    assert(pairs_text(one.skip(1), false) == Seq::<char>::empty());
    assert(pairs_text(one, true) =~= p.0 + "=\""@ + escape_value(p.1) + "\""@);
    if a.len() > 0 && b.len() > 0 {
        lemma_more_labels(a.skip(1), b);
        assert((a + b).skip(1) =~= a.skip(1) + b);
        assert(pairs_text(b, false) =~= ","@ + pairs_text(b, true));
        assert(pairs_text(a + b, true) =~= pairs_text(a, true) + ","@ + pairs_text(b, true));
    }
}

proof fn lemma_more_labels(a: LabelPairs, b: LabelPairs)
    ensures
        pairs_text(a + b, false) == pairs_text(a, false) + pairs_text(b, false),
    decreases a.len(),
{
    if a.len() == 0 {
        assert(a + b =~= b);
        assert(pairs_text(a, false) + pairs_text(b, false) =~= pairs_text(b, false));
    } else {
        lemma_more_labels(a.skip(1), b);
        assert((a + b).skip(1) =~= a.skip(1) + b);
        assert(pairs_text(a + b, false) =~= pairs_text(a, false) + pairs_text(b, false));
    }
}

/// A sample line is the name, the labels in braces if there are any, the value
/// and the timestamp if there is one.
pub proof fn law_sample_text(s: ScrapedSpec, ms: int)
    ensures
        ({
            let front = if s.key.1.len() == 0 {
                s.key.0
            } else {
                s.key.0 + "{"@ + pairs_text(s.key.1, true) + "}"@
            };
            &&& s.ts is None ==> sample_line(s) == front + " "@ + value_text(s.value)
            &&& s.ts == Some(ms) ==> sample_line(s) == front + " "@ + value_text(s.value) + " "@
                + int_text(ms)
        }),
        is_nan(s.value) ==> value_text(s.value) == "NaN"@,
        s.value == INFINITY ==> value_text(s.value) == "+Inf"@,
        s.value == INFINITY + SIGN ==> value_text(s.value) == "-Inf"@,
        is_finite(s.value) ==> value_text(s.value) == number_text(s.value),
{
    reveal_strlit("{");
    reveal_strlit("}");
    reveal_strlit(" ");
    reveal_strlit("NaN");
    reveal_strlit("+Inf");
    reveal_strlit("-Inf");
    let front = if s.key.1.len() == 0 {
        s.key.0
    } else {
        s.key.0 + "{"@ + pairs_text(s.key.1, true) + "}"@
    };
    if s.ts is None {
        assert(sample_line(s) =~= front + " "@ + value_text(s.value));
    }
    if s.ts == Some(ms) {
        assert(sample_line(s) =~= front + " "@ + value_text(s.value) + " "@ + int_text(ms));
    }
    assert(seq!['N', 'a', 'N'] =~= "NaN"@);
    assert(seq!['+', 'I', 'n', 'f'] =~= "+Inf"@);
    assert(seq!['-', 'I', 'n', 'f'] =~= "-Inf"@);
}

/// The metadata of a metric are written as a help line, unless the help text is
/// empty, and a type line.
pub proof fn law_meta_text(name: Seq<char>, meta: MetaSpec)
    ensures
        ({
            let help = "# HELP "@ + name + " "@ + escape_help(meta.help) + "\n"@;
            let kind = "# TYPE "@ + name + " "@ + kind_text(meta.kind) + "\n"@;
            meta_text(name, meta) == if meta.help.len() == 0 {
                kind
            } else {
                help + kind
            }
        }),
{
    reveal_strlit(" ");
    reveal_strlit("\n");
    let help = "# HELP "@ + name + " "@ + escape_help(meta.help) + "\n"@;
    let kind = "# TYPE "@ + name + " "@ + kind_text(meta.kind) + "\n"@;
    if meta.help.len() == 0 {
        assert(meta_text(name, meta) =~= kind);
    } else {
        assert(meta_text(name, meta) =~= help + kind);
    }
}

/// The message on a line that cannot be read begins with the number of the line
/// and holds what was found there.
pub proof fn law_line_message(e: ErrorSpec)
    ensures
        exists|rest: Seq<char>|
            error_text(e) == #[trigger] ("text format line "@ + int_text(e.line as int) + ": "@
                + rest),
        match e.kind {
            ErrorKindSpec::InvalidMetricName(s) => holds(error_text(e), debug_text(s)),
            ErrorKindSpec::InvalidLabelName(s) => holds(error_text(e), debug_text(s)),
            ErrorKindSpec::DuplicateLabel(s) => holds(error_text(e), debug_text(s)),
            ErrorKindSpec::UnterminatedLabels => holds(error_text(e), "unterminated"@),
            ErrorKindSpec::BadEscape(c) => holds(error_text(e), seq!['\\', c]),
            ErrorKindSpec::MissingValue => holds(error_text(e), "missing"@),
            ErrorKindSpec::InvalidValue(s) => holds(error_text(e), debug_text(s)),
            ErrorKindSpec::InvalidTimestamp(s) => holds(error_text(e), debug_text(s)),
            ErrorKindSpec::InvalidType(s) => holds(error_text(e), debug_text(s)),
            ErrorKindSpec::Malformed(s) => holds(error_text(e), s),
        },
{
    let front = "text format line "@ + int_text(e.line as int) + ": "@;
    let text = error_text(e);
    let rest = text.skip(front.len() as int);
    assert(text =~= front + rest);
    match e.kind {
        ErrorKindSpec::InvalidMetricName(s) => {
            lemma_at_the_end(front + "invalid metric name "@, debug_text(s));
            assert(text =~= front + "invalid metric name "@ + debug_text(s));
        },
        ErrorKindSpec::InvalidLabelName(s) => {
            lemma_at_the_end(front + "invalid label name "@, debug_text(s));
            assert(text =~= front + "invalid label name "@ + debug_text(s));
        },
        ErrorKindSpec::DuplicateLabel(s) => {
            lemma_at_the_end(front + "duplicate label "@, debug_text(s));
            assert(text =~= front + "duplicate label "@ + debug_text(s));
        },
        ErrorKindSpec::UnterminatedLabels => {
            reveal_strlit("unterminated label set");
            reveal_strlit("unterminated");
            let more = "unterminated label set"@.skip(12);
            lemma_inside(front, "unterminated"@, more);
            assert("unterminated label set"@ =~= "unterminated"@ + more);
            assert(text =~= front + "unterminated"@ + more);
        },
        ErrorKindSpec::BadEscape(c) => {
            reveal_strlit("bad escape sequence \\");
            let word = "bad escape sequence \\"@;
            let most = word.take(20);
            lemma_at_the_end(front + most, seq!['\\', c]);
            assert(word.push(c) =~= most + seq!['\\', c]);
            assert(text =~= front + most + seq!['\\', c]);
        },
        ErrorKindSpec::MissingValue => {
            reveal_strlit("missing sample value");
            reveal_strlit("missing");
            let more = "missing sample value"@.skip(7);
            lemma_inside(front, "missing"@, more);
            assert("missing sample value"@ =~= "missing"@ + more);
            assert(text =~= front + "missing"@ + more);
        },
        ErrorKindSpec::InvalidValue(s) => {
            lemma_at_the_end(front + "invalid sample value "@, debug_text(s));
            assert(text =~= front + "invalid sample value "@ + debug_text(s));
        },
        ErrorKindSpec::InvalidTimestamp(s) => {
            lemma_at_the_end(front + "invalid timestamp "@, debug_text(s));
            assert(text =~= front + "invalid timestamp "@ + debug_text(s));
        },
        ErrorKindSpec::InvalidType(s) => {
            lemma_at_the_end(front + "invalid TYPE "@, debug_text(s));
            assert(text =~= front + "invalid TYPE "@ + debug_text(s));
        },
        ErrorKindSpec::Malformed(s) => {
            lemma_at_the_end(front + "malformed line: "@, s);
            assert(text =~= front + "malformed line: "@ + s);
        },
    }
}

/// The message on a request that cannot be read holds what was refused.
pub proof fn law_request_message(e: HttpErrorSpec)
    ensures
        match e {
            HttpErrorSpec::MalformedRequestLine(s) => holds(http_error_text(e), debug_text(s)),
            HttpErrorSpec::UnsupportedMethod(s) => holds(http_error_text(e), debug_text(s)),
            HttpErrorSpec::MalformedHeader(s) => holds(http_error_text(e), debug_text(s)),
            HttpErrorSpec::BodyTooLarge(n) => holds(http_error_text(e), int_text(n as int)),
            HttpErrorSpec::InvalidContentLength(s) => holds(http_error_text(e), debug_text(s)),
            HttpErrorSpec::BadPercentEncoding(s) => holds(http_error_text(e), debug_text(s)),
            HttpErrorSpec::Io(s) => holds(http_error_text(e), s),
            _ => http_error_text(e).len() > 0,
        },
{
    match e {
        HttpErrorSpec::MalformedRequestLine(s) => {
            lemma_at_the_end("Request: malformed request line "@, debug_text(s));
        },
        HttpErrorSpec::UnsupportedMethod(s) => {
            lemma_at_the_end("Request: unsupported method "@, debug_text(s));
        },
        HttpErrorSpec::MalformedHeader(s) => {
            lemma_at_the_end("Request: malformed header "@, debug_text(s));
        },
        HttpErrorSpec::HeadersTooLarge => {
            reveal_strlit("Request: header block too large");
        },
        HttpErrorSpec::BodyTooLarge(n) => {
            lemma_inside("Request: body of "@, int_text(n as int), " bytes too large"@);
        },
        HttpErrorSpec::LengthRequired => {
            reveal_strlit("Request: Content-Length required");
        },
        HttpErrorSpec::InvalidContentLength(s) => {
            lemma_at_the_end("Request: invalid Content-Length "@, debug_text(s));
        },
        HttpErrorSpec::BadPercentEncoding(s) => {
            lemma_at_the_end("QueryParams: bad percent-encoding in "@, debug_text(s));
        },
        HttpErrorSpec::Io(s) => {
            lemma_at_the_end("Request: io error: "@, s);
        },
    }
}

/// The message on a target that cannot be scraped holds what was refused.
pub proof fn law_target_message(e: ClientErrorSpec)
    ensures
        match e {
            ClientErrorSpec::UnsupportedScheme(s) => holds(client_error_text(e), debug_text(s)),
            ClientErrorSpec::MissingHost(s) => holds(client_error_text(e), debug_text(s)),
            ClientErrorSpec::InvalidPort(s) => holds(client_error_text(e), debug_text(s)),
            ClientErrorSpec::Connect(s) => holds(client_error_text(e), s),
            ClientErrorSpec::Io(s) => holds(client_error_text(e), s),
            ClientErrorSpec::BadStatusLine(s) => holds(client_error_text(e), debug_text(s)),
            ClientErrorSpec::HttpStatus(n) => holds(client_error_text(e), int_text(n as int)),
            ClientErrorSpec::BodyNotUtf8 => client_error_text(e).len() > 0,
        },
{
    match e {
        ClientErrorSpec::UnsupportedScheme(s) => {
            lemma_inside(
                "ScrapeUrl: unsupported scheme in "@,
                debug_text(s),
                " (http:// only)"@,
            );
        },
        ClientErrorSpec::MissingHost(s) => {
            lemma_at_the_end("ScrapeUrl: missing host in "@, debug_text(s));
        },
        ClientErrorSpec::InvalidPort(s) => {
            lemma_at_the_end("ScrapeUrl: invalid port "@, debug_text(s));
        },
        ClientErrorSpec::Connect(s) => {
            lemma_at_the_end("scrape: connect failed: "@, s);
        },
        ClientErrorSpec::Io(s) => {
            lemma_at_the_end("scrape: io error: "@, s);
        },
        ClientErrorSpec::BadStatusLine(s) => {
            lemma_at_the_end("scrape: bad status line "@, debug_text(s));
        },
        ClientErrorSpec::HttpStatus(n) => {
            lemma_at_the_end("scrape: target returned HTTP "@, int_text(n as int));
        },
        ClientErrorSpec::BodyNotUtf8 => {
            reveal_strlit("scrape: response body is not UTF-8");
        },
    }
}

/// The message on arguments that are refused names the flag, and the value where
/// it is refused for it.
pub proof fn law_argument_message(e: ConfigErrorSpec)
    ensures
        match e {
            ConfigErrorSpec::HelpRequested => config_error_text(e) == crate::config::USAGE@,
            ConfigErrorSpec::UnknownFlag(s) => holds(config_error_text(e), debug_text(s)),
            ConfigErrorSpec::MissingValue(f) => holds(config_error_text(e), f),
            ConfigErrorSpec::InvalidValue(f, v) => holds(config_error_text(e), f) && holds(
                config_error_text(e),
                v,
            ),
        },
{
    match e {
        ConfigErrorSpec::HelpRequested => {},
        ConfigErrorSpec::UnknownFlag(s) => {
            lemma_at_the_end("Config: unknown flag "@, debug_text(s));
        },
        ConfigErrorSpec::MissingValue(f) => {
            lemma_inside("Config: "@, f, " requires a value"@);
        },
        ConfigErrorSpec::InvalidValue(f, v) => {
            let a = "Config: invalid value for "@;
            lemma_inside(a, f, ": "@ + v);
            assert(config_error_text(e) =~= a + f + (": "@ + v));
            lemma_at_the_end(a + f + ": "@, v);
        },
    }
}

/// The message on a snapshot that cannot be read names the field, and the number
/// or the value where it is refused for it.
pub proof fn law_snapshot_message(e: SnapshotErrorSpec)
    ensures
        match e {
            SnapshotErrorSpec::Io(s) => holds(snapshot_error_text(e), s),
            SnapshotErrorSpec::BadMagic => snapshot_error_text(e).len() > 0,
            SnapshotErrorSpec::UnsupportedVersion(v) => holds(
                snapshot_error_text(e),
                int_text(v as int),
            ),
            SnapshotErrorSpec::Truncated(f) => holds(snapshot_error_text(e), f),
            SnapshotErrorSpec::FieldTooLarge(f, n) => holds(snapshot_error_text(e), f) && holds(
                snapshot_error_text(e),
                int_text(n as int),
            ),
            SnapshotErrorSpec::InvalidUtf8(f) => holds(snapshot_error_text(e), f),
            SnapshotErrorSpec::InvalidField(f, v) => holds(snapshot_error_text(e), f) && holds(
                snapshot_error_text(e),
                v,
            ),
        },
{
    let a = "snapshot: field "@;
    let text = snapshot_error_text(e);
    match e {
        SnapshotErrorSpec::Io(s) => {
            lemma_at_the_end("snapshot: io error: "@, s);
        },
        SnapshotErrorSpec::BadMagic => {
            reveal_strlit("snapshot: bad magic header");
        },
        SnapshotErrorSpec::UnsupportedVersion(v) => {
            lemma_at_the_end("snapshot: unsupported version "@, int_text(v as int));
        },
        SnapshotErrorSpec::Truncated(f) => {
            lemma_at_the_end("snapshot: truncated while reading "@, f);
        },
        SnapshotErrorSpec::FieldTooLarge(f, n) => {
            let k = int_text(n as int);
            lemma_inside(a, f, " too large ("@ + k + ")"@);
            assert(text =~= a + f + (" too large ("@ + k + ")"@));
            lemma_inside(a + f + " too large ("@, k, ")"@);
        },
        SnapshotErrorSpec::InvalidUtf8(f) => {
            lemma_inside(a, f, " is not valid UTF-8"@);
        },
        SnapshotErrorSpec::InvalidField(f, v) => {
            lemma_inside(a, f, " invalid: "@ + v);
            assert(text =~= a + f + (" invalid: "@ + v));
            lemma_at_the_end(a + f + " invalid: "@, v);
        },
    }
}

/// The message on a value that is refused holds the value.
pub proof fn law_value_message(e: ModelError)
    ensures
        match e {
            ModelError::InvalidMetricName(s) => holds(e.text(), debug_text(s@)),
            ModelError::InvalidLabelName(s) => holds(e.text(), debug_text(s@)),
            ModelError::InvalidMetricKind(s) => holds(e.text(), debug_text(s@)),
            ModelError::DuplicateLabel(s) => holds(e.text(), debug_text(s@)),
            ModelError::TimestampOutOfRange(ms) => holds(e.text(), int_text(ms as int)),
        },
{
    match e {
        ModelError::InvalidMetricName(s) => {
            lemma_at_the_end("MetricName: invalid name "@, debug_text(s@));
        },
        ModelError::InvalidLabelName(s) => {
            lemma_at_the_end("LabelName: invalid name "@, debug_text(s@));
        },
        ModelError::InvalidMetricKind(s) => {
            lemma_at_the_end("MetricKind: unknown kind "@, debug_text(s@));
        },
        ModelError::DuplicateLabel(s) => {
            lemma_at_the_end("Labels: duplicate label name "@, debug_text(s@));
        },
        ModelError::TimestampOutOfRange(ms) => {
            lemma_inside("TimestampMs: value "@, int_text(ms as int), " out of range"@);
        },
    }
}

/// The snapshot lies in the data directory, under one and the same name, with
/// one slash between directory and name.
pub proof fn law_snapshot_place(dir: Seq<char>)
    ensures
        snapshot_file(seq![]) == "snapshot.rmx"@,
        snapshot_file(dir.push('/')) == dir + "/snapshot.rmx"@,
        dir.len() > 0 && dir.last() != '/' ==> snapshot_file(dir) == snapshot_file(dir.push('/')),
{
    reveal_strlit("/snapshot.rmx");
    reveal_strlit("snapshot.rmx");
    assert(snapshot_file(seq![]) =~= "snapshot.rmx"@);
    assert(snapshot_file(dir.push('/')) =~= dir + "/snapshot.rmx"@);
}

} // verus!
