//! Prometheus text exposition format: boundary parser and encoder.

use vstd::prelude::*;
use vstd::slice::slice_subrange;

use crate::binary64::{INFINITY, SIGN};
use crate::decimal::{number_bits, number_text, push_number, read_number};
use crate::model::{
    default_meta, is_label_name, is_metric_name, kind_of, kind_text, labels_of, least_duplicate,
    lemma_labels_of, lemma_least_duplicate, names_distinct, pair_views, Key, LabelName, LabelPairs,
    LabelValue, Labels, MetaSpec, MetricKind, MetricMeta, MetricName, ModelError, ScrapedSample,
    ScrapedSpec, SeriesKey, TimestampMs, MAX_TIMESTAMP_MS,
};
use crate::numeral::{int_text, push_signed, push_unsigned, read_signed, signed_value};
use crate::order::text_order;
use crate::sorted::{is_sorted, keys_of, map_of, SortedMap};
use crate::text::{
    debug_string, debug_text, find_char, find_white, from_chars, index_of, index_of_white,
    index_where, is_empty, is_white, lemma_index_where, lemma_index_where_is, next_word, skip_white,
    starts_with, strip_prefix, to_chars, trim, trim_chars, trim_start, white, words,
};

verus! {

/// What is wrong with a line.
pub enum ErrorKindSpec {
    InvalidMetricName(Seq<char>),
    InvalidLabelName(Seq<char>),
    DuplicateLabel(Seq<char>),
    UnterminatedLabels,
    BadEscape(char),
    MissingValue,
    InvalidValue(Seq<char>),
    InvalidTimestamp(Seq<char>),
    InvalidType(Seq<char>),
    Malformed(Seq<char>),
}

/// Which line is wrong, counted from one, and what is wrong with it.
pub struct ErrorSpec {
    pub line: nat,
    pub kind: ErrorKindSpec,
}

/// The samples of a payload in their order, and its metadata by name.
pub struct Exposition {
    pub samples: Seq<ScrapedSpec>,
    pub metas: Map<Seq<char>, MetaSpec>,
}

pub open spec fn empty_exposition() -> Exposition {
    Exposition { samples: Seq::empty(), metas: Map::empty() }
}

/// A help text with its escapes replaced.
pub open spec fn unescape(s: Seq<char>) -> Seq<char>
    decreases s.len(),
{
    if s.len() == 0 {
        seq![]
    } else if s[0] != '\\' {
        seq![s[0]] + unescape(s.skip(1))
    } else if s.len() == 1 {
        seq!['\\']
    } else if s[1] == 'n' {
        seq!['\n'] + unescape(s.skip(2))
    } else if s[1] == '\\' {
        seq!['\\'] + unescape(s.skip(2))
    } else {
        seq!['\\', s[1]] + unescape(s.skip(2))
    }
}

/// The metadata known for a name, or the default.
pub open spec fn meta_or_default(
    metas: Map<Seq<char>, MetaSpec>,
    name: Seq<char>,
) -> MetaSpec {
    if metas.dom().contains(name) {
        metas[name]
    } else {
        default_meta()
    }
}

/// What a comment, without its `#`, makes of the metadata.
pub open spec fn comment_metas(
    s: Seq<char>,
    metas: Map<Seq<char>, MetaSpec>,
) -> Result<Map<Seq<char>, MetaSpec>, ErrorKindSpec> {
    if starts_with(s, "HELP "@) || starts_with(s, "HELP\t"@) {
        let rest = trim_start(s.skip(5));
        let i = index_of_white(rest);
        let name = rest.take(i);
        let help = if i < rest.len() {
            trim(rest.skip(i + 1))
        } else {
            seq![]
        };
        if is_metric_name(name) {
            let old = meta_or_default(metas, name);
            Ok(metas.insert(name, MetaSpec { kind: old.kind, help: unescape(help) }))
        } else {
            Err(ErrorKindSpec::InvalidMetricName(name))
        }
    } else if starts_with(s, "TYPE "@) || starts_with(s, "TYPE\t"@) {
        let ws = words(s.skip(5));
        let name = if ws.len() > 0 {
            ws[0]
        } else {
            seq![]
        };
        let kind = if ws.len() > 1 {
            ws[1]
        } else {
            seq![]
        };
        if !is_metric_name(name) {
            Err(ErrorKindSpec::InvalidMetricName(name))
        } else {
            match kind_of(kind) {
                Some(k) => {
                    let old = meta_or_default(metas, name);
                    Ok(metas.insert(name, MetaSpec { kind: k, help: old.help }))
                },
                None => Err(ErrorKindSpec::InvalidType(kind)),
            }
        }
    } else {
        Ok(metas)
    }
}

/// A quoted text after its opening quote: what it denotes, behind `seen`, and
/// what follows the closing quote.
pub open spec fn quoted(s: Seq<char>, seen: Seq<char>) -> Result<
    (Seq<char>, Seq<char>),
    ErrorKindSpec,
>
    decreases s.len(),
{
    if s.len() == 0 {
        Err(ErrorKindSpec::UnterminatedLabels)
    } else if s[0] == '"' {
        Ok((seen, s.skip(1)))
    } else if s[0] != '\\' {
        quoted(s.skip(1), seen.push(s[0]))
    } else if s.len() == 1 {
        Err(ErrorKindSpec::UnterminatedLabels)
    } else if s[1] == 'n' {
        quoted(s.skip(2), seen.push('\n'))
    } else if s[1] == '\\' || s[1] == '"' {
        quoted(s.skip(2), seen.push(s[1]))
    } else {
        Err(ErrorKindSpec::BadEscape(s[1]))
    }
}

/// The text from its first character on that is no blank and no comma.
pub open spec fn skip_separators(s: Seq<char>) -> Seq<char>
    decreases s.len(),
{
    if s.len() > 0 && (s[0] == ' ' || s[0] == ',') {
        skip_separators(s.skip(1))
    } else {
        s
    }
}

/// The text from its first character on that is no blank.
pub open spec fn skip_blanks(s: Seq<char>) -> Seq<char>
    decreases s.len(),
{
    if s.len() > 0 && s[0] == ' ' {
        skip_blanks(s.skip(1))
    } else {
        s
    }
}

/// The label pairs after an opening brace, behind `seen`, and what follows the
/// closing brace.
pub open spec fn label_pairs(s: Seq<char>, seen: LabelPairs) -> Result<
    (LabelPairs, Seq<char>),
    ErrorKindSpec,
>
    decreases s.len(),
    via label_pairs_shrinks
{
    let t = skip_separators(s);
    let e = index_of(t, '=');
    let name = trim(t.take(e));
    let u = skip_blanks(t.skip(e + 1));
    if t.len() == 0 {
        Err(ErrorKindSpec::UnterminatedLabels)
    } else if t[0] == '}' {
        Ok((seen, t.skip(1)))
    } else if e >= t.len() {
        Err(ErrorKindSpec::UnterminatedLabels)
    } else if !is_label_name(name) {
        Err(ErrorKindSpec::InvalidLabelName(name))
    } else if u.len() == 0 || u[0] != '"' {
        Err(ErrorKindSpec::UnterminatedLabels)
    } else {
        match quoted(u.skip(1), seq![]) {
            Ok((value, rest)) => label_pairs(rest, seen.push((name, value))),
            Err(k) => Err(k),
        }
    }
}

#[via_fn]
proof fn label_pairs_shrinks(s: Seq<char>, seen: LabelPairs) {
    let t = skip_separators(s);
    let e = index_of(t, '=');
    let u = skip_blanks(t.skip(e + 1));
    lemma_skip_separators(s);
    if 0 < t.len() && e < t.len() {
        lemma_index_where(t, crate::text::is_char('='));
        lemma_skip_blanks(t.skip(e + 1));
        if u.len() > 0 {
            lemma_quoted_shrinks(u.skip(1), seq![]);
        }
    }
}

proof fn lemma_skip_separators(s: Seq<char>)
    ensures
        skip_separators(s).len() <= s.len(),
    decreases s.len(),
{
    if s.len() > 0 && (s[0] == ' ' || s[0] == ',') {
        lemma_skip_separators(s.skip(1));
    }
}

proof fn lemma_skip_blanks(s: Seq<char>)
    ensures
        skip_blanks(s).len() <= s.len(),
    decreases s.len(),
{
    if s.len() > 0 && s[0] == ' ' {
        lemma_skip_blanks(s.skip(1));
    }
}

proof fn lemma_quoted_shrinks(s: Seq<char>, seen: Seq<char>)
    ensures
        quoted(s, seen) matches Ok((v, rest)) ==> rest.len() < s.len(),
    decreases s.len(),
{
    if s.len() == 0 || s[0] == '"' {
    } else if s[0] != '\\' {
        lemma_quoted_shrinks(s.skip(1), seen.push(s[0]));
    } else if s.len() == 1 {
    } else if s[1] == 'n' {
        lemma_quoted_shrinks(s.skip(2), seen.push('\n'));
    } else if s[1] == '\\' || s[1] == '"' {
        lemma_quoted_shrinks(s.skip(2), seen.push(s[1]));
    }
}

pub open spec fn ends_name() -> spec_fn(char) -> bool {
    |c: char| c == '{' || is_white(c)
}

/// The label set at the front of a text, and what follows it.
pub open spec fn label_set(s: Seq<char>) -> Result<(LabelPairs, Seq<char>), ErrorKindSpec> {
    if s.len() > 0 && s[0] == '{' {
        match label_pairs(s.skip(1), seq![]) {
            Ok((pairs, rest)) => if names_distinct(pairs) {
                Ok((labels_of(pairs), rest))
            } else {
                Err(ErrorKindSpec::DuplicateLabel(least_duplicate(pairs)))
            },
            Err(k) => Err(k),
        }
    } else {
        Ok((seq![], s))
    }
}

/// The timestamp that a word denotes.
pub open spec fn timestamp_value(s: Seq<char>) -> Option<int> {
    match signed_value(s) {
        Some(ms) => if 0 <= ms <= MAX_TIMESTAMP_MS {
            Some(ms)
        } else {
            None
        },
        None => None,
    }
}

/// The sample that a line denotes.
pub open spec fn sample_of(line: Seq<char>) -> Result<ScrapedSpec, ErrorKindSpec> {
    let end = index_where(line, ends_name());
    let name = line.take(end);
    if !is_metric_name(name) {
        Err(ErrorKindSpec::InvalidMetricName(name))
    } else {
        match label_set(line.skip(end)) {
            Err(k) => Err(k),
            Ok((labels, rest)) => {
                let ws = words(rest);
                if ws.len() == 0 {
                    Err(ErrorKindSpec::MissingValue)
                } else {
                    match number_bits(ws[0]) {
                        None => Err(ErrorKindSpec::InvalidValue(ws[0])),
                        Some(value) => if ws.len() == 1 {
                            Ok(ScrapedSpec { key: (name, labels), value, ts: None })
                        } else {
                            match timestamp_value(ws[1]) {
                                None => Err(ErrorKindSpec::InvalidTimestamp(ws[1])),
                                Some(ms) => if ws.len() > 2 {
                                    Err(
                                        ErrorKindSpec::Malformed(
                                            "trailing tokens after timestamp"@,
                                        ),
                                    )
                                } else {
                                    Ok(ScrapedSpec { key: (name, labels), value, ts: Some(ms) })
                                },
                            }
                        },
                    }
                }
            },
        }
    }
}

/// What a line, without white space around it, adds to what was read before.
pub open spec fn line_step(line: Seq<char>, read: Exposition) -> Result<
    Exposition,
    ErrorKindSpec,
> {
    if line.len() == 0 {
        Ok(read)
    } else if line[0] == '#' {
        match comment_metas(trim_start(line.skip(1)), read.metas) {
            Ok(metas) => Ok(Exposition { samples: read.samples, metas }),
            Err(k) => Err(k),
        }
    } else {
        match sample_of(line) {
            Ok(s) => Ok(Exposition { samples: read.samples.push(s), metas: read.metas }),
            Err(k) => Err(k),
        }
    }
}

/// The lines of a text after `before` earlier ones, added to what was read
/// before.
pub open spec fn read_lines(s: Seq<char>, before: nat, read: Exposition) -> Result<
    Exposition,
    ErrorSpec,
>
    decreases s.len(),
{
    let i = index_of(s, '\n');
    match line_step(trim(s.take(i)), read) {
        Err(kind) => Err(ErrorSpec { line: before + 1, kind }),
        Ok(next) => if 0 <= i < s.len() {
            read_lines(s.skip(i + 1), before + 1, next)
        } else {
            Ok(next)
        },
    }
}

/// What a payload denotes.
pub open spec fn exposition_of(s: Seq<char>) -> Result<Exposition, ErrorSpec> {
    read_lines(s, 0, empty_exposition())
}

#[derive(Debug, PartialEq)]
pub enum TextParseErrorKind {
    InvalidMetricName(String),
    InvalidLabelName(String),
    DuplicateLabel(String),
    UnterminatedLabels,
    BadEscape(char),
    MissingValue,
    InvalidValue(String),
    InvalidTimestamp(String),
    InvalidType(String),
    Malformed(String),
}

impl View for TextParseErrorKind {
    type V = ErrorKindSpec;

    open spec fn view(&self) -> ErrorKindSpec {
        match self {
            TextParseErrorKind::InvalidMetricName(s) => ErrorKindSpec::InvalidMetricName(s@),
            TextParseErrorKind::InvalidLabelName(s) => ErrorKindSpec::InvalidLabelName(s@),
            TextParseErrorKind::DuplicateLabel(s) => ErrorKindSpec::DuplicateLabel(s@),
            TextParseErrorKind::UnterminatedLabels => ErrorKindSpec::UnterminatedLabels,
            TextParseErrorKind::BadEscape(c) => ErrorKindSpec::BadEscape(*c),
            TextParseErrorKind::MissingValue => ErrorKindSpec::MissingValue,
            TextParseErrorKind::InvalidValue(s) => ErrorKindSpec::InvalidValue(s@),
            TextParseErrorKind::InvalidTimestamp(s) => ErrorKindSpec::InvalidTimestamp(s@),
            TextParseErrorKind::InvalidType(s) => ErrorKindSpec::InvalidType(s@),
            TextParseErrorKind::Malformed(s) => ErrorKindSpec::Malformed(s@),
        }
    }
}

impl Clone for TextParseErrorKind {
    fn clone(&self) -> (r: Self)
        ensures
            r@ == self@,
    {
        match self {
            TextParseErrorKind::InvalidMetricName(s) => TextParseErrorKind::InvalidMetricName(
                s.clone(),
            ),
            TextParseErrorKind::InvalidLabelName(s) => TextParseErrorKind::InvalidLabelName(
                s.clone(),
            ),
            TextParseErrorKind::DuplicateLabel(s) => TextParseErrorKind::DuplicateLabel(s.clone()),
            TextParseErrorKind::UnterminatedLabels => TextParseErrorKind::UnterminatedLabels,
            TextParseErrorKind::BadEscape(c) => TextParseErrorKind::BadEscape(*c),
            TextParseErrorKind::MissingValue => TextParseErrorKind::MissingValue,
            TextParseErrorKind::InvalidValue(s) => TextParseErrorKind::InvalidValue(s.clone()),
            TextParseErrorKind::InvalidTimestamp(s) => TextParseErrorKind::InvalidTimestamp(
                s.clone(),
            ),
            TextParseErrorKind::InvalidType(s) => TextParseErrorKind::InvalidType(s.clone()),
            TextParseErrorKind::Malformed(s) => TextParseErrorKind::Malformed(s.clone()),
        }
    }
}

#[derive(Debug, PartialEq)]
pub struct TextParseError {
    pub line: usize,
    pub kind: TextParseErrorKind,
}

impl View for TextParseError {
    type V = ErrorSpec;

    open spec fn view(&self) -> ErrorSpec {
        ErrorSpec { line: self.line as nat, kind: self.kind@ }
    }
}

impl Clone for TextParseError {
    fn clone(&self) -> (r: Self)
        ensures
            r@ == self@,
    {
        TextParseError { line: self.line, kind: self.kind.clone() }
    }
}

/// The text of an error.
pub open spec fn error_text(e: ErrorSpec) -> Seq<char> {
    "text format line "@ + int_text(e.line as int) + ": "@ + match e.kind {
        ErrorKindSpec::InvalidMetricName(s) => "invalid metric name "@ + debug_text(s),
        ErrorKindSpec::InvalidLabelName(s) => "invalid label name "@ + debug_text(s),
        ErrorKindSpec::DuplicateLabel(s) => "duplicate label "@ + debug_text(s),
        ErrorKindSpec::UnterminatedLabels => "unterminated label set"@,
        ErrorKindSpec::BadEscape(c) => "bad escape sequence \\"@.push(c),
        ErrorKindSpec::MissingValue => "missing sample value"@,
        ErrorKindSpec::InvalidValue(s) => "invalid sample value "@ + debug_text(s),
        ErrorKindSpec::InvalidTimestamp(s) => "invalid timestamp "@ + debug_text(s),
        ErrorKindSpec::InvalidType(s) => "invalid TYPE "@ + debug_text(s),
        ErrorKindSpec::Malformed(s) => "malformed line: "@ + s,
    }
}

impl TextParseError {
    pub fn message(&self) -> (r: String)
        ensures
            r@ == error_text(self@),
    {
        let mut out = String::new();
        out.append("text format line ");
        push_unsigned(&mut out, self.line as u64);
        out.append(": ");
        match &self.kind {
            TextParseErrorKind::InvalidMetricName(s) => {
                out.append("invalid metric name ");
                out.append(debug_string(s.as_str()).as_str());
            },
            TextParseErrorKind::InvalidLabelName(s) => {
                out.append("invalid label name ");
                out.append(debug_string(s.as_str()).as_str());
            },
            TextParseErrorKind::DuplicateLabel(s) => {
                out.append("duplicate label ");
                out.append(debug_string(s.as_str()).as_str());
            },
            TextParseErrorKind::UnterminatedLabels => {
                out.append("unterminated label set");
            },
            TextParseErrorKind::BadEscape(c) => {
                out.append("bad escape sequence \\");
                out.push(*c);
            },
            TextParseErrorKind::MissingValue => {
                out.append("missing sample value");
            },
            TextParseErrorKind::InvalidValue(s) => {
                out.append("invalid sample value ");
                out.append(debug_string(s.as_str()).as_str());
            },
            TextParseErrorKind::InvalidTimestamp(s) => {
                out.append("invalid timestamp ");
                out.append(debug_string(s.as_str()).as_str());
            },
            TextParseErrorKind::InvalidType(s) => {
                out.append("invalid TYPE ");
                out.append(debug_string(s.as_str()).as_str());
            },
            TextParseErrorKind::Malformed(s) => {
                out.append("malformed line: ");
                out.append(s.as_str());
            },
        }
        assert(out@ =~= error_text(self@));
        out
    }
}

pub open spec fn sample_views(s: Seq<ScrapedSample>) -> Seq<ScrapedSpec> {
    s.map_values(|e: ScrapedSample| e@)
}

pub open spec fn meta_views(s: Seq<(MetricName, MetricMeta)>) -> Seq<(Seq<char>, MetaSpec)> {
    s.map_values(|e: (MetricName, MetricMeta)| (e.0@, e.1@))
}

#[derive(Debug, PartialEq)]
pub struct ParsedExposition {
    pub samples: Vec<ScrapedSample>,
    pub metas: Vec<(MetricName, MetricMeta)>,
}

impl ParsedExposition {
    /// The samples are those of `x`, and the metadata are listed by name.
    pub open spec fn shows(&self, x: Exposition) -> bool {
        &&& sample_views(self.samples@) == x.samples
        &&& is_sorted(keys_of(meta_views(self.metas@)), text_order())
        &&& map_of(meta_views(self.metas@)) == x.metas
    }
}

impl Default for ParsedExposition {
    fn default() -> (r: Self)
        ensures
            r.shows(empty_exposition()),
    {
        let r = ParsedExposition { samples: Vec::new(), metas: Vec::new() };
        assert(sample_views(r.samples@) =~= seq![]);
        assert(map_of(meta_views(r.metas@)) =~= Map::empty());
        r
    }
}

fn unescape_help(s: &[char]) -> (r: String)
    ensures
        r@ == unescape(s@),
{
    let mut out = String::new();
    let mut i: usize = 0;
    assert(s@.skip(0) =~= s@);
    while i < s.len()
        invariant
            i <= s@.len(),
            out@ + unescape(s@.skip(i as int)) == unescape(s@),
        decreases s@.len() - i,
    {
        let ghost t = s@.skip(i as int);
        let ghost before = out@;
        if s[i] != '\\' {
            out.push(s[i]);
            assert(t.skip(1) =~= s@.skip(i + 1));
            assert(before + (seq![t[0]] + unescape(t.skip(1))) =~= out@ + unescape(t.skip(1)));
            i += 1;
        } else if i + 1 == s.len() {
            out.push('\\');
            assert(before + seq!['\\'] =~= out@);
            i += 1;
            assert(out@ + unescape(s@.skip(i as int)) =~= out@);
        } else {
            assert(t.skip(2) =~= s@.skip(i + 2));
            if s[i + 1] == 'n' {
                out.push('\n');
                assert(before + (seq!['\n'] + unescape(t.skip(2))) =~= out@ + unescape(t.skip(2)));
            } else if s[i + 1] == '\\' {
                out.push('\\');
                assert(before + (seq!['\\'] + unescape(t.skip(2))) =~= out@ + unescape(t.skip(2)));
            } else {
                out.push('\\');
                out.push(s[i + 1]);
                assert(before + (seq!['\\', t[1]] + unescape(t.skip(2))) =~= out@ + unescape(
                    t.skip(2),
                ));
            }
            i += 2;
        }
    }
    assert(unescape(s@.skip(i as int)) =~= seq![]);
    assert(out@ + seq![] =~= out@);
    out
}

/// The metadata of the name in the map, or the default.
fn meta_of(metas: &SortedMap<MetricName, MetricMeta>, name: &MetricName) -> (r: MetricMeta)
    ensures
        r@ == meta_or_default(metas@, name@),
{
    match metas.get(name) {
        Some(m) => m.clone(),
        None => MetricMeta::default(),
    }
}

fn parse_comment(s: &[char], metas: &mut SortedMap<MetricName, MetricMeta>) -> (r: Result<
    (),
    TextParseErrorKind,
>)
    ensures
        match comment_metas(s@, old(metas)@) {
            Ok(m) => r is Ok && final(metas)@ == m,
            Err(k) => r matches Err(e) && e@ == k,
        },
{
    proof {
        reveal_strlit("HELP ");
        reveal_strlit("HELP\t");
        reveal_strlit("TYPE ");
        reveal_strlit("TYPE\t");
    }
    let help_body = match strip_prefix(s, "HELP ") {
        Some(t) => Some(t),
        None => strip_prefix(s, "HELP\t"),
    };
    if let Some(body) = help_body {
        let rest = skip_white(body);
        let i = find_white(rest);
        let name_part = slice_subrange(rest, 0, i);
        assert(name_part@ == rest@.take(i as int));
        let empty: [char; 0] = [];
        let help_part: &[char] = if i < rest.len() {
            let tail = slice_subrange(rest, i + 1, rest.len());
            assert(tail@ == rest@.skip(i + 1));
            trim_chars(tail)
        } else {
            assert(empty@ =~= seq![]);
            &empty
        };
        let name_text = from_chars(name_part);
        match MetricName::parse(name_text.as_str()) {
            Ok(name) => {
                let mut meta = meta_of(metas, &name);
                meta.help = unescape_help(help_part);
                metas.insert(name, meta);
                Ok(())
            },
            Err(_) => Err(TextParseErrorKind::InvalidMetricName(name_text)),
        }
    } else {
        let type_body = match strip_prefix(s, "TYPE ") {
            Some(t) => Some(t),
            None => strip_prefix(s, "TYPE\t"),
        };
        if let Some(body) = type_body {
            let empty: [char; 0] = [];
            let mut name_part: &[char] = &empty;
            let mut kind_part: &[char] = &empty;
            assert(empty@ =~= seq![]);
            if let Some((first, rest)) = next_word(body) {
                name_part = first;
                assert(words(body@)[0] == first@);
                assert(words(body@).skip(1) =~= words(rest@));
                if let Some((second, _)) = next_word(rest) {
                    kind_part = second;
                    assert(words(rest@)[0] == second@);
                    assert(words(body@)[1] == second@);
                }
            }
            let name_text = from_chars(name_part);
            let kind_text = from_chars(kind_part);
            match MetricName::parse(name_text.as_str()) {
                Ok(name) => match MetricKind::parse(kind_text.as_str()) {
                    Ok(kind) => {
                        let mut meta = meta_of(metas, &name);
                        meta.kind = kind;
                        metas.insert(name, meta);
                        Ok(())
                    },
                    Err(_) => Err(TextParseErrorKind::InvalidType(kind_text)),
                },
                Err(_) => Err(TextParseErrorKind::InvalidMetricName(name_text)),
            }
        } else {
            Ok(())
        }
    }
}

/// Reads a quoted text after its opening quote, and gives what follows the
/// closing quote.
fn parse_quoted<'a>(s: &'a [char]) -> (r: Result<(String, &'a [char]), TextParseErrorKind>)
    ensures
        match quoted(s@, seq![]) {
            Ok((v, rest)) => r matches Ok((value, tail)) && value@ == v && tail@ == rest
                && tail@.len() < s@.len(),
            Err(k) => r matches Err(e) && e@ == k,
        },
{
    let mut value = String::new();
    let mut i: usize = 0;
    assert(s@.skip(0) =~= s@);
    while i < s.len()
        invariant
            i <= s@.len(),
            quoted(s@, seq![]) == quoted(s@.skip(i as int), value@),
        decreases s@.len() - i,
    {
        let ghost t = s@.skip(i as int);
        let c = s[i];
        assert(t.skip(1) =~= s@.skip(i + 1));
        if c == '"' {
            assert(s@.subrange(i + 1, s@.len() as int) =~= s@.skip(i + 1));
            return Ok((value, slice_subrange(s, i + 1, s.len())));
        }
        if c != '\\' {
            value.push(c);
            i += 1;
        } else {
            if i + 1 == s.len() {
                return Err(TextParseErrorKind::UnterminatedLabels);
            }
            assert(t.skip(2) =~= s@.skip(i + 2));
            let escaped = s[i + 1];
            if escaped == 'n' {
                value.push('\n');
            } else if escaped == '\\' || escaped == '"' {
                value.push(escaped);
            } else {
                return Err(TextParseErrorKind::BadEscape(escaped));
            }
            i += 2;
        }
    }
    Err(TextParseErrorKind::UnterminatedLabels)
}

fn skip_separator_chars(s: &[char]) -> (r: &[char])
    ensures
        r@ == skip_separators(s@),
        r@.len() <= s@.len(),
{
    let mut i: usize = 0;
    assert(s@.skip(0) =~= s@);
    while i < s.len() && (s[i] == ' ' || s[i] == ',')
        invariant
            i <= s@.len(),
            skip_separators(s@.skip(i as int)) == skip_separators(s@),
        decreases s@.len() - i,
    {
        assert(s@.skip(i as int).skip(1) =~= s@.skip(i + 1));
        i += 1;
    }
    assert(s@.skip(i as int) =~= s@.subrange(i as int, s@.len() as int));
    slice_subrange(s, i, s.len())
}

fn skip_blank_chars(s: &[char]) -> (r: &[char])
    ensures
        r@ == skip_blanks(s@),
        r@.len() <= s@.len(),
{
    let mut i: usize = 0;
    assert(s@.skip(0) =~= s@);
    while i < s.len() && s[i] == ' '
        invariant
            i <= s@.len(),
            skip_blanks(s@.skip(i as int)) == skip_blanks(s@),
        decreases s@.len() - i,
    {
        assert(s@.skip(i as int).skip(1) =~= s@.skip(i + 1));
        i += 1;
    }
    assert(s@.skip(i as int) =~= s@.subrange(i as int, s@.len() as int));
    slice_subrange(s, i, s.len())
}

/// Reads the label pairs after an opening brace, and gives what follows the
/// closing brace.
fn parse_labels<'a>(s: &'a [char]) -> (r: Result<(Labels, &'a [char]), TextParseErrorKind>)
    ensures
        match label_pairs(s@, seq![]) {
            Ok((pairs, rest)) => if names_distinct(pairs) {
                r matches Ok((l, tail)) && l@ == labels_of(pairs) && tail@ == rest
            } else {
                r matches Err(e) && e@ == ErrorKindSpec::DuplicateLabel(least_duplicate(pairs))
            },
            Err(k) => r matches Err(e) && e@ == k,
        },
{
    let mut pairs: Vec<(LabelName, LabelValue)> = Vec::new();
    let mut at: &[char] = s;
    assert(pair_views(pairs@) =~= seq![]);
    loop
        invariant
            label_pairs(s@, seq![]) == label_pairs(at@, pair_views(pairs@)),
        decreases at@.len(),
    {
        let ghost seen = pair_views(pairs@);
        let t = skip_separator_chars(at);
        if t.len() == 0 {
            return Err(TextParseErrorKind::UnterminatedLabels);
        }
        if t[0] == '}' {
            assert(t@.subrange(1, t@.len() as int) =~= t@.skip(1));
            let tail = slice_subrange(t, 1, t.len());
            return match Labels::new(pairs) {
                Ok(labels) => {
                    proof {
                        lemma_labels_of(labels@, seen);
                    }
                    Ok((labels, tail))
                },
                Err(e) => match e {
                    ModelError::DuplicateLabel(n) => {
                        proof {
                            lemma_least_duplicate(seen, n@);
                        }
                        Err(TextParseErrorKind::DuplicateLabel(n))
                    },
                    other => Err(TextParseErrorKind::Malformed(other.message())),
                },
            };
        }
        let e = find_char(t, '=');
        if e >= t.len() {
            return Err(TextParseErrorKind::UnterminatedLabels);
        }
        let before = slice_subrange(t, 0, e);
        let after = slice_subrange(t, e + 1, t.len());
        assert(before@ == t@.take(e as int));
        assert(after@ == t@.skip(e + 1));
        let name_text = from_chars(trim_chars(before));
        let name = match LabelName::parse(name_text.as_str()) {
            Ok(name) => name,
            Err(_) => {
                return Err(TextParseErrorKind::InvalidLabelName(name_text));
            },
        };
        let u = skip_blank_chars(after);
        if u.len() == 0 || u[0] != '"' {
            return Err(TextParseErrorKind::UnterminatedLabels);
        }
        let body = slice_subrange(u, 1, u.len());
        assert(body@ == u@.skip(1));
        match parse_quoted(body) {
            Ok((value, rest)) => {
                pairs.push((name, LabelValue::new(value.as_str())));
                at = rest;
                assert(pair_views(pairs@) =~= seen.push((name@, value@)));
            },
            Err(k) => {
                return Err(k);
            },
        }
    }
}

fn find_name_end(s: &[char]) -> (r: usize)
    ensures
        r == index_where(s@, ends_name()),
        r <= s@.len(),
{
    let mut i: usize = 0;
    while i < s.len() && s[i] != '{' && !white(s[i])
        invariant
            i <= s@.len(),
            forall|j: int| 0 <= j < i ==> s@[j] != '{' && !is_white(s@[j]),
        decreases s@.len() - i,
    {
        i += 1;
    }
    proof {
        lemma_index_where_is(s@, ends_name(), i as int);
    }
    i
}

/// Reads a timestamp.
pub(crate) fn parse_timestamp(s: &[char]) -> (r: Option<TimestampMs>)
    ensures
        match timestamp_value(s@) {
            Some(ms) => r matches Some(t) && t@ == ms,
            None => r is None,
        },
{
    match read_signed(s) {
        Some(ms) => match TimestampMs::new(ms) {
            Ok(t) => Some(t),
            Err(_) => None,
        },
        None => None,
    }
}

fn parse_sample_line(line: &[char]) -> (r: Result<ScrapedSample, TextParseErrorKind>)
    ensures
        match sample_of(line@) {
            Ok(s) => r matches Ok(sample) && sample@ == s,
            Err(k) => r matches Err(e) && e@ == k,
        },
{
    let end = find_name_end(line);
    let name_part = slice_subrange(line, 0, end);
    assert(name_part@ == line@.take(end as int));
    let name_text = from_chars(name_part);
    let name = match MetricName::parse(name_text.as_str()) {
        Ok(name) => name,
        Err(_) => {
            return Err(TextParseErrorKind::InvalidMetricName(name_text));
        },
    };
    let mut rest = slice_subrange(line, end, line.len());
    assert(rest@ == line@.skip(end as int));
    let mut labels = Labels::empty();
    if rest.len() > 0 && rest[0] == '{' {
        let body = slice_subrange(rest, 1, rest.len());
        assert(body@ == rest@.skip(1));
        match parse_labels(body) {
            Ok((found, tail)) => {
                labels = found;
                rest = tail;
            },
            Err(k) => {
                return Err(k);
            },
        }
    }
    assert(label_set(line@.skip(end as int)) matches Ok((l, tail)) && l == labels@ && tail == rest@);
    let (value_part, rest1) = match next_word(rest) {
        Some(p) => p,
        None => {
            return Err(TextParseErrorKind::MissingValue);
        },
    };
    assert(words(rest@)[0] == value_part@);
    assert(words(rest@).skip(1) =~= words(rest1@));
    let value: u64 = match read_number(value_part) {
        Some(v) => v,
        None => {
            return Err(TextParseErrorKind::InvalidValue(from_chars(value_part)));
        },
    };
    let (ts_part, rest2) = match next_word(rest1) {
        Some(p) => p,
        None => {
            return Ok(ScrapedSample { key: SeriesKey { name, labels }, value, ts: None });
        },
    };
    assert(words(rest1@)[0] == ts_part@);
    assert(words(rest@)[1] == ts_part@);
    assert(words(rest1@).skip(1) =~= words(rest2@));
    let ts = match parse_timestamp(ts_part) {
        Some(t) => t,
        None => {
            return Err(TextParseErrorKind::InvalidTimestamp(from_chars(ts_part)));
        },
    };
    if next_word(rest2).is_some() {
        return Err(TextParseErrorKind::Malformed("trailing tokens after timestamp".to_owned()));
    }
    Ok(ScrapedSample { key: SeriesKey { name, labels }, value, ts: Some(ts) })
}

/// Parse a full text-exposition payload (push body or scrape body).
pub fn parse(input: &str) -> (r: Result<ParsedExposition, TextParseError>)
    ensures
        match exposition_of(input@) {
            Ok(x) => r matches Ok(p) && p.shows(x),
            Err(x) => r matches Err(e) && e@ == x,
        },
{
    let chars = to_chars(input);
    let total = chars.len();
    let mut at: &[char] = chars.as_slice();
    let mut count: usize = 0;
    let mut samples: Vec<ScrapedSample> = Vec::new();
    let mut metas: SortedMap<MetricName, MetricMeta> = SortedMap::new();
    assert(sample_views(samples@) =~= seq![]);
    loop
        invariant
            count + at@.len() <= total,
            exposition_of(input@) == read_lines(
                at@,
                count as nat,
                Exposition { samples: sample_views(samples@), metas: metas@ },
            ),
        decreases at@.len(),
    {
        let ghost read = Exposition { samples: sample_views(samples@), metas: metas@ };
        let i = find_char(at, '\n');
        let piece = slice_subrange(at, 0, i);
        assert(piece@ == at@.take(i as int));
        let line = trim_chars(piece);
        if line.len() > 0 {
            if line[0] == '#' {
                let body = slice_subrange(line, 1, line.len());
                assert(body@ == line@.skip(1));
                match parse_comment(skip_white(body), &mut metas) {
                    Ok(()) => {},
                    Err(kind) => {
                        return Err(TextParseError { line: count + 1, kind });
                    },
                }
            } else {
                match parse_sample_line(line) {
                    Ok(sample) => {
                        samples.push(sample);
                        assert(sample_views(samples@) =~= read.samples.push(sample@));
                    },
                    Err(kind) => {
                        return Err(TextParseError { line: count + 1, kind });
                    },
                }
            }
        }
        if i == at.len() {
            let metas = metas.into_entries();
            return Ok(ParsedExposition { samples, metas });
        }
        assert(at@.subrange(i + 1, at@.len() as int) =~= at@.skip(i + 1));
        at = slice_subrange(at, i + 1, at.len());
        count += 1;
    }
}

/// A label value with backslashes, quotes and line feeds escaped.
pub open spec fn escape_value(s: Seq<char>) -> Seq<char>
    decreases s.len(),
{
    if s.len() == 0 {
        seq![]
    } else {
        (if s[0] == '\\' {
            seq!['\\', '\\']
        } else if s[0] == '"' {
            seq!['\\', '"']
        } else if s[0] == '\n' {
            seq!['\\', 'n']
        } else {
            seq![s[0]]
        }) + escape_value(s.skip(1))
    }
}

/// A help text with backslashes and line feeds escaped.
pub open spec fn escape_help(s: Seq<char>) -> Seq<char>
    decreases s.len(),
{
    if s.len() == 0 {
        seq![]
    } else {
        (if s[0] == '\\' {
            seq!['\\', '\\']
        } else if s[0] == '\n' {
            seq!['\\', 'n']
        } else {
            seq![s[0]]
        }) + escape_help(s.skip(1))
    }
}

/// Label pairs, each after a comma but for the first of all.
pub open spec fn pairs_text(l: LabelPairs, first: bool) -> Seq<char>
    decreases l.len(),
{
    if l.len() == 0 {
        seq![]
    } else {
        (if first {
            seq![]
        } else {
            seq![',']
        }) + l[0].0 + seq!['=', '"'] + escape_value(l[0].1) + seq!['"'] + pairs_text(
            l.skip(1),
            false,
        )
    }
}

/// A series as it stands at the front of a sample line.
pub open spec fn key_text(key: Key) -> Seq<char> {
    if key.1.len() == 0 {
        key.0
    } else {
        key.0 + seq!['{'] + pairs_text(key.1, true) + seq!['}']
    }
}

/// The text of a value.
pub open spec fn value_text(bits: u64) -> Seq<char> {
    if bits % SIGN > INFINITY {
        seq!['N', 'a', 'N']
    } else if bits == INFINITY {
        seq!['+', 'I', 'n', 'f']
    } else if bits == INFINITY + SIGN {
        seq!['-', 'I', 'n', 'f']
    } else {
        number_text(bits)
    }
}

/// A sample line without its line feed.
pub open spec fn sample_line(s: ScrapedSpec) -> Seq<char> {
    key_text(s.key) + seq![' '] + value_text(s.value) + match s.ts {
        Some(ms) => seq![' '] + int_text(ms),
        None => seq![],
    }
}

pub open spec fn help_line(name: Seq<char>, help: Seq<char>) -> Seq<char> {
    "# HELP "@ + name + seq![' '] + escape_help(help)
}

pub open spec fn type_line(name: Seq<char>, kind: MetricKind) -> Seq<char> {
    "# TYPE "@ + name + seq![' '] + kind_text(kind)
}

/// The metadata lines of a metric.
pub open spec fn meta_text(name: Seq<char>, meta: MetaSpec) -> Seq<char> {
    (if meta.help.len() == 0 {
        seq![]
    } else {
        help_line(name, meta.help).push('\n')
    }) + type_line(name, meta.kind).push('\n')
}

fn push_escaped(out: &mut String, s: &str, quotes: bool)
    ensures
        final(out)@ == old(out)@ + if quotes {
            escape_value(s@)
        } else {
            escape_help(s@)
        },
{
    let cs = to_chars(s);
    let ghost start = out@;
    let ghost whole = if quotes {
        escape_value(s@)
    } else {
        escape_help(s@)
    };
    let mut i: usize = 0;
    assert(s@.skip(0) =~= s@);
    while i < cs.len()
        invariant
            i <= cs@.len(),
            cs@ == s@,
            whole == if quotes {
                escape_value(s@)
            } else {
                escape_help(s@)
            },
            out@ + (if quotes {
                escape_value(s@.skip(i as int))
            } else {
                escape_help(s@.skip(i as int))
            }) == start + whole,
        decreases cs@.len() - i,
    {
        let ghost t = s@.skip(i as int);
        let ghost before = out@;
        assert(t.skip(1) =~= s@.skip(i + 1));
        let c = cs[i];
        if c == '\\' {
            out.push('\\');
            out.push('\\');
        } else if c == '"' && quotes {
            out.push('\\');
            out.push('"');
        } else if c == '\n' {
            out.push('\\');
            out.push('n');
        } else {
            out.push(c);
        }
        i += 1;
        assert(out@ + escape_value(t.skip(1)) =~= before + escape_value(t) || !quotes);
        assert(out@ + escape_help(t.skip(1)) =~= before + escape_help(t) || quotes);
    }
    assert(s@.skip(i as int) =~= seq![]);
    assert(out@ + seq![] =~= out@);
}

fn push_pairs(out: &mut String, labels: &Labels)
    ensures
        final(out)@ == old(out)@ + pairs_text(labels@, true),
{
    let ghost start = out@;
    let ghost l = labels@;
    let n = labels.len();
    let mut i: usize = 0;
    assert(l.skip(0) =~= l);
    while i < n
        invariant
            i <= n == l.len(),
            l == labels@,
            out@ + pairs_text(l.skip(i as int), i == 0) == start + pairs_text(l, true),
        decreases n - i,
    {
        let ghost t = l.skip(i as int);
        let ghost before = out@;
        assert(t.skip(1) =~= l.skip(i + 1));
        if i > 0 {
            out.push(',');
        }
        out.append(labels.name_at(i).as_str());
        out.push('=');
        out.push('"');
        push_escaped(out, labels.value_at(i).as_str(), true);
        out.push('"');
        assert(out@ + pairs_text(t.skip(1), false) =~= before + pairs_text(t, i == 0));
        i += 1;
    }
    assert(l.skip(i as int) =~= seq![]);
    assert(out@ + seq![] =~= out@);
}

fn push_value(out: &mut String, bits: u64)
    ensures
        final(out)@ == old(out)@ + value_text(bits),
{
    let ghost before = out@;
    if bits % SIGN > INFINITY {
        out.push('N');
        out.push('a');
        out.push('N');
        assert(out@ =~= before + seq!['N', 'a', 'N']);
    } else if bits == INFINITY || bits == INFINITY + SIGN {
        out.push(
            if bits == INFINITY {
                '+'
            } else {
                '-'
            },
        );
        out.push('I');
        out.push('n');
        out.push('f');
        assert(out@ =~= before + value_text(bits));
    } else {
        push_number(out, bits);
    }
}

/// Encode one sample line (used by /metrics self-exposition).
pub fn encode_sample(out: &mut String, key: &SeriesKey, value: u64, ts: Option<TimestampMs>)
    ensures
        final(out)@ == old(out)@ + sample_line(
            ScrapedSpec {
                key: key@,
                value,
                ts: match ts {
                    Some(t) => Some(t@),
                    None => None,
                },
            },
        ).push('\n'),
{
    let ghost before = out@;
    out.append(key.name.as_str());
    if !key.labels.is_empty() {
        out.push('{');
        push_pairs(out, &key.labels);
        out.push('}');
    }
    assert(out@ =~= before + key_text(key@));
    out.push(' ');
    push_value(out, value);
    let ghost stem = out@;
    match ts {
        Some(t) => {
            out.push(' ');
            push_signed(out, t.as_millis());
            assert(out@ =~= stem + (seq![' '] + int_text(t@)));
        },
        None => {},
    }
    out.push('\n');
    let ghost spec = ScrapedSpec {
        key: key@,
        value,
        ts: match ts {
            Some(t) => Some(t@),
            None => None,
        },
    };
    assert(out@ =~= before + sample_line(spec).push('\n'));
}

/// Encode the metadata lines of a metric.
pub fn encode_meta(out: &mut String, name: &MetricName, meta: &MetricMeta)
    ensures
        final(out)@ == old(out)@ + meta_text(name@, meta@),
{
    let ghost before = out@;
    if !is_empty(meta.help.as_str()) {
        out.append("# HELP ");
        out.append(name.as_str());
        out.push(' ');
        push_escaped(out, meta.help.as_str(), false);
        out.push('\n');
        assert(out@ =~= before + help_line(name@, meta.help@).push('\n'));
    }
    let ghost middle = out@;
    out.append("# TYPE ");
    out.append(name.as_str());
    out.push(' ');
    out.append(meta.kind.as_str());
    out.push('\n');
    assert(out@ =~= middle + type_line(name@, meta.kind).push('\n'));
    assert(out@ =~= before + meta_text(name@, meta@));
}

} // verus!
