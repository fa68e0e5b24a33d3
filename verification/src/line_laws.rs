//! Laws of the lines of a payload: which sample or metadata each form of line
//! stands for, whatever the white space in it.

use vstd::prelude::*;

use crate::decimal::number_bits;
use crate::model::{
    is_label_listing, is_label_name, is_metric_name, kind_of, lemma_labels_of,
    lemma_least_duplicate, occurs_twice, LabelPairs, MetaSpec, MetricKind, ScrapedSpec,
    MAX_TIMESTAMP_MS,
};
use crate::numeral::signed_value;
use crate::order::{text_before, text_order};
use crate::percent_laws::lemma_no_index;
use crate::sorted::keys_of;
use crate::text::{
    index_of, index_of_white, is_alpha, is_char, is_digit, is_white, lemma_index_where,
    lemma_index_where_is, starts_with, trim, trim_end, trim_start, words,
};
use crate::textfmt::{
    comment_metas, empty_exposition, ends_name, exposition_of, label_pairs, label_set, line_step,
    quoted, sample_of, skip_blanks, skip_separators, unescape, ErrorKindSpec, ErrorSpec, Exposition,
};
use crate::textfmt_laws::law_label_set_ends_with_the_brace;

verus! {

/// The text is white space only.
pub open spec fn is_gap(s: Seq<char>) -> bool {
    forall|i: int| 0 <= i < s.len() ==> is_white(#[trigger] s[i])
}

/// The text is not empty and holds no white space.
pub open spec fn is_word(s: Seq<char>) -> bool {
    s.len() > 0 && forall|i: int| 0 <= i < s.len() ==> !is_white(#[trigger] s[i])
}

/// The text neither begins nor ends with white space.
pub open spec fn is_trimmed(s: Seq<char>) -> bool {
    s.len() > 0 ==> !is_white(s[0]) && !is_white(s.last())
}

proof fn lemma_skip_gap(g: Seq<char>, s: Seq<char>)
    requires
        is_gap(g),
        s.len() > 0 ==> !is_white(s[0]),
    ensures
        trim_start(g + s) == s,
    decreases g.len(),
{
    if g.len() == 0 {
        assert(g + s =~= s);
    } else {
        let h = g.drop_first();
        assert((g + s)[0] == g[0]);
        assert((g + s).drop_first() =~= h + s);
        assert forall|i: int| 0 <= i < h.len() implies is_white(#[trigger] h[i]) by {
            assert(h[i] == g[i + 1]);
        }
        lemma_skip_gap(h, s);
    }
}

proof fn lemma_drop_gap(s: Seq<char>, g: Seq<char>)
    requires
        is_gap(g),
        s.len() > 0 ==> !is_white(s.last()),
    ensures
        trim_end(s + g) == s,
    decreases g.len(),
{
    if g.len() == 0 {
        assert(s + g =~= s);
    } else {
        let h = g.drop_last();
        assert((s + g).last() == g[g.len() - 1]);
        assert((s + g).drop_last() =~= s + h);
        assert forall|i: int| 0 <= i < h.len() implies is_white(#[trigger] h[i]) by {
            assert(h[i] == g[i]);
        }
        lemma_drop_gap(s, h);
    }
}

/// Trimming takes the white space around a text away.
pub proof fn lemma_trim_gaps(a: Seq<char>, s: Seq<char>, b: Seq<char>)
    requires
        is_gap(a),
        is_gap(b),
        is_trimmed(s),
    ensures
        trim(a + s + b) == s,
{
    if s.len() == 0 {
        assert(a + s + b =~= (a + b) + s);
        let c = a + b;
        assert forall|i: int| 0 <= i < c.len() implies is_white(#[trigger] c[i]) by {
            if i < a.len() {
                assert(c[i] == a[i]);
            } else {
                assert(c[i] == b[i - a.len()]);
            }
        }
        lemma_skip_gap(c, s);
    } else {
        assert(a + s + b =~= a + (s + b));
        assert((s + b)[0] == s[0]);
        lemma_skip_gap(a, s + b);
        lemma_drop_gap(s, b);
    }
}

/// The first word of a text.
proof fn lemma_first_word(g: Seq<char>, w: Seq<char>, tail: Seq<char>)
    requires
        is_gap(g),
        is_word(w),
        tail.len() > 0 ==> is_white(tail[0]),
    ensures
        words(g + w + tail) == seq![w] + words(tail),
        index_of_white(w + tail) == w.len(),
{
    let s = w + tail;
    let p = |x: char| is_white(x);
    assert(g + w + tail =~= g + s);
    assert(s[0] == w[0]);
    lemma_skip_gap(g, s);
    assert forall|j: int| 0 <= j < w.len() implies !p(#[trigger] s[j]) by {
        assert(s[j] == w[j]);
    }
    lemma_index_where_is(s, p, w.len() as int);
    assert(s.take(w.len() as int) =~= w);
    assert(s.skip(w.len() as int) =~= tail);
}

proof fn lemma_no_words(g: Seq<char>)
    requires
        is_gap(g),
    ensures
        words(g) == Seq::<Seq<char>>::empty(),
{
    lemma_skip_gap(g, seq![]);
    assert(g + seq![] =~= g);
}

/// The text is the label part of a sample line: nothing, or a label set in
/// braces to its end.
pub open spec fn is_label_part(s: Seq<char>, labels: LabelPairs) -> bool {
    if s.len() == 0 {
        labels.len() == 0
    } else {
        s[0] == '{' && label_set(s) == Ok::<(LabelPairs, Seq<char>), ErrorKindSpec>((labels, seq![]))
    }
}

/// What a sample line says, by the words behind its name and labels: the first
/// is the value, the second the timestamp in milliseconds, and there is no
/// third.
pub open spec fn says(
    name: Seq<char>,
    labels: LabelPairs,
    ws: Seq<Seq<char>>,
) -> Result<ScrapedSpec, ErrorKindSpec> {
    if ws.len() == 0 {
        Err(ErrorKindSpec::MissingValue)
    } else if number_bits(ws[0]) is None {
        Err(ErrorKindSpec::InvalidValue(ws[0]))
    } else if ws.len() == 1 {
        Ok(ScrapedSpec { key: (name, labels), value: number_bits(ws[0])->0, ts: None })
    } else if !(signed_value(ws[1]) matches Some(ms) && 0 <= ms <= MAX_TIMESTAMP_MS) {
        Err(ErrorKindSpec::InvalidTimestamp(ws[1]))
    } else if ws.len() > 2 {
        Err(ErrorKindSpec::Malformed("trailing tokens after timestamp"@))
    } else {
        Ok(ScrapedSpec { key: (name, labels), value: number_bits(ws[0])->0, ts: signed_value(ws[1]) })
    }
}

/// The words, each behind white space.
pub open spec fn spaced(gaps: Seq<Seq<char>>, ws: Seq<Seq<char>>) -> Seq<char>
    decreases ws.len(),
{
    if ws.len() == 0 {
        seq![]
    } else {
        gaps[0] + ws[0] + spaced(gaps.skip(1), ws.skip(1))
    }
}

/// There is a gap before each word, and all but the first are not empty.
pub open spec fn are_gaps(gaps: Seq<Seq<char>>, ws: Seq<Seq<char>>) -> bool {
    &&& gaps.len() == ws.len()
    &&& forall|i: int| 0 <= i < ws.len() ==> is_gap(#[trigger] gaps[i]) && is_word(ws[i])
    &&& forall|i: int| 1 <= i < ws.len() ==> (#[trigger] gaps[i]).len() > 0
}

proof fn lemma_spaced(gaps: Seq<Seq<char>>, ws: Seq<Seq<char>>)
    requires
        are_gaps(gaps, ws),
    ensures
        words(spaced(gaps, ws)) == ws,
    decreases ws.len(),
{
    if ws.len() == 0 {
        lemma_no_words(seq![]);
        assert(ws =~= seq![]);
    } else {
        let (g, v) = (gaps.skip(1), ws.skip(1));
        let tail = spaced(g, v);
        assert(is_gap(gaps[0]) && is_word(ws[0]));
        assert forall|i: int| 0 <= i < v.len() implies is_gap(#[trigger] g[i]) && is_word(v[i]) by {
            assert(g[i] == gaps[i + 1] && v[i] == ws[i + 1]);
        }
        assert forall|i: int| 1 <= i < v.len() implies (#[trigger] g[i]).len() > 0 by {
            assert(g[i] == gaps[i + 1]);
        }
        if v.len() > 0 {
            assert(g[0] == gaps[1]);
            assert(is_gap(gaps[1]) && gaps[1].len() > 0);
            assert(tail[0] == g[0][0]);
        }
        lemma_spaced(g, v);
        lemma_first_word(gaps[0], ws[0], tail);
        assert(seq![ws[0]] + v =~= ws);
    }
}

/// A sample line is a name, possibly a label set, and words with white space
/// before each; what it says depends on these alone.
pub proof fn law_sample_line_is_its_words(
    name: Seq<char>,
    part: Seq<char>,
    labels: LabelPairs,
    gaps: Seq<Seq<char>>,
    ws: Seq<Seq<char>>,
)
    requires
        is_metric_name(name),
        is_label_part(part, labels),
        are_gaps(gaps, ws),
        part.len() == 0 && ws.len() > 0 ==> gaps[0].len() > 0,
    ensures
        sample_of(name + part + spaced(gaps, ws)) == says(name, labels, ws),
{
    let tail = spaced(gaps, ws);
    let line = name + part + tail;
    let rest = part + tail;
    let end = name.len() as int;
    assert forall|j: int| 0 <= j < end implies !ends_name()(#[trigger] line[j]) by {
        assert(line[j] == name[j]);
        assert(is_alpha(name[j]) || is_digit(name[j]) || name[j] == '_' || name[j] == ':');
    }
    if part.len() > 0 {
        assert(line[end] == part[0]);
    } else if ws.len() > 0 {
        assert(is_gap(gaps[0]));
        assert(line[end] == gaps[0][0]);
    }
    lemma_index_where_is(line, ends_name(), end);
    assert(line.take(end) =~= name);
    assert(line.skip(end) =~= rest);
    if part.len() == 0 {
        assert(rest =~= tail);
        assert(labels =~= seq![]);
        if ws.len() > 0 {
            assert(tail[0] == gaps[0][0]);
        }
    } else {
        law_label_set_ends_with_the_brace(part, tail);
        assert(part.take(part.len() as int) =~= part);
    }
    lemma_spaced(gaps, ws);
}

/// A character of a quoted label value stands for itself, and the escapes for a
/// line feed, a backslash and a quote; no other escapes are accepted.
pub proof fn law_quoted_characters(c: char, rest: Seq<char>, seen: Seq<char>)
    ensures
        c != '"' && c != '\\' ==> quoted(seq![c] + rest, seen) == quoted(rest, seen.push(c)),
        quoted(seq!['"'] + rest, seen) == Ok::<(Seq<char>, Seq<char>), ErrorKindSpec>((seen, rest)),
        quoted(seq!['\\', 'n'] + rest, seen) == quoted(rest, seen.push('\n')),
        quoted(seq!['\\', '\\'] + rest, seen) == quoted(rest, seen.push('\\')),
        quoted(seq!['\\', '"'] + rest, seen) == quoted(rest, seen.push('"')),
        c != 'n' && c != '\\' && c != '"' ==> quoted(seq!['\\', c] + rest, seen) == Err::<
            (Seq<char>, Seq<char>),
            ErrorKindSpec,
        >(ErrorKindSpec::BadEscape(c)),
{
    assert((seq![c] + rest).skip(1) =~= rest);
    assert((seq!['"'] + rest).skip(1) =~= rest);
    assert((seq!['\\', 'n'] + rest).skip(2) =~= rest);
    assert((seq!['\\', '\\'] + rest).skip(2) =~= rest);
    assert((seq!['\\', '"'] + rest).skip(2) =~= rest);
}

/// The text is blanks and commas only.
pub open spec fn is_separation(s: Seq<char>) -> bool {
    forall|i: int| 0 <= i < s.len() ==> #[trigger] s[i] == ' ' || s[i] == ','
}

/// The text is blanks only.
pub open spec fn is_blank(s: Seq<char>) -> bool {
    forall|i: int| 0 <= i < s.len() ==> #[trigger] s[i] == ' '
}

proof fn lemma_skip_separation(g: Seq<char>, s: Seq<char>)
    requires
        is_separation(g),
        s.len() > 0 && s[0] != ' ' && s[0] != ',',
    ensures
        skip_separators(g + s) == s,
    decreases g.len(),
{
    if g.len() == 0 {
        assert(g + s =~= s);
    } else {
        let h = g.skip(1);
        assert((g + s)[0] == g[0]);
        assert((g + s).skip(1) =~= h + s);
        assert forall|i: int| 0 <= i < h.len() implies #[trigger] h[i] == ' ' || h[i] == ',' by {
            assert(h[i] == g[i + 1]);
        }
        lemma_skip_separation(h, s);
    }
}

proof fn lemma_skip_blank(g: Seq<char>, s: Seq<char>)
    requires
        is_blank(g),
        s.len() > 0 && s[0] != ' ',
    ensures
        skip_blanks(g + s) == s,
    decreases g.len(),
{
    if g.len() == 0 {
        assert(g + s =~= s);
    } else {
        let h = g.skip(1);
        assert((g + s)[0] == g[0]);
        assert((g + s).skip(1) =~= h + s);
        assert forall|i: int| 0 <= i < h.len() implies #[trigger] h[i] == ' ' by {
            assert(h[i] == g[i + 1]);
        }
        lemma_skip_blank(h, s);
    }
}

/// A label pair, behind blanks and commas, with white space behind its name and
/// blanks before its quoted value, is read as that pair, in front of whatever
/// follows; a closing brace ends the pairs.
pub proof fn law_label_pair_is_read(
    sep: Seq<char>,
    name: Seq<char>,
    gap: Seq<char>,
    blank: Seq<char>,
    text: Seq<char>,
    seen: LabelPairs,
)
    requires
        is_separation(sep),
        is_label_name(name),
        is_gap(gap),
        is_blank(blank),
    ensures
        label_pairs(sep + name + gap + seq!['='] + blank + seq!['"'] + text, seen) == match quoted(
            text,
            seq![],
        ) {
            Ok((value, rest)) => label_pairs(rest, seen.push((name, value))),
            Err(k) => Err(k),
        },
        label_pairs(sep + seq!['}'] + text, seen) == Ok::<
            (LabelPairs, Seq<char>),
            ErrorKindSpec,
        >((seen, text)),
{
    let s = sep + name + gap + seq!['='] + blank + seq!['"'] + text;
    let value = seq!['"'] + text;
    let after = blank + value;
    let t = name + gap + seq!['='] + after;
    assert(s =~= sep + t);
    assert forall|i: int| 0 <= i < name.len() implies !is_white(#[trigger] name[i]) && name[i] != '='
        && name[i] != ' ' && name[i] != ',' && name[i] != '}' by {
        assert(is_alpha(name[i]) || is_digit(name[i]) || name[i] == '_');
    }
    assert(t[0] == name[0]);
    lemma_skip_separation(sep, t);
    let e = (name + gap).len() as int;
    assert forall|j: int| 0 <= j < e implies !is_char('=')(#[trigger] t[j]) by {
        if j < name.len() {
            assert(t[j] == name[j]);
        } else {
            assert(t[j] == gap[j - name.len()]);
            assert(is_white(gap[j - name.len()]));
        }
    }
    assert(t[e] == '=');
    lemma_index_where_is(t, is_char('='), e);
    assert(t.take(e) =~= Seq::<char>::empty() + name + gap);
    lemma_trim_gaps(seq![], name, gap);
    assert(t.skip(e + 1) =~= after);
    lemma_skip_blank(blank, value);
    assert(value.skip(1) =~= text);
    let u = seq!['}'] + text;
    assert(sep + seq!['}'] + text =~= sep + u);
    lemma_skip_separation(sep, u);
    assert(u.skip(1) =~= text);
}

/// A line is one of the payload: it holds no line feed.
pub open spec fn is_line(s: Seq<char>) -> bool {
    !s.contains('\n')
}

proof fn lemma_one_line(s: Seq<char>)
    requires
        is_line(s),
    ensures
        exposition_of(s) == match line_step(trim(s), empty_exposition()) {
            Ok(x) => Ok(x),
            Err(kind) => Err(ErrorSpec { line: 1, kind }),
        },
{
    lemma_index_where(s, is_char('\n'));
    let i = index_of(s, '\n');
    if i < s.len() {
        assert(s[i] == '\n');
        assert(s.contains('\n'));
    }
    assert(s.take(s.len() as int) =~= s);
}

/// A payload of one line, with white space around it: an empty line says
/// nothing, and a line that is no comment is the sample that it says.
pub proof fn law_payload_of_one_line(a: Seq<char>, s: Seq<char>, b: Seq<char>)
    requires
        is_gap(a),
        is_gap(b),
        is_trimmed(s),
        is_line(a + s + b),
        s.len() > 0 ==> s[0] != '#',
    ensures
        s.len() == 0 ==> exposition_of(a + s + b) == Ok::<Exposition, ErrorSpec>(
            empty_exposition(),
        ),
        s.len() > 0 ==> match (exposition_of(a + s + b), sample_of(s)) {
            (Ok(x), Ok(y)) => x.samples == seq![y] && x.metas == empty_exposition().metas,
            (Err(e), Err(k)) => e == (ErrorSpec { line: 1, kind: k }),
            _ => false,
        },
{
    lemma_trim_gaps(a, s, b);
    lemma_one_line(a + s + b);
    if let Ok(y) = sample_of(s) {
        assert(empty_exposition().samples.push(y) =~= seq![y]);
    }
}

/// The kind known of a metric, or that of a metric of which nothing is known.
pub open spec fn known_kind(metas: Map<Seq<char>, MetaSpec>, name: Seq<char>) -> MetricKind {
    if metas.dom().contains(name) {
        metas[name].kind
    } else {
        MetricKind::Untyped
    }
}

/// The help text known of a metric, or nothing.
pub open spec fn known_help(metas: Map<Seq<char>, MetaSpec>, name: Seq<char>) -> Seq<char> {
    if metas.dom().contains(name) {
        metas[name].help
    } else {
        seq![]
    }
}

proof fn lemma_name_is_word(name: Seq<char>)
    requires
        is_metric_name(name),
    ensures
        is_word(name),
{
    assert forall|i: int| 0 <= i < name.len() implies !is_white(#[trigger] name[i]) by {
        assert(is_alpha(name[i]) || is_digit(name[i]) || name[i] == '_' || name[i] == ':');
    }
}

/// A help comment sets the help text of its metric, with the escapes replaced,
/// and keeps its kind; all other metadata stay.
pub proof fn law_help_comment(
    tab: bool,
    gap: Seq<char>,
    name: Seq<char>,
    space: Seq<char>,
    help: Seq<char>,
    metas: Map<Seq<char>, MetaSpec>,
)
    requires
        is_gap(gap),
        is_metric_name(name),
        is_gap(space),
        space.len() > 0,
        is_trimmed(help),
    ensures
        ({
            let mark = if tab {
                "HELP\t"@
            } else {
                "HELP "@
            };
            comment_metas(mark + gap + name + space + help, metas) == Ok::<
                Map<Seq<char>, MetaSpec>,
                ErrorKindSpec,
            >(
                metas.insert(
                    name,
                    MetaSpec { kind: known_kind(metas, name), help: unescape(help) },
                ),
            )
        }),
{
    let mark = if tab {
        "HELP\t"@
    } else {
        "HELP "@
    };
    reveal_strlit("HELP ");
    reveal_strlit("HELP\t");
    let tail = space + help;
    let rest = name + tail;
    let s = mark + gap + name + space + help;
    assert(s.take(5) =~= mark);
    assert(s.skip(5) =~= gap + rest);
    lemma_name_is_word(name);
    assert(rest[0] == name[0]);
    lemma_skip_gap(gap, rest);
    assert(tail[0] == space[0]);
    lemma_first_word(seq![], name, tail);
    let i = name.len() as int;
    assert(rest.take(i) =~= name);
    let b = space.skip(1);
    assert forall|j: int| 0 <= j < b.len() implies is_white(#[trigger] b[j]) by {
        assert(b[j] == space[j + 1]);
    }
    assert(rest.skip(i + 1) =~= b + help + seq![]);
    lemma_trim_gaps(b, help, seq![]);
}

/// A type comment sets the kind of its metric and keeps its help text; all other
/// metadata stay. What follows the kind does not matter, and a word that is no
/// kind is refused.
pub proof fn law_type_comment(
    tab: bool,
    gap: Seq<char>,
    name: Seq<char>,
    space: Seq<char>,
    kind: Seq<char>,
    tail: Seq<char>,
    metas: Map<Seq<char>, MetaSpec>,
)
    requires
        is_gap(gap),
        is_metric_name(name),
        is_gap(space),
        space.len() > 0,
        is_word(kind),
        tail.len() > 0 ==> is_white(tail[0]),
    ensures
        ({
            let mark = if tab {
                "TYPE\t"@
            } else {
                "TYPE "@
            };
            comment_metas(mark + gap + name + space + kind + tail, metas) == match kind_of(kind) {
                Some(k) => Ok(
                    metas.insert(name, MetaSpec { kind: k, help: known_help(metas, name) }),
                ),
                None => Err(ErrorKindSpec::InvalidType(kind)),
            }
        }),
{
    let mark = if tab {
        "TYPE\t"@
    } else {
        "TYPE "@
    };
    reveal_strlit("HELP ");
    reveal_strlit("HELP\t");
    reveal_strlit("TYPE ");
    reveal_strlit("TYPE\t");
    let s = mark + gap + name + space + kind + tail;
    assert(s.take(5) =~= mark);
    assert(s[0] == 'T');
    assert("HELP "@[0] == 'H' && "HELP\t"@[0] == 'H');
    if starts_with(s, "HELP "@) {
        assert(s.take(5)[0] == "HELP "@[0]);
    }
    if starts_with(s, "HELP\t"@) {
        assert(s.take(5)[0] == "HELP\t"@[0]);
    }
    lemma_name_is_word(name);
    let more = space + kind + tail;
    assert(more[0] == space[0]);
    assert(s.skip(5) =~= gap + name + more);
    lemma_first_word(gap, name, more);
    lemma_first_word(space, kind, tail);
    let ws = words(s.skip(5));
    assert(ws == seq![name] + (seq![kind] + words(tail)));
    assert(ws[0] == name && ws[1] == kind);
}

/// A comment line is what stands behind its mark, whatever the white space
/// between; one that is neither a help nor a type comment says nothing.
pub proof fn law_comment_line(gap: Seq<char>, s: Seq<char>, read: Exposition)
    requires
        is_gap(gap),
        s.len() > 0 ==> !is_white(s[0]),
    ensures
        match (line_step(seq!['#'] + gap + s, read), comment_metas(s, read.metas)) {
            (Ok(x), Ok(metas)) => x.samples == read.samples && x.metas == metas,
            (Err(e), Err(k)) => e == k,
            _ => false,
        },
        !starts_with(s, "HELP"@) && !starts_with(s, "TYPE"@) ==> comment_metas(s, read.metas)
            == Ok::<Map<Seq<char>, MetaSpec>, ErrorKindSpec>(read.metas),
{
    let line = seq!['#'] + gap + s;
    assert(line.skip(1) =~= gap + s);
    lemma_skip_gap(gap, s);
    reveal_strlit("HELP ");
    reveal_strlit("HELP\t");
    reveal_strlit("TYPE ");
    reveal_strlit("TYPE\t");
    reveal_strlit("HELP");
    reveal_strlit("TYPE");
    if starts_with(s, "HELP "@) {
        assert(s.take(4) =~= s.take(5).take(4));
        assert("HELP "@.take(4) =~= "HELP"@);
    }
    if starts_with(s, "HELP\t"@) {
        assert(s.take(4) =~= s.take(5).take(4));
        assert("HELP\t"@.take(4) =~= "HELP"@);
    }
    if starts_with(s, "TYPE "@) {
        assert(s.take(4) =~= s.take(5).take(4));
        assert("TYPE "@.take(4) =~= "TYPE"@);
    }
    if starts_with(s, "TYPE\t"@) {
        assert(s.take(4) =~= s.take(5).take(4));
        assert("TYPE\t"@.take(4) =~= "TYPE"@);
    }
}

/// In a help text, an escaped line feed and an escaped backslash are replaced,
/// and every other character stands for itself.
pub proof fn law_help_characters(c: char, s: Seq<char>)
    ensures
        c != '\\' ==> unescape(seq![c] + s) == seq![c] + unescape(s),
        unescape(seq!['\\', 'n'] + s) == seq!['\n'] + unescape(s),
        unescape(seq!['\\', '\\'] + s) == seq!['\\'] + unescape(s),
        c != 'n' && c != '\\' ==> unescape(seq!['\\', c] + s) == seq!['\\', c] + unescape(s),
        unescape(seq!['\\']) == seq!['\\'],
        unescape(seq![]) == Seq::<char>::empty(),
{
    assert((seq![c] + s).skip(1) =~= s);
    assert((seq!['\\', 'n'] + s).skip(2) =~= s);
    assert((seq!['\\', '\\'] + s).skip(2) =~= s);
    assert((seq!['\\', c] + s).skip(2) =~= s);
}

/// Pairs with distinct names make the label set that holds them sorted by name.
pub proof fn law_labels_are_sorted(
    text: Seq<char>,
    pairs: LabelPairs,
    rest: Seq<char>,
    l: LabelPairs,
)
    requires
        label_pairs(text, seq![]) == Ok::<(LabelPairs, Seq<char>), ErrorKindSpec>((pairs, rest)),
        forall|i: int, j: int|
            0 <= i < j < pairs.len() ==> (#[trigger] pairs[i]).0 != (#[trigger] pairs[j]).0,
        forall|i: int, j: int|
            0 <= i < j < l.len() ==> text_before((#[trigger] l[i]).0, (#[trigger] l[j]).0),
        forall|p: (Seq<char>, Seq<char>)| #[trigger] l.contains(p) <==> pairs.contains(p),
    ensures
        label_set(seq!['{'] + text) == Ok::<(LabelPairs, Seq<char>), ErrorKindSpec>((l, rest)),
{
    assert((seq!['{'] + text).skip(1) =~= text);
    assert forall|i: int, j: int| 0 <= i < j < keys_of(l).len() implies text_order()(
        #[trigger] keys_of(l)[i],
        #[trigger] keys_of(l)[j],
    ) by {
        assert(text_before(l[i].0, l[j].0));
    }
    assert(is_label_listing(l, pairs));
    lemma_labels_of(l, pairs);
}

/// Of the names that occur twice, the least is refused.
pub proof fn law_label_name_twice(
    text: Seq<char>,
    pairs: LabelPairs,
    rest: Seq<char>,
    i: int,
    j: int,
)
    requires
        label_pairs(text, seq![]) == Ok::<(LabelPairs, Seq<char>), ErrorKindSpec>((pairs, rest)),
        0 <= i < j < pairs.len(),
        pairs[i].0 == pairs[j].0,
        forall|k: int, m: int|
            0 <= k < m < pairs.len() && (#[trigger] pairs[k]).0 == (#[trigger] pairs[m]).0
                ==> !text_before(pairs[k].0, pairs[i].0),
    ensures
        label_set(seq!['{'] + text) == Err::<(LabelPairs, Seq<char>), ErrorKindSpec>(
            ErrorKindSpec::DuplicateLabel(pairs[i].0),
        ),
{
    assert((seq!['{'] + text).skip(1) =~= text);
    let n = pairs[i].0;
    assert(occurs_twice(pairs, n));
    assert forall|x: Seq<char>| #[trigger] occurs_twice(pairs, x) implies !text_before(x, n) by {
        let (k, m) = choose|k: int, m: int|
            0 <= k < m < pairs.len() && (#[trigger] pairs[k]).0 == x && (#[trigger] pairs[m]).0
                == x;
        assert(pairs[k].0 == pairs[m].0);
    }
    lemma_least_duplicate(pairs, n);
}

/// What is wrong with label pairs: a name that is none is refused, and pairs
/// without an equals sign, without a quote behind it or without an end are
/// unterminated.
pub proof fn law_label_faults(
    sep: Seq<char>,
    word: Seq<char>,
    blank: Seq<char>,
    text: Seq<char>,
    seen: LabelPairs,
)
    requires
        is_separation(sep),
        is_trimmed(word),
        !word.contains('='),
        word.len() > 0 && word[0] != ' ' && word[0] != ',' && word[0] != '}',
        is_blank(blank),
        text.len() > 0 ==> text[0] != '"' && text[0] != ' ',
    ensures
        label_pairs(sep, seen) == Err::<(LabelPairs, Seq<char>), ErrorKindSpec>(
            ErrorKindSpec::UnterminatedLabels,
        ),
        label_pairs(sep + word, seen) == Err::<(LabelPairs, Seq<char>), ErrorKindSpec>(
            ErrorKindSpec::UnterminatedLabels,
        ),
        label_pairs(sep + word + seq!['='] + (blank + text), seen) == Err::<
            (LabelPairs, Seq<char>),
            ErrorKindSpec,
        >(
            if is_label_name(word) {
                ErrorKindSpec::UnterminatedLabels
            } else {
                ErrorKindSpec::InvalidLabelName(word)
            },
        ),
{
    lemma_all_separation(sep);
    lemma_skip_separation(sep, word);
    lemma_no_index(word, '=');
    let t = word + seq!['='] + (blank + text);
    assert(sep + word + seq!['='] + (blank + text) =~= sep + t);
    assert(t[0] == word[0]);
    lemma_skip_separation(sep, t);
    let e = word.len() as int;
    assert forall|j: int| 0 <= j < e implies !is_char('=')(#[trigger] t[j]) by {
        assert(t[j] == word[j]);
        assert(word.contains(word[j]));
    }
    assert(t[e] == '=');
    lemma_index_where_is(t, is_char('='), e);
    assert(t.take(e) =~= Seq::<char>::empty() + word + Seq::<char>::empty());
    lemma_trim_gaps(seq![], word, seq![]);
    assert(t.skip(e + 1) =~= blank + text);
    if text.len() == 0 {
        lemma_all_blank(blank);
        assert(blank + text =~= blank);
    } else {
        lemma_skip_blank(blank, text);
    }
}

proof fn lemma_all_separation(g: Seq<char>)
    requires
        is_separation(g),
    ensures
        skip_separators(g).len() == 0,
    decreases g.len(),
{
    if g.len() > 0 {
        let h = g.skip(1);
        assert(g[0] == ' ' || g[0] == ',');
        assert forall|i: int| 0 <= i < h.len() implies #[trigger] h[i] == ' ' || h[i] == ',' by {
            assert(h[i] == g[i + 1]);
        }
        lemma_all_separation(h);
    }
}

proof fn lemma_all_blank(g: Seq<char>)
    requires
        is_blank(g),
    ensures
        skip_blanks(g).len() == 0,
    decreases g.len(),
{
    if g.len() > 0 {
        let h = g.skip(1);
        assert(g[0] == ' ');
        assert forall|i: int| 0 <= i < h.len() implies #[trigger] h[i] == ' ' by {
            assert(h[i] == g[i + 1]);
        }
        lemma_all_blank(h);
    }
}

/// A quoted value without its closing quote is unterminated, also behind a
/// backslash.
pub proof fn law_quote_without_end(seen: Seq<char>)
    ensures
        quoted(seq![], seen) == Err::<(Seq<char>, Seq<char>), ErrorKindSpec>(
            ErrorKindSpec::UnterminatedLabels,
        ),
        quoted(seq!['\\'], seen) == Err::<(Seq<char>, Seq<char>), ErrorKindSpec>(
            ErrorKindSpec::UnterminatedLabels,
        ),
{
}

/// A sample line begins with its name, up to a brace, white space or the end,
/// and is refused with the name if that is none, or with what is wrong with its
/// labels.
pub proof fn law_sample_name(word: Seq<char>, rest: Seq<char>)
    requires
        forall|i: int| 0 <= i < word.len() ==> !is_white(#[trigger] word[i]) && word[i] != '{',
        rest.len() > 0 ==> rest[0] == '{' || is_white(rest[0]),
    ensures
        !is_metric_name(word) ==> sample_of(word + rest) == Err::<ScrapedSpec, ErrorKindSpec>(
            ErrorKindSpec::InvalidMetricName(word),
        ),
        is_metric_name(word) ==> (label_set(rest) matches Err(k) ==> sample_of(word + rest) == Err::<
            ScrapedSpec,
            ErrorKindSpec,
        >(k)),
{
    let line = word + rest;
    let end = word.len() as int;
    assert forall|j: int| 0 <= j < end implies !ends_name()(#[trigger] line[j]) by {
        assert(line[j] == word[j]);
    }
    if rest.len() > 0 {
        assert(line[end] == rest[0]);
    }
    lemma_index_where_is(line, ends_name(), end);
    assert(line.take(end) =~= word);
    assert(line.skip(end) =~= rest);
}

/// The marks of the comments that say something.
pub open spec fn is_mark(s: Seq<char>) -> bool {
    s == "HELP "@ || s == "HELP\t"@ || s == "TYPE "@ || s == "TYPE\t"@
}

/// A comment that begins with none of the marks says nothing.
pub proof fn law_other_comment(s: Seq<char>, metas: Map<Seq<char>, MetaSpec>)
    requires
        s.len() < 5 || !is_mark(s.take(5)),
    ensures
        comment_metas(s, metas) == Ok::<Map<Seq<char>, MetaSpec>, ErrorKindSpec>(metas),
{
    reveal_strlit("HELP ");
    reveal_strlit("HELP\t");
    reveal_strlit("TYPE ");
    reveal_strlit("TYPE\t");
    assert("HELP "@.len() == 5 && "HELP\t"@.len() == 5);
    assert("TYPE "@.len() == 5 && "TYPE\t"@.len() == 5);
}

/// A help or type comment on what is no metric name is refused, a help comment
/// with nothing behind the name sets an empty help text, and a type comment
/// without a kind is refused.
pub proof fn law_short_comments(
    mark: Seq<char>,
    gap: Seq<char>,
    word: Seq<char>,
    tail: Seq<char>,
    space: Seq<char>,
    metas: Map<Seq<char>, MetaSpec>,
)
    requires
        is_mark(mark),
        is_gap(gap),
        is_word(word),
        tail.len() > 0 ==> is_white(tail[0]),
        is_gap(space),
    ensures
        !is_metric_name(word) ==> comment_metas(mark + gap + word + tail, metas) == Err::<
            Map<Seq<char>, MetaSpec>,
            ErrorKindSpec,
        >(ErrorKindSpec::InvalidMetricName(word)),
        is_metric_name(word) && mark[0] == 'H' ==> comment_metas(mark + gap + word + space, metas)
            == Ok::<Map<Seq<char>, MetaSpec>, ErrorKindSpec>(
            metas.insert(word, MetaSpec { kind: known_kind(metas, word), help: seq![] }),
        ),
        is_metric_name(word) && mark[0] == 'T' ==> comment_metas(mark + gap + word + space, metas)
            == Err::<Map<Seq<char>, MetaSpec>, ErrorKindSpec>(ErrorKindSpec::InvalidType(seq![])),
{
    lemma_short_comment(mark, gap, word, tail, metas);
    if space.len() > 0 {
        assert(is_white(space[0]));
    }
    lemma_short_comment(mark, gap, word, space, metas);
    lemma_no_words(space);
    let none = Seq::<char>::empty();
    assert(unescape(none) == none);
    assert(kind_of(none) is None) by {
        reveal_strlit("counter");
        reveal_strlit("gauge");
        reveal_strlit("histogram");
        reveal_strlit("summary");
        reveal_strlit("untyped");
        assert("counter"@.len() == 7 && "gauge"@.len() == 5 && "histogram"@.len() == 9);
        assert("summary"@.len() == 7 && "untyped"@.len() == 7);
    }
    if space.len() > 0 {
        let b = space.skip(1);
        assert forall|j: int| 0 <= j < b.len() implies is_white(#[trigger] b[j]) by {
            assert(b[j] == space[j + 1]);
        }
        lemma_trim_gaps(b, none, none);
        assert(b + none + none =~= b);
    }
}

proof fn lemma_short_comment(
    mark: Seq<char>,
    gap: Seq<char>,
    word: Seq<char>,
    tail: Seq<char>,
    metas: Map<Seq<char>, MetaSpec>,
)
    requires
        is_mark(mark),
        is_gap(gap),
        is_word(word),
        tail.len() > 0 ==> is_white(tail[0]),
    ensures
        ({
            let s = mark + gap + word + tail;
            let rest = trim_start(s.skip(5));
            let i = index_of_white(rest);
            &&& s.take(5) == mark
            &&& mark[0] == 'H' || mark[0] == 'T'
            &&& mark[0] == 'H' <==> starts_with(s, "HELP "@) || starts_with(s, "HELP\t"@)
            &&& mark[0] == 'T' <==> starts_with(s, "TYPE "@) || starts_with(s, "TYPE\t"@)
            &&& i == word.len()
            &&& rest.take(i) == word
            &&& rest.len() == word.len() + tail.len()
            &&& tail.len() > 0 ==> rest.skip(i + 1) == tail.skip(1)
            &&& words(s.skip(5)) == seq![word] + words(tail)
        }),
{
    reveal_strlit("HELP ");
    reveal_strlit("HELP\t");
    reveal_strlit("TYPE ");
    reveal_strlit("TYPE\t");
    let s = mark + gap + word + tail;
    let rest = word + tail;
    assert(mark.len() == 5);
    assert(s.take(5) =~= mark);
    assert(s.skip(5) =~= gap + rest);
    assert(s.skip(5) =~= gap + word + tail);
    assert(rest[0] == word[0]);
    lemma_skip_gap(gap, rest);
    lemma_first_word(gap, word, tail);
    assert(rest.take(word.len() as int) =~= word);
    if tail.len() > 0 {
        assert(rest.skip(word.len() as int + 1) =~= tail.skip(1));
    }
    assert("HELP "@[0] == 'H' && "HELP\t"@[0] == 'H');
    assert("TYPE "@[0] == 'T' && "TYPE\t"@[0] == 'T');
    assert(s.take(5)[0] == mark[0]);
}

/// The characters that are white space: the ASCII ones, and those that Unicode
/// names.
pub proof fn law_white_space(c: char)
    ensures
        c <= '\u{7f}' ==> (is_white(c) <==> c == ' ' || '\t' <= c <= '\r'),
        c > '\u{7f}' ==> (is_white(c) <==> c == '\u{85}' || c == '\u{a0}' || c == '\u{1680}' || (
        '\u{2000}' <= c <= '\u{200a}') || c == '\u{2028}' || c == '\u{2029}' || c == '\u{202f}' || c
            == '\u{205f}' || c == '\u{3000}'),
{
    crate::text::lemma_char_range(c);
}

} // verus!
