//! What the text format writes is read back.

use vstd::prelude::*;

use crate::binary64::{is_nan, INFINITY, NAN, SIGN};
use crate::decimal::{law_number_text_read_back, lemma_number_text_plain, number_bits};
use crate::model::{
    is_label_name, is_label_set, is_metric_name, kind_text, law_kind_text, lemma_labels_of,
    names_distinct, Key, LabelPairs, MetaSpec, MetricKind, ScrapedSpec, MAX_TIMESTAMP_MS,
};
use crate::numeral::{dec, int_text, law_int_text_read_back, lemma_dec};
use crate::order::{lemma_text_order, text_order};
use crate::sorted::keys_of;
use crate::text::{
    index_of, index_of_white, is_alpha, is_char, is_digit, is_white, lemma_index_where_is,
    lower_text, trim, trim_start, words,
};
use crate::textfmt::{
    empty_exposition, ends_name, escape_help, escape_value, exposition_of, help_line, label_pairs,
    label_set, line_step, meta_or_default, meta_text, pairs_text, quoted, read_lines, sample_line,
    sample_of, skip_blanks, skip_separators, timestamp_value, type_line, unescape, value_text,
    Exposition,
};

verus! {

/// The text holds no white space.
spec fn is_solid(s: Seq<char>) -> bool {
    forall|i: int| 0 <= i < s.len() ==> !is_white(#[trigger] s[i])
}

/// The text holds no line feed.
spec fn is_one_line(s: Seq<char>) -> bool {
    forall|i: int| 0 <= i < s.len() ==> #[trigger] s[i] != '\n'
}

/// The name and the label names are valid, and the labels are sorted by name.
pub open spec fn is_valid_key(key: Key) -> bool {
    &&& is_metric_name(key.0)
    &&& is_label_set(key.1)
    &&& forall|i: int| 0 <= i < key.1.len() ==> is_label_name((#[trigger] key.1[i]).0)
}

/// The pattern, with every not-a-number turned into the quiet one.
pub open spec fn canonical(bits: u64) -> u64 {
    if is_nan(bits) {
        NAN
    } else {
        bits
    }
}

/// A help text that is not lost in trimming: no white space at either end but
/// for line feeds, which are written as escapes.
pub open spec fn is_lasting_help(s: Seq<char>) -> bool {
    s.len() > 0 ==> (!is_white(s[0]) || s[0] == '\n') && (!is_white(s.last()) || s.last() == '\n')
}

proof fn lemma_name_solid(s: Seq<char>)
    requires
        is_metric_name(s) || is_label_name(s),
    ensures
        is_solid(s),
        s.len() > 0,
        forall|i: int|
            0 <= i < s.len() ==> #[trigger] s[i] != '{' && s[i] != '#' && s[i] != '=' && s[i] != ' '
                && s[i] != ',' && s[i] != '}',
{
    assert forall|i: int| 0 <= i < s.len() implies !is_white(#[trigger] s[i]) && s[i] != '{' && s[i]
        != '#' && s[i] != '=' && s[i] != ' ' && s[i] != ',' && s[i] != '}' by {
        assert(is_alpha(s[i]) || is_digit(s[i]) || s[i] == '_' || s[i] == ':');
    }
}

proof fn lemma_trim_id(s: Seq<char>)
    requires
        s.len() > 0,
        !is_white(s[0]),
        !is_white(s.last()),
    ensures
        trim(s) == s,
        trim_start(s) == s,
{
}

proof fn lemma_words_first(w: Seq<char>, tail: Seq<char>)
    requires
        w.len() > 0,
        is_solid(w),
        tail.len() == 0 || is_white(tail[0]),
    ensures
        words(w + tail) == seq![w] + words(tail),
        words(seq![' '] + w + tail) == seq![w] + words(tail),
        trim_start(w + tail) == w + tail,
        index_of_white(w + tail) == w.len(),
{
    let s = w + tail;
    let p = |x: char| is_white(x);
    assert(s[0] == w[0]);
    assert forall|j: int| 0 <= j < w.len() implies !p(#[trigger] s[j]) by {
        assert(s[j] == w[j]);
    }
    lemma_index_where_is(s, p, w.len() as int);
    assert(s.take(w.len() as int) =~= w);
    assert(s.skip(w.len() as int) =~= tail);
    let t = seq![' '] + w + tail;
    assert(t.drop_first() =~= s);
    assert(trim_start(t) == s) by {
        assert(is_white(t[0]));
        reveal_with_fuel(trim_start, 2);
    }
    assert(trim_start(s) == s);
}

proof fn lemma_words_nothing()
    ensures
        words(seq![]) == Seq::<Seq<char>>::empty(),
{
}

proof fn lemma_value_text(bits: u64)
    ensures
        is_solid(value_text(bits)),
        value_text(bits).len() > 0,
        number_bits(value_text(bits)) == Some(canonical(bits)),
{
    reveal_strlit("inf");
    reveal_strlit("infinity");
    reveal_strlit("nan");
    let s = value_text(bits);
    if bits % SIGN > INFINITY {
        assert(lower_text(s) =~= "nan"@);
        assert("inf"@[0] == 'i' && "infinity"@[0] == 'i' && "nan"@[0] == 'n');
    } else if bits == INFINITY || bits == INFINITY + SIGN {
        assert(lower_text(s.skip(1)) =~= "inf"@);
    } else {
        lemma_number_text_plain(bits);
        law_number_text_read_back(bits);
        assert forall|i: int| 0 <= i < s.len() implies !is_white(#[trigger] s[i]) by {}
    }
}

proof fn lemma_int_text(ms: int)
    requires
        0 <= ms <= MAX_TIMESTAMP_MS,
    ensures
        is_solid(int_text(ms)),
        int_text(ms).len() > 0,
        timestamp_value(int_text(ms)) == Some(ms),
{
    law_int_text_read_back(ms);
    let s = dec(ms as nat);
    lemma_dec(ms as nat);
    assert forall|i: int| 0 <= i < s.len() implies !is_white(#[trigger] s[i]) by {
        assert(is_digit(s[i]));
    }
}

proof fn lemma_quoted(v: Seq<char>, tail: Seq<char>, seen: Seq<char>)
    ensures
        is_one_line(escape_value(v)),
        quoted(escape_value(v) + seq!['"'] + tail, seen) == Ok::<
            (Seq<char>, Seq<char>),
            crate::textfmt::ErrorKindSpec,
        >((seen + v, tail)),
    decreases v.len(),
{
    let s = escape_value(v) + seq!['"'] + tail;
    if v.len() == 0 {
        assert(s.skip(1) =~= tail);
        assert(seen + v =~= seen);
    } else {
        let w = v.skip(1);
        let c = v[0];
        let rest = escape_value(w) + seq!['"'] + tail;
        lemma_quoted(w, tail, seen.push(c));
        assert(seen.push(c) + w =~= seen + v);
        if c == '\\' || c == '"' || c == '\n' {
            assert(s.skip(2) =~= rest);
        } else {
            assert(s.skip(1) =~= rest);
        }
    }
}

/// One encoded pair, possibly after a comma, is read as that pair.
proof fn lemma_pair(
    name: Seq<char>,
    value: Seq<char>,
    comma: bool,
    rest: Seq<char>,
    seen: LabelPairs,
)
    requires
        is_label_name(name),
    ensures
        ({
            let t = name + seq!['=', '"'] + (escape_value(value) + seq!['"'] + rest);
            let s = if comma {
                seq![','] + t
            } else {
                t
            };
            label_pairs(s, seen) == label_pairs(rest, seen.push((name, value)))
        }),
{
    let t = name + seq!['=', '"'] + (escape_value(value) + seq!['"'] + rest);
    lemma_name_solid(name);
    lemma_quoted(value, rest, seq![]);
    assert(t[0] == name[0]);
    assert(skip_separators(t) == t);
    let s = if comma {
        seq![','] + t
    } else {
        t
    };
    if comma {
        assert(s.skip(1) =~= t);
    }
    assert(skip_separators(s) == t);
    let e = name.len() as int;
    assert forall|j: int| 0 <= j < e implies !is_char('=')(#[trigger] t[j]) by {
        assert(t[j] == name[j]);
    }
    lemma_index_where_is(t, is_char('='), e);
    assert(t.take(e) =~= name);
    lemma_trim_id(name);
    let u = t.skip(e + 1);
    assert(u[0] == '"');
    assert(skip_blanks(u) == u);
    assert(u.skip(1) =~= escape_value(value) + seq!['"'] + rest);
    assert(Seq::<char>::empty() + value =~= value);
}

proof fn lemma_pairs_one_line(l: LabelPairs, first: bool)
    requires
        forall|i: int| 0 <= i < l.len() ==> is_label_name((#[trigger] l[i]).0),
    ensures
        is_one_line(pairs_text(l, first)),
    decreases l.len(),
{
    if l.len() > 0 {
        let (name, value) = l[0];
        let m = l.skip(1);
        lemma_name_solid(name);
        lemma_quoted(value, seq![], seq![]);
        assert forall|i: int| 0 <= i < m.len() implies is_label_name((#[trigger] m[i]).0) by {
            assert(m[i] == l[i + 1]);
        }
        lemma_pairs_one_line(m, false);
    }
}

proof fn lemma_pairs(l: LabelPairs, first: bool, tail: Seq<char>, seen: LabelPairs)
    requires
        forall|i: int| 0 <= i < l.len() ==> is_label_name((#[trigger] l[i]).0),
    ensures
        label_pairs(pairs_text(l, first) + seq!['}'] + tail, seen) == Ok::<
            (LabelPairs, Seq<char>),
            crate::textfmt::ErrorKindSpec,
        >((seen + l, tail)),
    decreases l.len(),
{
    let s = pairs_text(l, first) + seq!['}'] + tail;
    if l.len() == 0 {
        assert(skip_separators(s) == s);
        assert(s.skip(1) =~= tail);
        assert(seen + l =~= seen);
    } else {
        let (name, value) = l[0];
        let m = l.skip(1);
        let rest = pairs_text(m, false) + seq!['}'] + tail;
        assert forall|i: int| 0 <= i < m.len() implies is_label_name((#[trigger] m[i]).0) by {
            assert(m[i] == l[i + 1]);
        }
        lemma_pairs(m, false, tail, seen.push((name, value)));
        lemma_pair(name, value, !first, rest, seen);
        let t = name + seq!['=', '"'] + (escape_value(value) + seq!['"'] + rest);
        if first {
            assert(s =~= t);
        } else {
            assert(s =~= seq![','] + t);
        }
        assert(seen.push((name, value)) + m =~= seen + l);
    }
}

/// A sample line denotes its sample.
proof fn lemma_sample_line(s: ScrapedSpec)
    requires
        is_valid_key(s.key),
        s.ts matches Some(ms) ==> 0 <= ms <= MAX_TIMESTAMP_MS,
    ensures
        is_one_line(sample_line(s)),
        trim(sample_line(s)) == sample_line(s),
        sample_line(s)[0] != '#',
        sample_line(s).len() > 0,
        sample_of(sample_line(s)) == Ok::<ScrapedSpec, crate::textfmt::ErrorKindSpec>(
            ScrapedSpec { key: s.key, value: canonical(s.value), ts: s.ts },
        ),
{
    let (name, labels) = s.key;
    let line = sample_line(s);
    let value = value_text(s.value);
    lemma_name_solid(name);
    lemma_value_text(s.value);
    let stamp = match s.ts {
        Some(ms) => seq![' '] + int_text(ms),
        None => seq![],
    };
    if s.ts is Some {
        lemma_int_text(s.ts->0);
    }
    let tail = seq![' '] + value + stamp;
    let rest = line.skip(name.len() as int);
    assert(line[0] == name[0]);
    let end = name.len() as int;
    assert forall|j: int| 0 <= j < end implies !ends_name()(#[trigger] line[j]) by {
        assert(line[j] == name[j]);
    }
    if labels.len() == 0 {
        assert(rest =~= tail);
        assert(line[end] == ' ');
        lemma_index_where_is(line, ends_name(), end);
        assert(labels =~= seq![]);
        assert(label_set(rest) matches Ok((l, t)) && l == labels && t == tail);
        assert(line =~= name + tail);
    } else {
        lemma_pairs(labels, true, tail, seq![]);
        lemma_pairs_one_line(labels, true);
        assert(rest =~= seq!['{'] + pairs_text(labels, true) + seq!['}'] + tail);
        assert(line[end] == '{');
        lemma_index_where_is(line, ends_name(), end);
        assert(rest.skip(1) =~= pairs_text(labels, true) + seq!['}'] + tail);
        assert(Seq::<(Seq<char>, Seq<char>)>::empty() + labels =~= labels);
        lemma_text_order();
        assert(names_distinct(labels)) by {
            assert forall|i: int, j: int| 0 <= i < j < labels.len() implies (#[trigger] labels[i]).0
                != (#[trigger] labels[j]).0 by {
                let ks = keys_of(labels);
                assert(text_order()(ks[i], ks[j]));
            }
        }
        lemma_labels_of(labels, labels);
        assert(label_set(rest) matches Ok((l, t)) && l == labels && t == tail);
        assert(line =~= name + seq!['{'] + pairs_text(labels, true) + seq!['}'] + tail);
    }
    assert(line.take(end) =~= name);
    lemma_words_first(value, stamp);
    lemma_words_nothing();
    if s.ts is Some {
        let text = int_text(s.ts->0);
        lemma_words_first(text, seq![]);
        assert(seq![' '] + text + seq![] =~= stamp);
        assert(line.last() == text.last());
    } else {
        assert(line.last() == value.last());
    }
    lemma_trim_id(line);
    assert(is_one_line(tail)) by {
        assert forall|i: int| 0 <= i < tail.len() implies #[trigger] tail[i] != '\n' by {
            if 1 <= i < 1 + value.len() {
                assert(tail[i] == value[i - 1]);
            } else if i > 1 + value.len() {
                assert(tail[i] == int_text(s.ts->0)[i - 2 - value.len()]);
            }
        }
    }
}

proof fn lemma_escape_help(s: Seq<char>)
    ensures
        is_one_line(escape_help(s)),
        unescape(escape_help(s)) == s,
        s.len() > 0 ==> escape_help(s).len() > 0,
        s.len() > 0 ==> escape_help(s)[0] == if s[0] == '\n' {
            '\\'
        } else {
            s[0]
        },
        s.len() > 0 ==> escape_help(s).last() == if s.last() == '\n' {
            'n'
        } else {
            s.last()
        },
    decreases s.len(),
{
    if s.len() == 0 {
        assert(unescape(escape_help(s)) =~= s);
    } else {
        let w = s.skip(1);
        let c = s[0];
        let e = escape_help(s);
        lemma_escape_help(w);
        if c == '\\' || c == '\n' {
            assert(e.skip(2) =~= escape_help(w));
        } else {
            assert(e.skip(1) =~= escape_help(w));
        }
        assert(seq![c] + w =~= s);
    }
}

/// A help line sets the help text.
proof fn lemma_help_line(name: Seq<char>, help: Seq<char>, read: Exposition)
    requires
        is_metric_name(name),
        help.len() > 0,
        is_lasting_help(help),
    ensures
        is_one_line(help_line(name, help)),
        trim(help_line(name, help)) == help_line(name, help),
        line_step(help_line(name, help), read) == Ok::<Exposition, crate::textfmt::ErrorKindSpec>(
            Exposition {
                samples: read.samples,
                metas: read.metas.insert(
                    name,
                    MetaSpec { kind: meta_or_default(read.metas, name).kind, help },
                ),
            },
        ),
{
    reveal_strlit("# HELP ");
    reveal_strlit("HELP ");
    let line = help_line(name, help);
    let body = escape_help(help);
    lemma_name_solid(name);
    lemma_escape_help(help);
    assert(line[0] == '#' && line.last() == body.last());
    lemma_trim_id(line);
    lemma_trim_id(body);
    let s = "HELP "@ + name + seq![' '] + body;
    assert(line.skip(1).drop_first() =~= s);
    assert(trim_start(line.skip(1)) == s) by {
        assert(is_white(line.skip(1)[0]));
        assert(!is_white(s[0]));
        reveal_with_fuel(trim_start, 2);
    }
    assert(s.take(5) =~= "HELP "@);
    let tail = seq![' '] + body;
    assert(s.skip(5) =~= name + tail);
    lemma_words_first(name, tail);
    assert((name + tail).take(name.len() as int) =~= name);
    assert((name + tail).skip((name.len() + 1) as int) =~= body);
    assert forall|i: int| 0 <= i < line.len() implies #[trigger] line[i] != '\n' by {
        if 7 <= i < 7 + name.len() {
            assert(line[i] == name[i - 7]);
        } else if i > 7 + name.len() {
            assert(line[i] == body[i - 8 - name.len()]);
        }
    }
}

/// A type line sets the kind.
proof fn lemma_type_line(name: Seq<char>, kind: MetricKind, read: Exposition)
    requires
        is_metric_name(name),
    ensures
        is_one_line(type_line(name, kind)),
        trim(type_line(name, kind)) == type_line(name, kind),
        line_step(type_line(name, kind), read) == Ok::<Exposition, crate::textfmt::ErrorKindSpec>(
            Exposition {
                samples: read.samples,
                metas: read.metas.insert(
                    name,
                    MetaSpec { kind, help: meta_or_default(read.metas, name).help },
                ),
            },
        ),
{
    reveal_strlit("# TYPE ");
    reveal_strlit("TYPE ");
    reveal_strlit("HELP ");
    reveal_strlit("HELP\t");
    reveal_strlit("counter");
    reveal_strlit("gauge");
    reveal_strlit("histogram");
    reveal_strlit("summary");
    reveal_strlit("untyped");
    let line = type_line(name, kind);
    let word = kind_text(kind);
    assert(is_solid(word) && word.len() > 0);
    lemma_name_solid(name);
    assert(line[0] == '#' && line.last() == word.last());
    lemma_trim_id(line);
    let s = "TYPE "@ + name + seq![' '] + word;
    assert(line.skip(1).drop_first() =~= s);
    assert(trim_start(line.skip(1)) == s) by {
        assert(is_white(line.skip(1)[0]));
        assert(!is_white(s[0]));
        reveal_with_fuel(trim_start, 2);
    }
    assert(s.take(5) =~= "TYPE "@);
    assert(s.take(5)[0] == 'T' && "HELP "@[0] == 'H' && "HELP\t"@[0] == 'H');
    let tail = seq![' '] + word;
    assert(s.skip(5) =~= name + tail);
    lemma_words_first(name, tail);
    lemma_words_first(word, seq![]);
    lemma_words_nothing();
    assert(seq![' '] + word + seq![] =~= tail);
    law_kind_text(kind, word);
    assert forall|i: int| 0 <= i < line.len() implies #[trigger] line[i] != '\n' by {
        if 7 <= i < 7 + name.len() {
            assert(line[i] == name[i - 7]);
        } else if i > 7 + name.len() {
            assert(line[i] == word[i - 8 - name.len()]);
        }
    }
}

/// Reading a text whose first line is given.
proof fn lemma_first_line(line: Seq<char>, rest: Seq<char>, before: nat, read: Exposition)
    requires
        is_one_line(line),
        trim(line) == line,
        line_step(line, read) is Ok,
    ensures
        read_lines(line.push('\n') + rest, before, read) == read_lines(
            rest,
            before + 1,
            line_step(line, read)->Ok_0,
        ),
{
    let s = line.push('\n') + rest;
    let n = line.len() as int;
    assert forall|j: int| 0 <= j < n implies !is_char('\n')(#[trigger] s[j]) by {
        assert(s[j] == line[j]);
    }
    lemma_index_where_is(s, is_char('\n'), n);
    assert(s.take(n) =~= line);
    assert(s.skip(n + 1) =~= rest);
}

/// An encoded sample in front of a payload is read as that sample.
pub proof fn law_sample_read_back(
    s: ScrapedSpec,
    rest: Seq<char>,
    before: nat,
    read: Exposition,
)
    requires
        is_valid_key(s.key),
        s.ts matches Some(ms) ==> 0 <= ms <= MAX_TIMESTAMP_MS,
    ensures
        read_lines(sample_line(s).push('\n') + rest, before, read) == read_lines(
            rest,
            before + 1,
            Exposition {
                samples: read.samples.push(
                    ScrapedSpec { key: s.key, value: canonical(s.value), ts: s.ts },
                ),
                metas: read.metas,
            },
        ),
{
    lemma_sample_line(s);
    lemma_first_line(sample_line(s), rest, before, read);
}

/// What the metadata lines of a metric make of the metadata read before: the
/// kind is set, and the help text too unless it is empty.
pub open spec fn with_meta(read: Exposition, name: Seq<char>, meta: MetaSpec) -> Exposition {
    let help = if meta.help.len() == 0 {
        meta_or_default(read.metas, name).help
    } else {
        meta.help
    };
    Exposition {
        samples: read.samples,
        metas: read.metas.insert(name, MetaSpec { kind: meta.kind, help }),
    }
}

/// Encoded metadata in front of a payload are read as those metadata.
pub proof fn law_meta_read_back(
    name: Seq<char>,
    meta: MetaSpec,
    rest: Seq<char>,
    before: nat,
    read: Exposition,
)
    requires
        is_metric_name(name),
        is_lasting_help(meta.help),
    ensures
        read_lines(meta_text(name, meta) + rest, before, read) == read_lines(
            rest,
            if meta.help.len() == 0 {
                before + 1
            } else {
                before + 2
            },
            with_meta(read, name, meta),
        ),
{
    let second = type_line(name, meta.kind);
    if meta.help.len() == 0 {
        lemma_type_line(name, meta.kind, read);
        lemma_first_line(second, rest, before, read);
        assert(meta_text(name, meta) + rest =~= second.push('\n') + rest);
    } else {
        let first = help_line(name, meta.help);
        lemma_help_line(name, meta.help, read);
        let next = line_step(first, read)->Ok_0;
        lemma_type_line(name, meta.kind, next);
        lemma_first_line(first, second.push('\n') + rest, before, read);
        lemma_first_line(second, rest, before + 1, next);
        assert(meta_text(name, meta) + rest =~= first.push('\n') + (second.push('\n') + rest));
        assert(line_step(second, next)->Ok_0.metas =~= with_meta(read, name, meta).metas);
    }
}

/// A piece of a payload.
pub enum Item {
    Meta(Seq<char>, MetaSpec),
    Sample(ScrapedSpec),
}

/// The item can be written and read without loss.
pub open spec fn is_lasting(item: Item) -> bool {
    match item {
        Item::Meta(name, meta) => is_metric_name(name) && is_lasting_help(meta.help),
        Item::Sample(s) => is_valid_key(s.key) && (s.ts matches Some(ms) ==> 0 <= ms
            <= MAX_TIMESTAMP_MS),
    }
}

pub open spec fn item_text(item: Item) -> Seq<char> {
    match item {
        Item::Meta(name, meta) => meta_text(name, meta),
        Item::Sample(s) => sample_line(s).push('\n'),
    }
}

/// The payload made of the items in their order.
pub open spec fn payload_text(items: Seq<Item>) -> Seq<char>
    decreases items.len(),
{
    if items.len() == 0 {
        seq![]
    } else {
        item_text(items[0]) + payload_text(items.skip(1))
    }
}

/// What the items add to what was read before.
pub open spec fn read_items(items: Seq<Item>, read: Exposition) -> Exposition
    decreases items.len(),
{
    if items.len() == 0 {
        read
    } else {
        read_items(
            items.skip(1),
            match items[0] {
                Item::Meta(name, meta) => with_meta(read, name, meta),
                Item::Sample(s) => Exposition {
                    samples: read.samples.push(
                        ScrapedSpec { key: s.key, value: canonical(s.value), ts: s.ts },
                    ),
                    metas: read.metas,
                },
            },
        )
    }
}

/// Nothing is left to read of an empty payload.
pub proof fn lemma_end_of_payload(before: nat, read: Exposition)
    ensures
        read_lines(seq![], before, read) == Ok::<Exposition, crate::textfmt::ErrorSpec>(read),
{
    let s = Seq::<char>::empty();
    assert(index_of(s, '\n') == 0);
    assert(s.take(0) =~= s);
    assert(trim(s) == s);
}

proof fn lemma_payload(items: Seq<Item>, before: nat, read: Exposition)
    requires
        forall|i: int| 0 <= i < items.len() ==> is_lasting(#[trigger] items[i]),
    ensures
        read_lines(payload_text(items), before, read) == Ok::<
            Exposition,
            crate::textfmt::ErrorSpec,
        >(read_items(items, read)),
    decreases items.len(),
{
    if items.len() == 0 {
        lemma_end_of_payload(before, read);
    } else {
        let rest = items.skip(1);
        assert forall|i: int| 0 <= i < rest.len() implies is_lasting(#[trigger] rest[i]) by {
            assert(rest[i] == items[i + 1]);
        }
        assert(is_lasting(items[0]));
        match items[0] {
            Item::Meta(name, meta) => {
                law_meta_read_back(name, meta, payload_text(rest), before, read);
                let n = if meta.help.len() == 0 {
                    before + 1
                } else {
                    before + 2
                };
                lemma_payload(rest, n, with_meta(read, name, meta));
            },
            Item::Sample(s) => {
                law_sample_read_back(s, payload_text(rest), before, read);
                let next = Exposition {
                    samples: read.samples.push(
                        ScrapedSpec { key: s.key, value: canonical(s.value), ts: s.ts },
                    ),
                    metas: read.metas,
                };
                lemma_payload(rest, before + 1, next);
            },
        }
    }
}

/// A payload of encoded samples and metadata is read as those samples, in their
/// order, and those metadata.
pub proof fn law_payload_read_back(items: Seq<Item>)
    requires
        forall|i: int| 0 <= i < items.len() ==> is_lasting(#[trigger] items[i]),
    ensures
        exposition_of(payload_text(items)) == Ok::<Exposition, crate::textfmt::ErrorSpec>(
            read_items(items, empty_exposition()),
        ),
{
    lemma_payload(items, 0, empty_exposition());
}

} // verus!
