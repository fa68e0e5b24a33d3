//! Laws of the text format's parser: a label set depends on its own characters
//! alone, and a payload is read line by line.

use vstd::prelude::*;

use crate::model::LabelPairs;
use crate::text::{index_of, is_char, lemma_index_where, lemma_index_where_is, trim};
use crate::roundtrip::lemma_end_of_payload;
use crate::textfmt::{
    empty_exposition, exposition_of, label_pairs, label_set, line_step, quoted, read_lines,
    skip_blanks, skip_separators, ErrorKindSpec, ErrorSpec, Exposition,
};

verus! {

/// The texts begin with the same `k` characters.
spec fn agree(s: Seq<char>, w: Seq<char>, k: int) -> bool {
    0 <= k <= s.len() && k <= w.len() && s.take(k) == w.take(k)
}

proof fn lemma_agree(s: Seq<char>, w: Seq<char>, k: int)
    requires
        agree(s, w, k),
    ensures
        forall|i: int| 0 <= i < k ==> #[trigger] s[i] == w[i],
        forall|i: int| 0 <= i < k ==> s[i] == #[trigger] w[i],
        forall|n: int| 0 <= n <= k ==> #[trigger] s.take(n) == w.take(n),
        forall|n: int|
            0 <= n <= k ==> agree(#[trigger] s.skip(n), w.skip(n), k - n),
{
    assert forall|i: int| 0 <= i < k implies #[trigger] s[i] == w[i] by {
        assert(s.take(k)[i] == w.take(k)[i]);
    }
    assert forall|n: int| 0 <= n <= k implies #[trigger] s.take(n) == w.take(n) by {
        assert(s.take(n) =~= w.take(n));
    }
    assert forall|n: int| 0 <= n <= k implies agree(#[trigger] s.skip(n), w.skip(n), k - n) by {
        assert(s.skip(n).take(k - n) =~= w.skip(n).take(k - n));
    }
}

proof fn lemma_separators(s: Seq<char>)
    ensures
        skip_separators(s).len() <= s.len(),
        skip_separators(s) == s.skip(s.len() - skip_separators(s).len()),
    decreases s.len(),
{
    if s.len() > 0 && (s[0] == ' ' || s[0] == ',') {
        lemma_separators(s.skip(1));
        let n = skip_separators(s).len();
        assert(s.skip(1).skip(s.len() - 1 - n) =~= s.skip(s.len() - n));
    } else {
        assert(s.skip(0) =~= s);
    }
}

proof fn lemma_same_separators(s: Seq<char>, w: Seq<char>, k: int)
    requires
        agree(s, w, k),
        skip_separators(s).len() > 0,
        s.len() - skip_separators(s).len() < k,
    ensures
        skip_separators(w) == w.skip(s.len() - skip_separators(s).len()),
    decreases s.len(),
{
    lemma_agree(s, w, k);
    if s[0] == ' ' || s[0] == ',' {
        let n = skip_separators(s).len();
        lemma_separators(s.skip(1));
        assert(agree(s.skip(1), w.skip(1), k - 1));
        lemma_same_separators(s.skip(1), w.skip(1), k - 1);
        assert(w.skip(1).skip(s.len() - 1 - n) =~= w.skip(s.len() - n));
    } else {
        assert(w.skip(0) =~= w);
    }
}

proof fn lemma_blanks(s: Seq<char>)
    ensures
        skip_blanks(s).len() <= s.len(),
        skip_blanks(s) == s.skip(s.len() - skip_blanks(s).len()),
    decreases s.len(),
{
    if s.len() > 0 && s[0] == ' ' {
        lemma_blanks(s.skip(1));
        let n = skip_blanks(s).len();
        assert(s.skip(1).skip(s.len() - 1 - n) =~= s.skip(s.len() - n));
    } else {
        assert(s.skip(0) =~= s);
    }
}

proof fn lemma_same_blanks(s: Seq<char>, w: Seq<char>, k: int)
    requires
        agree(s, w, k),
        skip_blanks(s).len() > 0,
        s.len() - skip_blanks(s).len() < k,
    ensures
        skip_blanks(w) == w.skip(s.len() - skip_blanks(s).len()),
    decreases s.len(),
{
    lemma_agree(s, w, k);
    if s[0] == ' ' {
        let n = skip_blanks(s).len();
        lemma_blanks(s.skip(1));
        assert(agree(s.skip(1), w.skip(1), k - 1));
        lemma_same_blanks(s.skip(1), w.skip(1), k - 1);
        assert(w.skip(1).skip(s.len() - 1 - n) =~= w.skip(s.len() - n));
    } else {
        assert(w.skip(0) =~= w);
    }
}

proof fn lemma_quoted(s: Seq<char>, seen: Seq<char>)
    ensures
        quoted(s, seen) matches Ok((_, rest)) ==> rest.len() < s.len() && rest == s.skip(
            s.len() - rest.len(),
        ),
    decreases s.len(),
{
    if s.len() > 0 && s[0] != '"' {
        if s[0] != '\\' {
            lemma_quoted(s.skip(1), seen.push(s[0]));
            if let Ok((_, rest)) = quoted(s, seen) {
                assert(s.skip(1).skip(s.len() - 1 - rest.len()) =~= s.skip(s.len() - rest.len()));
            }
        } else if s.len() > 1 {
            lemma_quoted(s.skip(2), seen.push('\n'));
            lemma_quoted(s.skip(2), seen.push(s[1]));
            if let Ok((_, rest)) = quoted(s, seen) {
                assert(s.skip(2).skip(s.len() - 2 - rest.len()) =~= s.skip(s.len() - rest.len()));
            }
        }
    }
}

proof fn lemma_same_quoted(s: Seq<char>, w: Seq<char>, seen: Seq<char>)
    requires
        quoted(s, seen) matches Ok((_, rest)) && agree(s, w, s.len() - rest.len()),
    ensures
        quoted(s, seen) matches Ok((v, rest)) && quoted(w, seen) == Ok::<
            (Seq<char>, Seq<char>),
            ErrorKindSpec,
        >((v, w.skip(s.len() - rest.len()))),
    decreases s.len(),
{
    let (v, rest) = quoted(s, seen)->Ok_0;
    let k = s.len() - rest.len();
    lemma_quoted(s, seen);
    lemma_agree(s, w, k);
    if s[0] == '"' {
    } else if s[0] != '\\' {
        lemma_quoted(s.skip(1), seen.push(s[0]));
        assert(agree(s.skip(1), w.skip(1), k - 1));
        lemma_same_quoted(s.skip(1), w.skip(1), seen.push(s[0]));
        assert(w.skip(1).skip(k - 1) =~= w.skip(k));
    } else {
        let next = if s[1] == 'n' {
            seen.push('\n')
        } else {
            seen.push(s[1])
        };
        lemma_quoted(s.skip(2), next);
        assert(agree(s.skip(2), w.skip(2), k - 2));
        lemma_same_quoted(s.skip(2), w.skip(2), next);
        assert(w.skip(2).skip(k - 2) =~= w.skip(k));
    }
}

/// What follows a label set is what the text holds behind a closing brace.
proof fn lemma_label_pairs(s: Seq<char>, seen: LabelPairs)
    ensures
        label_pairs(s, seen) matches Ok((_, rest)) ==> rest.len() < s.len() && rest == s.skip(
            s.len() - rest.len(),
        ) && s[s.len() - rest.len() - 1] == '}',
    decreases s.len(),
{
    let t = skip_separators(s);
    let n = s.len() - t.len();
    lemma_separators(s);
    if let Ok((_, rest)) = label_pairs(s, seen) {
        if t[0] == '}' {
            assert(s[n] == t[0]);
            assert(t.skip(1) =~= s.skip(n + 1));
        } else {
            let e = index_of(t, '=');
            lemma_index_where(t, is_char('='));
            let name = trim(t.take(e));
            let after = t.skip(e + 1);
            let u = skip_blanks(after);
            lemma_blanks(after);
            lemma_quoted(u.skip(1), seq![]);
            let (value, mid) = quoted(u.skip(1), seq![])->Ok_0;
            lemma_label_pairs(mid, seen.push((name, value)));
            let m = s.len() - mid.len();
            assert(mid =~= s.skip(m));
            assert(mid[mid.len() - rest.len() - 1] == s[s.len() - rest.len() - 1]);
            assert(mid.skip(mid.len() - rest.len()) =~= s.skip(s.len() - rest.len()));
        }
    }
}

proof fn lemma_same_label_pairs(s: Seq<char>, w: Seq<char>, seen: LabelPairs)
    requires
        label_pairs(s, seen) matches Ok((_, rest)) && agree(s, w, s.len() - rest.len()),
    ensures
        label_pairs(s, seen) matches Ok((p, rest)) && label_pairs(w, seen) == Ok::<
            (LabelPairs, Seq<char>),
            ErrorKindSpec,
        >((p, w.skip(s.len() - rest.len()))),
    decreases s.len(),
{
    let (p, rest) = label_pairs(s, seen)->Ok_0;
    let k = s.len() - rest.len();
    let t = skip_separators(s);
    let n = s.len() - t.len();
    lemma_label_pairs(s, seen);
    lemma_separators(s);
    lemma_agree(s, w, k);
    if t[0] == '}' {
        lemma_same_separators(s, w, k);
        let t2 = skip_separators(w);
        assert(t2[0] == w[n] && t[0] == s[n]);
        assert(t2.skip(1) =~= w.skip(k));
    } else {
        let e = index_of(t, '=');
        lemma_index_where(t, is_char('='));
        let name = trim(t.take(e));
        let after = t.skip(e + 1);
        let u = skip_blanks(after);
        let b = after.len() - u.len();
        lemma_blanks(after);
        lemma_quoted(u.skip(1), seq![]);
        let (value, mid) = quoted(u.skip(1), seq![])->Ok_0;
        let q = u.len() - 1 - mid.len();
        lemma_label_pairs(mid, seen.push((name, value)));
        let m = n + e + 1 + b + 1 + q;
        assert(m == s.len() - mid.len());
        assert(m < k);
        lemma_same_separators(s, w, k);
        let t2 = skip_separators(w);
        assert(agree(t, t2, k - n));
        lemma_agree(t, t2, k - n);
        assert forall|j: int| 0 <= j < e implies !is_char('=')(#[trigger] t2[j]) by {
            assert(t[j] == t2[j]);
        }
        assert(t2[e] == t[e]);
        lemma_index_where_is(t2, is_char('='), e);
        assert(t2[0] == t[0]);
        let after2 = t2.skip(e + 1);
        assert(agree(after, after2, k - n - e - 1));
        lemma_agree(after, after2, k - n - e - 1);
        lemma_same_blanks(after, after2, k - n - e - 1);
        let u2 = skip_blanks(after2);
        assert(agree(u, u2, k - n - e - 1 - b));
        lemma_agree(u, u2, k - n - e - 1 - b);
        assert(u2[0] == u[0]);
        assert(agree(u.skip(1), u2.skip(1), k - n - e - 2 - b));
        lemma_agree(u.skip(1), u2.skip(1), k - n - e - 2 - b);
        assert(u.skip(1).take(q) == u2.skip(1).take(q));
        lemma_same_quoted(u.skip(1), u2.skip(1), seq![]);
        let mid2 = u2.skip(1).skip(q);
        assert(mid2 =~= w.skip(m));
        assert(mid =~= s.skip(m));
        assert(agree(mid, mid2, k - m));
        lemma_same_label_pairs(mid, mid2, seen.push((name, value)));
        assert(mid2.skip(k - m) =~= w.skip(k));
    }
}

/// Label pairs that are read depend on the characters up to their closing brace
/// alone: these in front of any other text are read as the same pairs, and that
/// text follows them.
pub proof fn law_label_pairs_end_with_the_brace(s: Seq<char>, seen: LabelPairs, t: Seq<char>)
    requires
        label_pairs(s, seen) is Ok,
    ensures
        ({
            let (pairs, rest) = label_pairs(s, seen)->Ok_0;
            let k = s.len() - rest.len();
            &&& 1 <= k <= s.len()
            &&& s[k - 1] == '}'
            &&& s.skip(k) == rest
            &&& label_pairs(s.take(k) + t, seen) == Ok::<(LabelPairs, Seq<char>), ErrorKindSpec>(
                (pairs, t),
            )
        }),
{
    let (pairs, rest) = label_pairs(s, seen)->Ok_0;
    let k = s.len() - rest.len();
    let w = s.take(k) + t;
    lemma_label_pairs(s, seen);
    assert(w.take(k) =~= s.take(k));
    lemma_same_label_pairs(s, w, seen);
    assert(w.skip(k) =~= t);
}

/// The same holds of the label set that the pairs make.
pub proof fn law_label_set_ends_with_the_brace(s: Seq<char>, t: Seq<char>)
    requires
        s.len() > 0 && s[0] == '{',
        label_set(s) is Ok,
    ensures
        ({
            let (labels, rest) = label_set(s)->Ok_0;
            let k = s.len() - rest.len();
            &&& 2 <= k <= s.len()
            &&& s[k - 1] == '}'
            &&& s.skip(k) == rest
            &&& label_set(s.take(k) + t) == Ok::<(LabelPairs, Seq<char>), ErrorKindSpec>(
                (labels, t),
            )
        }),
{
    let inner = s.skip(1);
    let (_, rest) = label_set(s)->Ok_0;
    let k = s.len() - rest.len();
    law_label_pairs_end_with_the_brace(inner, seq![], t);
    let w = s.take(k) + t;
    assert(w.skip(1) =~= inner.take(k - 1) + t);
    assert(inner.skip(k - 1) =~= s.skip(k));
    assert(inner[k - 2] == s[k - 1]);
}

/// The number of line feeds of a text.
pub open spec fn feeds(s: Seq<char>) -> nat
    decreases s.len(),
{
    let i = index_of(s, '\n');
    if 0 <= i < s.len() {
        1 + feeds(s.skip(i + 1))
    } else {
        0
    }
}

/// The text is made of whole lines.
pub open spec fn is_whole_lines(s: Seq<char>) -> bool {
    s.len() > 0 ==> s.last() == '\n'
}

/// `whole` is what `base` becomes by what is read as `part` alone: the samples
/// follow those of `base`, and the metadata of a name that only one of the two
/// has are those of that one.
pub open spec fn extends(base: Exposition, whole: Exposition, part: Exposition) -> bool {
    &&& whole.samples == base.samples + part.samples
    &&& whole.metas.dom() == base.metas.dom() + part.metas.dom()
    &&& forall|n: Seq<char>| #[trigger]
        whole.metas.dom().contains(n) && !part.metas.dom().contains(n) ==> whole.metas[n]
            == base.metas[n]
    &&& forall|n: Seq<char>| #[trigger]
        whole.metas.dom().contains(n) && !base.metas.dom().contains(n) ==> whole.metas[n]
            == part.metas[n]
}

proof fn lemma_step_extends(line: Seq<char>, base: Exposition, whole: Exposition, part: Exposition)
    requires
        extends(base, whole, part),
    ensures
        match (line_step(line, whole), line_step(line, part)) {
            (Ok(x), Ok(y)) => extends(base, x, y),
            (Err(e), Err(f)) => e == f,
            _ => false,
        },
{
    if let (Ok(x), Ok(y)) = (line_step(line, whole), line_step(line, part)) {
        assert(x.samples =~= base.samples + y.samples);
        assert(x.metas.dom() =~= base.metas.dom() + y.metas.dom());
    }
}

proof fn lemma_run_extends(
    s: Seq<char>,
    before: nat,
    n: nat,
    base: Exposition,
    whole: Exposition,
    part: Exposition,
)
    requires
        extends(base, whole, part),
    ensures
        match (read_lines(s, before, whole), read_lines(s, n, part)) {
            (Ok(x), Ok(y)) => extends(base, x, y),
            (Err(e), Err(f)) => e.kind == f.kind && e.line - before == f.line - n,
            _ => false,
        },
    decreases s.len(),
{
    let i = index_of(s, '\n');
    let line = trim(s.take(i));
    lemma_step_extends(line, base, whole, part);
    if let (Ok(x), Ok(y)) = (line_step(line, whole), line_step(line, part)) {
        if 0 <= i < s.len() {
            lemma_run_extends(s.skip(i + 1), before + 1, n + 1, base, x, y);
        }
    }
}

proof fn lemma_lines_in_a_row(a: Seq<char>, b: Seq<char>, before: nat, read: Exposition)
    requires
        is_whole_lines(a),
    ensures
        read_lines(a + b, before, read) == match read_lines(a, before, read) {
            Ok(x) => read_lines(b, before + feeds(a), x),
            Err(e) => Err(e),
        },
        read_lines(a, before, read) matches Err(e) ==> before < e.line <= before + feeds(a),
    decreases a.len(),
{
    if a.len() == 0 {
        assert(a =~= seq![]);
        assert(a + b =~= b);
        lemma_end_of_payload(before, read);
        lemma_index_where(a, is_char('\n'));
    } else {
        let s = a + b;
        let i = index_of(a, '\n');
        lemma_index_where(a, is_char('\n'));
        if i >= a.len() {
            assert(!is_char('\n')(a[a.len() - 1]));
        }
        assert forall|j: int| 0 <= j < i implies !is_char('\n')(#[trigger] s[j]) by {
            assert(s[j] == a[j]);
        }
        assert(s[i] == a[i]);
        lemma_index_where_is(s, is_char('\n'), i);
        assert(s.take(i) =~= a.take(i));
        let rest = a.skip(i + 1);
        assert(s.skip(i + 1) =~= rest + b);
        if rest.len() > 0 {
            assert(rest.last() == a.last());
        }
        if let Ok(next) = line_step(trim(a.take(i)), read) {
            lemma_lines_in_a_row(rest, b, before + 1, next);
        }
    }
}

/// A payload of whole lines in front of another one: the first refusal counts,
/// with its line in the whole, and what is read of the first is extended by what
/// is read of the second.
pub proof fn law_payloads_in_a_row(a: Seq<char>, b: Seq<char>)
    requires
        is_whole_lines(a),
    ensures
        match (exposition_of(a), exposition_of(b)) {
            (Err(e), _) => exposition_of(a + b) == Err::<Exposition, ErrorSpec>(e),
            (Ok(_), Err(e)) => exposition_of(a + b) == Err::<Exposition, ErrorSpec>(
                ErrorSpec { line: e.line + feeds(a), kind: e.kind },
            ),
            (Ok(x), Ok(y)) => exposition_of(a + b) matches Ok(z) && extends(x, z, y),
        },
{
    lemma_lines_in_a_row(a, b, 0, empty_exposition());
    if let Ok(x) = exposition_of(a) {
        assert(x.samples + Seq::empty() =~= x.samples);
        assert(x.metas.dom() + Set::empty() =~= x.metas.dom());
        assert(empty_exposition().metas.dom() =~= Set::empty());
        lemma_run_extends(b, feeds(a), 0, x, x, empty_exposition());
    }
}

/// A further line adds to a payload what it says: it is read after all lines
/// before it, and an error names the line.
pub proof fn law_line_behind_others(a: Seq<char>, s: Seq<char>)
    requires
        is_whole_lines(a),
        !s.contains('\n'),
        exposition_of(a) is Ok,
    ensures
        exposition_of(a + s) == match line_step(trim(s), exposition_of(a)->Ok_0) {
            Ok(x) => Ok(x),
            Err(kind) => Err(ErrorSpec { line: feeds(a) + 1, kind }),
        },
{
    lemma_lines_in_a_row(a, s, 0, empty_exposition());
    lemma_index_where(s, is_char('\n'));
    let i = index_of(s, '\n');
    if i < s.len() {
        assert(s[i] == '\n');
        assert(s.contains('\n'));
    }
    assert(s.take(s.len() as int) =~= s);
}

/// An error depends on the lines up to the one that it names alone: whatever
/// follows these, the error is the same.
pub proof fn law_error_depends_on_the_lines_before(a: Seq<char>, b: Seq<char>, c: Seq<char>)
    requires
        is_whole_lines(a),
        exposition_of(a + b) matches Err(e) && e.line <= feeds(a),
    ensures
        exposition_of(a) == exposition_of(a + b),
        exposition_of(a + c) == exposition_of(a + b),
{
    law_payloads_in_a_row(a, b);
    law_payloads_in_a_row(a, c);
    if exposition_of(a) is Ok {
        lemma_error_line(b, 0, empty_exposition());
    }
}

proof fn lemma_error_line(s: Seq<char>, before: nat, read: Exposition)
    ensures
        read_lines(s, before, read) matches Err(e) ==> e.line > before,
    decreases s.len(),
{
    let i = index_of(s, '\n');
    if let Ok(next) = line_step(trim(s.take(i)), read) {
        if 0 <= i < s.len() {
            lemma_error_line(s.skip(i + 1), before + 1, next);
        }
    }
}

} // verus!
