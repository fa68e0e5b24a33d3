//! Laws of the answers: what is listed, and the JSON text in which it is written.

use vstd::prelude::*;
use vstd::utf8::{decode_utf8, encode_utf8, valid_utf8};

use crate::api::{
    all_series_json, info_json, infos_json, labels_json, labels_members, labels_object,
    labels_reply, list_json, list_reply, metric_param, point_json, points_json, push_reply,
    query_json, query_reply, respond, self_text, series_json, strings_json, AppSpec,
};
use crate::dashboard::PAGE;
use crate::decimal::{is_finite, law_number_text_read_back, number_bits};
use crate::http::server::response_bytes;
use crate::http::{
    empty_response, error_response, error_status, html_response, json_response, param_value, reason,
    text_response, HttpErrorSpec, Method, ParamPairs, RequestSpec, ResponseSpec,
};
use crate::json::{
    escaped, joined, json_array, json_number, json_object, json_string, law_escaped, member,
    unescaped,
};
use crate::model::{is_metric_name, kind_text, Key, LabelPairs, MetaSpec, MetricKind, Point};
use crate::numeral::{as_signed, int_text};
use crate::order::{lemma_text_order, text_order};
use crate::query_laws::{is_first_value, law_first_parameter_counts};
use crate::sorted::{is_sorted, keys_of, lemma_items_of, lemma_listing_of, map_of};
use crate::storage::{
    has_label, label_index, metric_index, metric_names, pushed, RangeSpec, StoreSpec,
};
use crate::textfmt::{error_text, exposition_of};

verus! {

/// A metric has a series.
pub open spec fn has_series(series: Map<Key, Seq<Point>>, n: Seq<char>) -> bool {
    exists|l: LabelPairs| #[trigger] series.dom().contains((n, l))
}

/// The metric names are those of the series.
pub proof fn law_metric_names(series: Map<Key, Seq<Point>>, n: Seq<char>)
    ensures
        metric_names(series).contains(n) <==> has_series(series, n),
{
    if metric_names(series).contains(n) {
        let k = choose|k: Key| series.dom().contains(k) && k.0 == n;
        assert(k == (n, k.1));
        assert(series.dom().contains((n, k.1)));
    }
    if has_series(series, n) {
        let l = choose|l: LabelPairs| #[trigger] series.dom().contains((n, l));
        let k = (n, l);
        assert(k.0 == n);
    }
}

/// Every metric with a series is listed and no other, with its kind and help
/// text, or none where none are known, and the number of its series.
pub proof fn law_listed_metrics(store: StoreSpec, n: Seq<char>)
    ensures
        ({
            let index = metric_index(store);
            &&& index.dom().contains(n) <==> has_series(store.series, n)
            &&& index.dom().contains(n) ==> {
                &&& store.metas.dom().contains(n) ==> index[n].0 == store.metas[n]
                &&& !store.metas.dom().contains(n) ==> index[n].0.kind == MetricKind::Untyped
                    && index[n].0.help.len() == 0
                &&& index[n].1 == store.series.dom().filter(|k: Key| k.0 == n).len()
            }
        }),
{
    law_metric_names(store.series, n);
    assert(store.series.dom().filter(|k: Key| k.0 == n) =~= store.series.dom().filter(
        crate::storage::has_name(n),
    ));
}

/// Some series of the metric carries the label.
pub open spec fn carries(
    series: Map<Key, Seq<Point>>,
    metric: Seq<char>,
    n: Seq<char>,
    v: Seq<char>,
) -> bool {
    exists|l: LabelPairs| #[trigger] series.dom().contains((metric, l)) && l.contains((n, v))
}

/// Every label of every series of the metric is listed, and no other.
pub proof fn law_listed_labels(
    series: Map<Key, Seq<Point>>,
    metric: Seq<char>,
    n: Seq<char>,
    v: Seq<char>,
)
    ensures
        ({
            let index = label_index(series, metric);
            &&& carries(series, metric, n, v) ==> index.dom().contains(n) && index[n].contains(v)
            &&& index.dom().contains(n) && index[n].contains(v) ==> carries(series, metric, n, v)
            &&& index.dom().contains(n) ==> exists|w: Seq<char>| #[trigger] index[n].contains(w)
        }),
{
    let index = label_index(series, metric);
    if carries(series, metric, n, v) {
        assert(has_label(series, metric, n, v));
    }
    if index.dom().contains(n) {
        let w = choose|w: Seq<char>| has_label(series, metric, n, w);
        assert(index[n].contains(w));
    }
}

/// Items are written in a row with a comma between each two.
pub proof fn law_joined(a: Seq<Seq<char>>, b: Seq<Seq<char>>, x: Seq<char>)
    ensures
        joined(seq![]) == Seq::<char>::empty(),
        joined(seq![x]) == x,
        a.len() > 0 && b.len() > 0 ==> joined(a + b) == joined(a) + seq![','] + joined(b),
    decreases b.len(),
{
    if a.len() > 0 && b.len() > 0 {
        let c = a + b;
        assert(c.drop_last() =~= a + b.drop_last());
        assert(c.last() == b.last());
        if b.len() == 1 {
            assert(c.drop_last() =~= a);
            assert(b[0] == b.last());
        } else {
            law_joined(a, b.drop_last(), x);
            assert(joined(c) =~= joined(a) + seq![','] + joined(b));
        }
    }
}

/// A JSON string is its text between quotes, escaped so that it can be read back
/// and holds no bare quote.
pub proof fn law_json_string(s: Seq<char>)
    ensures
        ({
            let t = json_string(s);
            let e = t.subrange(1, t.len() - 1);
            &&& t.len() >= 2 && t[0] == '"' && t.last() == '"'
            &&& unescaped(e) == s
            &&& forall|i: int|
                0 <= i < e.len() && #[trigger] e[i] == '"' ==> i > 0 && e[i - 1] == '\\'
        }),
{
    let t = json_string(s);
    law_escaped(s);
    assert(t.subrange(1, t.len() - 1) =~= escaped(s));
}

/// A JSON number is read back as the number; what is no finite number is null.
pub proof fn law_json_number(bits: u64)
    ensures
        is_finite(bits) ==> number_bits(json_number(bits)) == Some(bits),
        !is_finite(bits) ==> json_number(bits) == "null"@,
{
    if is_finite(bits) {
        law_number_text_read_back(bits);
    }
}

/// A text that needs no escapes.
proof fn lemma_plain(s: Seq<char>)
    requires
        forall|i: int| 0 <= i < s.len() ==> #[trigger] s[i] >= ' ' && s[i] != '"' && s[i] != '\\',
    ensures
        json_string(s) == seq!['"'] + s + seq!['"'],
    decreases s.len(),
{
    lemma_plain_escaped(s);
}

proof fn lemma_plain_escaped(s: Seq<char>)
    requires
        forall|i: int| 0 <= i < s.len() ==> #[trigger] s[i] >= ' ' && s[i] != '"' && s[i] != '\\',
    ensures
        escaped(s) == s,
    decreases s.len(),
{
    if s.len() > 0 {
        let t = s.skip(1);
        assert forall|i: int| 0 <= i < t.len() implies #[trigger] t[i] >= ' ' && t[i] != '"' && t[i]
            != '\\' by {
            assert(t[i] == s[i + 1]);
        }
        lemma_plain_escaped(t);
        assert(seq![s[0]] + t =~= s);
    }
}

/// Two items in a row.
proof fn lemma_two(a: Seq<char>, b: Seq<char>)
    ensures
        joined(seq![a, b]) == a + seq![','] + b,
{
    reveal_with_fuel(joined, 2);
    assert(seq![a, b].drop_last() =~= seq![a]);
}

/// Four items in a row.
proof fn lemma_four(a: Seq<char>, b: Seq<char>, c: Seq<char>, d: Seq<char>)
    ensures
        joined(seq![a, b, c, d]) == a + seq![','] + b + seq![','] + c + seq![','] + d,
{
    lemma_two(a, b);
    assert(seq![a, b, c].drop_last() =~= seq![a, b]);
    assert(seq![a, b, c, d].drop_last() =~= seq![a, b, c]);
    assert(joined(seq![a, b, c]) == joined(seq![a, b]) + seq![','] + c);
    assert(joined(seq![a, b, c, d]) == joined(seq![a, b, c]) + seq![','] + d);
}

/// The list of metrics is one object, in which each metric is written with its
/// name, kind, help text and number of series.
pub proof fn law_list_text(s: Seq<(Seq<char>, (MetaSpec, nat))>)
    ensures
        list_json(s) == "{\"metrics\":["@ + joined(infos_json(s)) + "]}"@,
        infos_json(s).len() == s.len(),
        forall|i: int|
            0 <= i < s.len() && s[i].1.1 <= i64::MAX ==> #[trigger] infos_json(s)[i]
                == "{\"name\":"@ + json_string(s[i].0) + ",\"kind\":"@ + json_string(
                kind_text(s[i].1.0.kind),
            ) + ",\"help\":"@ + json_string(s[i].1.0.help) + ",\"series\":"@ + int_text(
                s[i].1.1 as int,
            ) + "}"@,
{
    reveal_strlit("metrics");
    reveal_strlit("{\"metrics\":[");
    reveal_strlit("]}");
    lemma_plain("metrics"@);
    let items = json_array(infos_json(s));
    let one = member("metrics"@, items);
    reveal_with_fuel(joined, 2);
    assert(joined(seq![one]) == one);
    assert(list_json(s) =~= "{\"metrics\":["@ + joined(infos_json(s)) + "]}"@);
    assert forall|i: int| 0 <= i < s.len() && s[i].1.1 <= i64::MAX implies #[trigger] infos_json(
        s,
    )[i] == "{\"name\":"@ + json_string(s[i].0) + ",\"kind\":"@ + json_string(
        kind_text(s[i].1.0.kind),
    ) + ",\"help\":"@ + json_string(s[i].1.0.help) + ",\"series\":"@ + int_text(s[i].1.1 as int)
        + "}"@ by {
        lemma_info_text(s[i]);
    }
}

#[verifier::spinoff_prover]
#[verifier::rlimit(40)]
proof fn lemma_info_text(e: (Seq<char>, (MetaSpec, nat)))
    requires
        e.1.1 <= i64::MAX,
    ensures
        info_json(e) == "{\"name\":"@ + json_string(e.0) + ",\"kind\":"@ + json_string(
            kind_text(e.1.0.kind),
        ) + ",\"help\":"@ + json_string(e.1.0.help) + ",\"series\":"@ + int_text(e.1.1 as int)
            + "}"@,
{
    reveal_strlit("name");
    reveal_strlit("kind");
    reveal_strlit("help");
    reveal_strlit("series");
    reveal_strlit("{\"name\":");
    reveal_strlit(",\"kind\":");
    reveal_strlit(",\"help\":");
    reveal_strlit(",\"series\":");
    reveal_strlit("}");
    lemma_plain("name"@);
    lemma_plain("kind"@);
    lemma_plain("help"@);
    lemma_plain("series"@);
    let (name, kind, help) = (
        json_string(e.0),
        json_string(kind_text(e.1.0.kind)),
        json_string(e.1.0.help),
    );
    let count = int_text(e.1.1 as int);
    assert(as_signed(e.1.1) == e.1.1);
    lemma_four(
        member("name"@, name),
        member("kind"@, kind),
        member("help"@, help),
        member("series"@, count),
    );
    assert(info_json(e) =~= "{\"name\":"@ + name + ",\"kind\":"@ + kind + ",\"help\":"@ + help
        + ",\"series\":"@ + count + "}"@);
}

/// The answer with the list of metrics lists them all by name.
pub proof fn law_list_answer(store: StoreSpec, listing: Seq<(Seq<char>, (MetaSpec, nat))>)
    requires
        is_sorted(keys_of(listing), text_order()),
        map_of(listing) == metric_index(store),
    ensures
        list_reply(store) == json_response(200, list_json(listing)),
{
    reveal(list_reply);
    lemma_text_order();
    lemma_listing_of(listing, text_order());
}

/// The answer with the labels of a metric holds each label name with all its
/// values, both in order.
#[verifier::spinoff_prover]
#[verifier::rlimit(40)]
pub proof fn law_labels_text(
    metric: Seq<char>,
    listing: Seq<(Seq<char>, Set<Seq<char>>)>,
    values: Seq<Seq<Seq<char>>>,
)
    requires
        is_sorted(keys_of(listing), text_order()),
        values.len() == listing.len(),
        forall|i: int|
            0 <= i < values.len() ==> is_sorted(#[trigger] values[i], text_order()) && forall|
                v: Seq<char>,
            | #[trigger]
                values[i].contains(v) <==> listing[i].1.contains(v),
    ensures
        labels_json(metric, map_of(listing)) == "{\"metric\":"@ + json_string(metric)
            + ",\"labels\":{"@ + joined(labels_members(listing)) + "}}"@,
        labels_members(listing).len() == listing.len(),
        forall|i: int|
            0 <= i < listing.len() ==> #[trigger] labels_members(listing)[i] == json_string(
                listing[i].0,
            ) + ":["@ + joined(strings_json(values[i])) + "]"@,
        forall|i: int|
            0 <= i < listing.len() ==> (#[trigger] strings_json(values[i])).len() == values[i].len(),
        forall|i: int, j: int|
            0 <= i < listing.len() && 0 <= j < values[i].len() ==> #[trigger] strings_json(
                values[i],
            )[j] == json_string(values[i][j]),
{
    reveal_strlit("metric");
    reveal_strlit("labels");
    reveal_strlit("{\"metric\":");
    reveal_strlit(",\"labels\":{");
    reveal_strlit("}}");
    reveal_strlit(":[");
    reveal_strlit("]");
    lemma_plain("metric"@);
    lemma_plain("labels"@);
    lemma_text_order();
    lemma_listing_of(listing, text_order());
    let inner = json_object(labels_members(listing));
    lemma_two(member("metric"@, json_string(metric)), member("labels"@, inner));
    assert(labels_json(metric, map_of(listing)) =~= "{\"metric\":"@ + json_string(metric)
        + ",\"labels\":{"@ + joined(labels_members(listing)) + "}}"@);
    assert forall|i: int| 0 <= i < listing.len() implies #[trigger] labels_members(listing)[i]
        == json_string(listing[i].0) + ":["@ + joined(strings_json(values[i])) + "]"@ by {
        assert(is_sorted(values[i], text_order()));
        lemma_items_of(values[i], listing[i].1, text_order());
        assert(labels_members(listing)[i] =~= json_string(listing[i].0) + ":["@ + joined(
            strings_json(values[i]),
        ) + "]"@);
    }
}

/// The labels are those of the metric that the first `metric` parameter names;
/// without a valid one the query is refused with status 400.
pub proof fn law_labels_answer(store: StoreSpec, params: ParamPairs)
    ensures
        forall|m: Seq<char>| #[trigger]
            is_first_value(params, "metric"@, m) && is_metric_name(m) ==> labels_reply(
                store,
                params,
            ) == json_response(200, labels_json(m, label_index(store.series, m))),
        (forall|m: Seq<char>| #[trigger]
            is_first_value(params, "metric"@, m) ==> !is_metric_name(m)) ==> labels_reply(
            store,
            params,
        ).status == 400,
{
    reveal(labels_reply);
    law_metric_parameter(params);
}

/// A query is about the metric that its first `metric` parameter names, and is
/// refused with status 400 if there is none or its name is invalid.
pub proof fn law_metric_parameter(params: ParamPairs)
    ensures
        forall|m: Seq<char>| #[trigger]
            is_first_value(params, "metric"@, m) && is_metric_name(m) ==> metric_param(params)
                == Ok::<Seq<char>, ResponseSpec>(m),
        (forall|m: Seq<char>| #[trigger]
            is_first_value(params, "metric"@, m) ==> !is_metric_name(m)) ==> (metric_param(
            params,
        ) matches Err(e) && e.status == 400),
{
    law_first_parameter_counts(params, "metric"@);
    if let Some(v) = param_value(params, "metric"@) {
        assert forall|m: Seq<char>| #[trigger] is_first_value(params, "metric"@, m) implies m
            == v by {
            crate::query_laws::lemma_first_value_unique(params, "metric"@, v, m);
        }
    }
}

/// The answer to a query is one object with the metric, the range, the step and
/// all series found; each series has all its labels and all points shown, each
/// as its timestamp and its value.
pub proof fn law_query_text(
    metric: Seq<char>,
    range: RangeSpec,
    result: Seq<(LabelPairs, Seq<Point>)>,
)
    ensures
        query_json(metric, range, result) == "{\"metric\":"@ + json_string(metric) + ",\"from\":"@
            + int_text(range.from) + ",\"to\":"@ + int_text(range.to) + ",\"step\":"@ + int_text(
            range.step,
        ) + ",\"series\":["@ + joined(all_series_json(result)) + "]}"@,
        all_series_json(result).len() == result.len(),
        forall|i: int|
            0 <= i < result.len() ==> #[trigger] all_series_json(result)[i] == "{\"labels\":{"@
                + joined(labels_object(result[i].0)) + "},\"points\":["@ + joined(
                points_json(result[i].1),
            ) + "]}"@,
        forall|l: LabelPairs| (#[trigger] labels_object(l)).len() == l.len(),
        forall|l: LabelPairs, i: int|
            0 <= i < l.len() ==> #[trigger] labels_object(l)[i] == json_string(l[i].0) + ":"@
                + json_string(l[i].1),
        forall|s: Seq<Point>| (#[trigger] points_json(s)).len() == s.len(),
        forall|s: Seq<Point>, i: int|
            0 <= i < s.len() ==> #[trigger] points_json(s)[i] == "["@ + int_text(s[i].ts) + ","@
                + json_number(s[i].value) + "]"@,
{
    lemma_query_text(metric, range, result);
    assert forall|i: int| 0 <= i < result.len() implies #[trigger] all_series_json(result)[i]
        == "{\"labels\":{"@ + joined(labels_object(result[i].0)) + "},\"points\":["@ + joined(
        points_json(result[i].1),
    ) + "]}"@ by {
        lemma_series_text(result[i]);
    }
    assert forall|l: LabelPairs, i: int| 0 <= i < l.len() implies #[trigger] labels_object(l)[i]
        == json_string(l[i].0) + ":"@ + json_string(l[i].1) by {
        reveal_strlit(":");
        assert(labels_object(l)[i] =~= json_string(l[i].0) + ":"@ + json_string(l[i].1));
    }
    assert forall|s: Seq<Point>, i: int| 0 <= i < s.len() implies #[trigger] points_json(s)[i]
        == "["@ + int_text(s[i].ts) + ","@ + json_number(s[i].value) + "]"@ by {
        reveal_strlit("[");
        reveal_strlit(",");
        reveal_strlit("]");
        lemma_two(int_text(s[i].ts), json_number(s[i].value));
        assert(point_json(s[i]) =~= "["@ + int_text(s[i].ts) + ","@ + json_number(s[i].value)
            + "]"@);
    }
}

proof fn lemma_series_text(e: (LabelPairs, Seq<Point>))
    ensures
        series_json(e) == "{\"labels\":{"@ + joined(labels_object(e.0)) + "},\"points\":["@
            + joined(points_json(e.1)) + "]}"@,
{
    let (x, y) = (joined(labels_object(e.0)), joined(points_json(e.1)));
    let (one, two) = (
        member("labels"@, seq!['{'] + x + seq!['}']),
        member("points"@, seq!['['] + y + seq![']']),
    );
    let (s, t) = (seq!['{', '"'] + "labels"@ + seq!['"', ':'], seq![',', '"'] + "points"@ + seq![
        '"',
        ':',
    ]);
    lemma_two(one, two);
    assert(series_json(e) =~= (seq!['{'] + one) + (seq![','] + two) + seq!['}']);
    assert(seq!['{'] + one == s + (seq!['{'] + x + seq!['}'])) by {
        reveal_strlit("labels");
        lemma_member(seq!['{'], "labels"@, seq!['{'] + x + seq!['}'], s);
    }
    assert(seq![','] + two == t + (seq!['['] + y + seq![']'])) by {
        reveal_strlit("points");
        lemma_member(seq![','], "points"@, seq!['['] + y + seq![']'], t);
    }
    lemma_between(s, seq!['{'], x, seq!['}'], t, seq!['['], y, seq![']'], seq!['}']);
    assert(s + seq!['{'] == "{\"labels\":{"@) by {
        reveal_strlit("labels");
        reveal_strlit("{\"labels\":{");
        assert(s + seq!['{'] =~= "{\"labels\":{"@);
    }
    assert(seq!['}'] + t + seq!['['] == "},\"points\":["@) by {
        reveal_strlit("points");
        reveal_strlit("},\"points\":[");
        assert(seq!['}'] + t + seq!['['] =~= "},\"points\":["@);
    }
    assert(seq![']'] + seq!['}'] == "]}"@) by {
        reveal_strlit("]}");
        assert(seq![']'] + seq!['}'] =~= "]}"@);
    }
}

proof fn lemma_between(
    s: Seq<char>,
    a: Seq<char>,
    x: Seq<char>,
    b: Seq<char>,
    t: Seq<char>,
    c: Seq<char>,
    y: Seq<char>,
    d: Seq<char>,
    e: Seq<char>,
)
    ensures
        (s + (a + x + b)) + (t + (c + y + d)) + e == (s + a) + x + (b + t + c) + y + (d + e),
{
    assert((s + (a + x + b)) + (t + (c + y + d)) + e =~= (s + a) + x + (b + t + c) + y + (d + e));
}

/// A member with a plain name, behind what stands before it.
proof fn lemma_member(before: Seq<char>, name: Seq<char>, value: Seq<char>, text: Seq<char>)
    requires
        forall|i: int|
            0 <= i < name.len() ==> #[trigger] name[i] >= ' ' && name[i] != '"' && name[i] != '\\',
        text =~= before + seq!['"'] + name + seq!['"', ':'],
    ensures
        before + member(name, value) == text + value,
{
    lemma_plain(name);
    assert(before + member(name, value) =~= text + value);
}

proof fn lemma_five(a: Seq<char>, b: Seq<char>, c: Seq<char>, d: Seq<char>, e: Seq<char>)
    ensures
        json_object(seq![a, b, c, d, e]) == (seq!['{'] + a) + (seq![','] + b) + (seq![','] + c) + (
        seq![','] + d) + (seq![','] + e) + seq!['}'],
{
    lemma_four(a, b, c, d);
    assert(seq![a, b, c, d, e].drop_last() =~= seq![a, b, c, d]);
    assert(joined(seq![a, b, c, d, e]) == joined(seq![a, b, c, d]) + seq![','] + e);
    assert(json_object(seq![a, b, c, d, e]) =~= (seq!['{'] + a) + (seq![','] + b) + (seq![','] + c)
        + (seq![','] + d) + (seq![','] + e) + seq!['}']);
}

#[verifier::spinoff_prover]
#[verifier::rlimit(40)]
proof fn lemma_query_members(
    metric: Seq<char>,
    from: Seq<char>,
    to: Seq<char>,
    step: Seq<char>,
    series: Seq<char>,
)
    ensures
        seq!['{'] + member("metric"@, metric) == "{\"metric\":"@ + metric,
        seq![','] + member("from"@, from) == ",\"from\":"@ + from,
        seq![','] + member("to"@, to) == ",\"to\":"@ + to,
        seq![','] + member("step"@, step) == ",\"step\":"@ + step,
        seq![','] + member("series"@, seq!['['] + series + seq![']']) == ",\"series\":["@ + series
            + seq![']'],
{
    assert(seq!['{'] + member("metric"@, metric) == "{\"metric\":"@ + metric) by {
        reveal_strlit("metric");
        reveal_strlit("{\"metric\":");
        lemma_member(seq!['{'], "metric"@, metric, "{\"metric\":"@);
    }
    assert(seq![','] + member("from"@, from) == ",\"from\":"@ + from) by {
        reveal_strlit("from");
        reveal_strlit(",\"from\":");
        lemma_member(seq![','], "from"@, from, ",\"from\":"@);
    }
    assert(seq![','] + member("to"@, to) == ",\"to\":"@ + to) by {
        reveal_strlit("to");
        reveal_strlit(",\"to\":");
        lemma_member(seq![','], "to"@, to, ",\"to\":"@);
    }
    assert(seq![','] + member("step"@, step) == ",\"step\":"@ + step) by {
        reveal_strlit("step");
        reveal_strlit(",\"step\":");
        lemma_member(seq![','], "step"@, step, ",\"step\":"@);
    }
    let list = seq!['['] + series + seq![']'];
    assert(seq![','] + member("series"@, list) == ",\"series\":["@ + series + seq![']']) by {
        reveal_strlit("series");
        reveal_strlit(",\"series\":[");
        let t = seq![','] + seq!['"'] + "series"@ + seq!['"', ':'];
        lemma_member(seq![','], "series"@, list, t);
        assert(t + list =~= ",\"series\":["@ + series + seq![']']);
    }
}

proof fn lemma_query_text(
    metric: Seq<char>,
    range: RangeSpec,
    result: Seq<(LabelPairs, Seq<Point>)>,
)
    ensures
        query_json(metric, range, result) == "{\"metric\":"@ + json_string(metric) + ",\"from\":"@
            + int_text(range.from) + ",\"to\":"@ + int_text(range.to) + ",\"step\":"@ + int_text(
            range.step,
        ) + ",\"series\":["@ + joined(all_series_json(result)) + "]}"@,
{
    let (v1, v2, v3, v4) = (
        json_string(metric),
        int_text(range.from),
        int_text(range.to),
        int_text(range.step),
    );
    let v5 = joined(all_series_json(result));
    lemma_query_members(v1, v2, v3, v4, v5);
    lemma_five(
        member("metric"@, v1),
        member("from"@, v2),
        member("to"@, v3),
        member("step"@, v4),
        member("series"@, json_array(all_series_json(result))),
    );
    lemma_regrouped(
        "{\"metric\":"@,
        v1,
        ",\"from\":"@,
        v2,
        ",\"to\":"@,
        v3,
        ",\"step\":"@,
        v4,
        ",\"series\":["@,
        v5,
    );
}

#[verifier::spinoff_prover]
#[verifier::rlimit(40)]
proof fn lemma_regrouped(
    a: Seq<char>,
    b: Seq<char>,
    c: Seq<char>,
    d: Seq<char>,
    e: Seq<char>,
    f: Seq<char>,
    g: Seq<char>,
    h: Seq<char>,
    i: Seq<char>,
    j: Seq<char>,
)
    ensures
        (a + b) + (c + d) + (e + f) + (g + h) + (i + j + seq![']']) + seq!['}'] == a + b + c + d + e
            + f + g + h + i + j + "]}"@,
{
    reveal_strlit("]}");
    assert((a + b) + (c + d) =~= a + b + c + d);
    assert((a + b + c + d) + (e + f) =~= a + b + c + d + e + f);
    assert((a + b + c + d + e + f) + (g + h) =~= a + b + c + d + e + f + g + h);
    let k = a + b + c + d + e + f + g + h;
    assert(k + (i + j + seq![']']) + seq!['}'] =~= k + i + j + "]}"@);
}

/// An error is answered with its status and an object that holds its message.
pub proof fn law_error_text(status: u16, message: Seq<char>)
    ensures
        error_response(status, message) == json_response(
            status,
            "{\"error\":"@ + json_string(message) + "}"@,
        ),
{
    reveal_strlit("error");
    reveal_strlit("{\"error\":");
    reveal_strlit("}");
    lemma_plain("error"@);
    let one = member("error"@, json_string(message));
    reveal_with_fuel(joined, 2);
    assert(joined(seq![one]) == one);
    assert(json_object(seq![one]) =~= "{\"error\":"@ + json_string(message) + "}"@);
}

/// The paths that are served.
pub open spec fn is_served(path: Seq<char>) -> bool {
    path == "/api/push"@ || is_read(path)
}

/// The paths that are read with GET.
pub open spec fn is_read(path: Seq<char>) -> bool {
    path == "/"@ || path == "/api/metrics"@ || path == "/api/labels"@ || path == "/api/query"@
        || path == "/metrics"@
}

/// A path that is not served is answered with status 404 for every method, the
/// push path takes POST and the others GET, and the other method is answered
/// with status 405.
pub proof fn law_paths_and_methods(state: AppSpec, req: RequestSpec, now: int)
    ensures
        ({
            let (_, reply) = respond(state, req, now);
            &&& !is_served(req.path) ==> reply == error_response(404, "not found"@)
            &&& req.path == "/api/push"@ && req.method == Method::Get ==> reply == error_response(
                405,
                "use POST"@,
            )
            &&& is_read(req.path) && req.path != "/api/push"@ && req.method == Method::Post
                ==> reply == error_response(405, "method not allowed"@)
        }),
{
}

/// Each path that is read with GET has its answer: the page, the list of the
/// metrics, the labels and the samples that the query asks for, and the metrics
/// of the system itself with this request counted. None of them changes the
/// store, and every request is counted.
pub proof fn law_served_paths(state: AppSpec, req: RequestSpec, now: int)
    requires
        req.method == Method::Get,
    ensures
        ({
            let (after, reply) = respond(state, req, now);
            &&& after.store == state.store
            &&& 0 <= state.http_requests_total < u64::MAX ==> after.http_requests_total
                == state.http_requests_total + 1
            &&& req.path == "/"@ ==> is_answer(reply, 200, "text/html; charset=utf-8"@, PAGE@)
            &&& req.path == "/api/metrics"@ ==> reply == list_reply(state.store)
            &&& req.path == "/api/labels"@ ==> reply == labels_reply(state.store, req.query)
            &&& req.path == "/api/query"@ ==> reply == query_reply(state.store, req.query, now)
            &&& req.path == "/metrics"@ ==> is_answer(
                reply,
                200,
                "text/plain; charset=utf-8"@,
                self_text(after),
            )
        }),
{
    reveal_strlit("/");
    reveal_strlit("/api/push");
    reveal_strlit("/api/metrics");
    reveal_strlit("/api/labels");
    reveal_strlit("/api/query");
    reveal_strlit("/metrics");
    assert("/"@.len() == 1 && "/api/push"@.len() == 9 && "/api/metrics"@.len() == 12);
    assert("/api/labels"@.len() == 11 && "/api/query"@.len() == 10 && "/metrics"@.len() == 8);
}

/// A push is answered without content if its body can be read, and its samples
/// and metadata are taken in; otherwise the store stays and the answer, with
/// status 400, gives the line.
pub proof fn law_push_answer(state: AppSpec, req: RequestSpec, now: int)
    requires
        req.method == Method::Post,
        req.path == "/api/push"@,
    ensures
        ({
            let (after, reply) = respond(state, req, now);
            if !valid_utf8(req.body) {
                reply.status == 400 && after.store == state.store
            } else {
                match exposition_of(decode_utf8(req.body)) {
                    Ok(x) => {
                        &&& after.store == pushed(state.store, x, now)
                        &&& reply.status == 204 && reply.body.len() == 0
                    },
                    Err(e) => {
                        &&& after.store == state.store
                        &&& is_answer(
                            reply,
                            400,
                            "application/json; charset=utf-8"@,
                            "{\"error\":"@ + json_string(error_text(e)) + "}"@,
                        )
                    },
                }
            }
        }),
{
    reveal(push_reply);
    if let Err(e) = exposition_of(decode_utf8(req.body)) {
        law_error_text(400, error_text(e));
    }
}

/// The answer has the status, the type and the text.
pub open spec fn is_answer(r: ResponseSpec, status: u16, kind: Seq<char>, text: Seq<char>) -> bool {
    r.status == status && r.content_type == kind && r.body == encode_utf8(text)
}

/// Texts are answered as UTF-8, with their type, and only the empty answer has
/// no body.
pub proof fn law_answer_types(status: u16, text: Seq<char>)
    ensures
        is_answer(
            json_response(status, text),
            status,
            "application/json; charset=utf-8"@,
            text,
        ),
        is_answer(text_response(status, text), status, "text/plain; charset=utf-8"@, text),
        is_answer(html_response(text), 200, "text/html; charset=utf-8"@, text),
        empty_response().status == 204 && empty_response().body.len() == 0,
{
}

/// A response begins with the version, its status and the phrase for it, and its
/// headers give the type and the length of the body that follows them.
pub proof fn law_response_text(r: ResponseSpec)
    ensures
        response_bytes(r) == encode_utf8(
            "HTTP/1.1 "@ + int_text(r.status as int) + " "@ + reason(r.status) + "\r\n"@
                + "Content-Type: "@ + r.content_type + "\r\n"@ + "Content-Length: "@ + int_text(
                r.body.len() as int,
            ) + "\r\n"@ + "Connection: close\r\n\r\n"@,
        ) + r.body,
{
    reveal_strlit("\r\n");
    reveal_strlit("Content-Type: ");
    reveal_strlit("Content-Length: ");
    reveal_strlit("\r\nContent-Type: ");
    reveal_strlit("\r\nContent-Length: ");
    reveal_strlit("Connection: close\r\n\r\n");
    reveal_strlit("\r\nConnection: close\r\n\r\n");
    assert("\r\nContent-Type: "@ =~= "\r\n"@ + "Content-Type: "@);
    assert("\r\nContent-Length: "@ =~= "\r\n"@ + "Content-Length: "@);
    assert("\r\nConnection: close\r\n\r\n"@ =~= "\r\n"@ + "Connection: close\r\n\r\n"@);
    let a = "HTTP/1.1 "@ + int_text(r.status as int) + " "@ + reason(r.status);
    lemma_regrouped_twice(a, "\r\n"@, "Content-Type: "@, r.content_type);
    let b = a + "\r\n"@ + "Content-Type: "@ + r.content_type;
    lemma_regrouped_twice(b, "\r\n"@, "Content-Length: "@, int_text(r.body.len() as int));
    let c = b + "\r\n"@ + "Content-Length: "@ + int_text(r.body.len() as int);
    assert(c + ("\r\n"@ + "Connection: close\r\n\r\n"@) =~= c + "\r\n"@
        + "Connection: close\r\n\r\n"@);
}

proof fn lemma_regrouped_twice(a: Seq<char>, b: Seq<char>, c: Seq<char>, d: Seq<char>)
    ensures
        a + (b + c) + d == a + b + c + d,
{
    assert(a + (b + c) + d =~= a + b + c + d);
}

/// What is wrong with a request decides the status: an unsupported method 405, a
/// missing length 411, too many bytes 413, everything else 400.
pub proof fn law_error_statuses(e: HttpErrorSpec)
    ensures
        error_status(e) == 405 <==> e is UnsupportedMethod,
        error_status(e) == 411 <==> e is LengthRequired,
        error_status(e) == 413 <==> e is HeadersTooLarge || e is BodyTooLarge,
        error_status(e) == 400 || error_status(e) == 405 || error_status(e) == 411 || error_status(
            e,
        ) == 413,
{
}

} // verus!
