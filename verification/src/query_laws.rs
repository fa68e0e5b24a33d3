//! Laws of range queries: what the parameters ask for, and which samples are
//! shown.

use vstd::prelude::*;

use crate::api::{
    filter_params, metric_param, query_args, query_json, query_reply, step_param, ts_param,
};
use crate::http::{json_response, param_value, ParamPairs};
use crate::model::{
    is_label_name, is_label_set, is_metric_name, labels_order, lemma_labels_order, Key, LabelPairs,
    Point, MAX_TIMESTAMP_MS,
};
use crate::numeral::signed_value;
use crate::order::{lemma_text_order, text_order};
use crate::sorted::{is_sorted, keys_of, lemma_listing_of, lemma_map_of, map_of};
use crate::storage::{found, meets, thinned, RangeSpec, StoreSpec};
use crate::store_laws::{is_chronological, law_thinned, lemma_thinned_within};
use crate::text::starts_with;

verus! {

/// The value is that of the first parameter with the name.
pub open spec fn is_first_value(params: ParamPairs, key: Seq<char>, value: Seq<char>) -> bool {
    exists|i: int|
        0 <= i < params.len() && #[trigger] params[i] == (key, value) && forall|j: int|
            0 <= j < i ==> (#[trigger] params[j]).0 != key
}

/// No parameter has the name.
pub open spec fn is_missing(params: ParamPairs, key: Seq<char>) -> bool {
    forall|i: int| 0 <= i < params.len() ==> (#[trigger] params[i]).0 != key
}

/// Looking up a parameter finds the first one with the name, and nothing only if
/// there is none.
pub proof fn law_first_parameter_counts(params: ParamPairs, key: Seq<char>)
    ensures
        match param_value(params, key) {
            Some(v) => is_first_value(params, key, v),
            None => is_missing(params, key),
        },
    decreases params.len(),
{
    if params.len() > 0 {
        if params[0].0 == key {
            assert(params[0] == (key, params[0].1));
        } else {
            let rest = params.skip(1);
            law_first_parameter_counts(rest, key);
            assert forall|i: int| 1 <= i < params.len() implies #[trigger] params[i] == rest[i
                - 1] by {}
            match param_value(rest, key) {
                Some(v) => {
                    let i = choose|i: int|
                        0 <= i < rest.len() && #[trigger] rest[i] == (key, v) && forall|j: int|
                            0 <= j < i ==> (#[trigger] rest[j]).0 != key;
                    assert(params[i + 1] == (key, v));
                    assert forall|j: int| 0 <= j < i + 1 implies (#[trigger] params[j]).0 != key by {
                        if j > 0 {
                            assert(rest[j - 1].0 != key);
                        }
                    }
                },
                None => {
                    assert forall|i: int| 0 <= i < params.len() implies (#[trigger] params[i]).0
                        != key by {
                        if i > 0 {
                            assert(rest[i - 1].0 != key);
                        }
                    }
                },
            }
        }
    }
}

pub proof fn lemma_first_value_unique(
    params: ParamPairs,
    key: Seq<char>,
    v: Seq<char>,
    w: Seq<char>,
)
    requires
        is_first_value(params, key, v),
        is_first_value(params, key, w),
    ensures
        v == w,
{
    let i = choose|i: int|
        0 <= i < params.len() && #[trigger] params[i] == (key, v) && forall|j: int|
            0 <= j < i ==> (#[trigger] params[j]).0 != key;
    let k = choose|i: int|
        0 <= i < params.len() && #[trigger] params[i] == (key, w) && forall|j: int|
            0 <= j < i ==> (#[trigger] params[j]).0 != key;
    if i < k {
        assert(params[i].0 != key);
    } else if k < i {
        assert(params[k].0 != key);
    }
}

/// The parameter is missing or empty.
pub open spec fn is_open(params: ParamPairs, key: Seq<char>) -> bool {
    is_missing(params, key) || is_first_value(params, key, seq![])
}

/// The first parameter with the name is the numeral of the number.
pub open spec fn is_given(params: ParamPairs, key: Seq<char>, n: int) -> bool {
    exists|v: Seq<char>| #[trigger] is_first_value(params, key, v) && signed_value(v) == Some(n)
}

/// A label that the query asks for: a parameter with the name behind `label.`.
pub open spec fn asks_for(params: ParamPairs, n: Seq<char>, v: Seq<char>) -> bool {
    exists|i: int| 0 <= i < params.len() && #[trigger] params[i] == ("label."@ + n, v)
}

proof fn lemma_prefix(k: Seq<char>)
    requires
        starts_with(k, "label."@),
    ensures
        k == "label."@ + k.skip(6),
        "label."@.len() == 6,
{
    reveal_strlit("label.");
    assert(k =~= "label."@ + k.skip(6));
}

proof fn lemma_prefixed(n: Seq<char>)
    ensures
        starts_with("label."@ + n, "label."@),
        ("label."@ + n).skip(6) == n,
{
    reveal_strlit("label.");
    assert(("label."@ + n).skip(6) =~= n);
    assert(("label."@ + n).take(6) =~= "label."@);
}

/// Every label filter of a query counts: the filters are the labels that the
/// parameters ask for, all of them and no others, and they are refused only
/// where a parameter asks for a label with an invalid name.
pub proof fn law_every_filter_counts(params: ParamPairs, seen: LabelPairs)
    ensures
        match filter_params(params, seen) {
            Ok(filters) => {
                &&& forall|n: Seq<char>, v: Seq<char>| #[trigger]
                    filters.contains((n, v)) <==> seen.contains((n, v)) || asks_for(params, n, v)
                &&& forall|n: Seq<char>, v: Seq<char>| #[trigger]
                    asks_for(params, n, v) ==> is_label_name(n)
            },
            Err(e) => e.status == 400 && exists|n: Seq<char>, v: Seq<char>| #[trigger]
                asks_for(params, n, v) && !is_label_name(n),
        },
    decreases params.len(),
{
    if params.len() > 0 {
        let (k, v0) = params[0];
        let name = k.skip(6);
        let rest = params.skip(1);
        let label = starts_with(k, "label."@);
        assert forall|n: Seq<char>, v: Seq<char>|
            #![trigger asks_for(params, n, v)]
            #![trigger asks_for(rest, n, v)]
            asks_for(params, n, v) <==> asks_for(rest, n, v) || (label && n == name && v
                == v0) by {
            if asks_for(params, n, v) {
                let i = choose|i: int|
                    0 <= i < params.len() && #[trigger] params[i] == ("label."@ + n, v);
                if i == 0 {
                    lemma_prefixed(n);
                } else {
                    assert(rest[i - 1] == params[i]);
                }
            }
            if asks_for(rest, n, v) {
                let i = choose|i: int|
                    0 <= i < rest.len() && #[trigger] rest[i] == ("label."@ + n, v);
                assert(params[i + 1] == rest[i]);
            }
            if label && n == name && v == v0 {
                lemma_prefix(k);
                assert(params[0] == ("label."@ + n, v));
            }
        }
        if !label {
            law_every_filter_counts(rest, seen);
        } else if is_label_name(name) {
            let next = seen.push((name, v0));
            law_every_filter_counts(rest, next);
            assert forall|n: Seq<char>, v: Seq<char>| #[trigger]
                next.contains((n, v)) <==> seen.contains((n, v)) || (n == name && v == v0) by {
                if next.contains((n, v)) {
                    let i = choose|i: int| 0 <= i < next.len() && next[i] == (n, v);
                    if i < seen.len() {
                        assert(seen[i] == (n, v));
                    }
                }
                if seen.contains((n, v)) {
                    let i = choose|i: int| 0 <= i < seen.len() && seen[i] == (n, v);
                    assert(next[i] == (n, v));
                }
                assert(next[seen.len() as int] == (name, v0));
            }
        } else {
            assert(asks_for(params, name, v0));
        }
    } else {
        assert forall|n: Seq<char>, v: Seq<char>| !#[trigger] asks_for(params, n, v) by {}
    }
}

/// The range and the step are those that the parameters give; an end that is not
/// given is the present, a start the hour before the end, a step the three
/// hundredth part of the range, at least 1.
pub open spec fn is_asked_range(params: ParamPairs, now: int, r: RangeSpec) -> bool {
    &&& if is_open(params, "to"@) {
        r.to == now
    } else {
        is_given(params, "to"@, r.to)
    }
    &&& if is_open(params, "from"@) {
        r.from == if r.to < 3_600_000 {
            0
        } else {
            r.to - 3_600_000
        }
    } else {
        is_given(params, "from"@, r.from)
    }
    &&& if is_missing(params, "step"@) {
        r.step == if r.to - r.from < 600 {
            1
        } else {
            (r.to - r.from) / 300
        }
    } else {
        is_given(params, "step"@, r.step)
    }
    &&& 0 <= r.from <= r.to <= MAX_TIMESTAMP_MS
    &&& r.step >= 1
}

proof fn lemma_ts_param(params: ParamPairs, key: Seq<char>, default: int)
    ensures
        ts_param(params, key, default) matches Ok(ms) ==> if is_open(params, key) {
            ms == default
        } else {
            is_given(params, key, ms) && 0 <= ms <= MAX_TIMESTAMP_MS
        },
        (is_open(params, key) || exists|n: int| #[trigger]
            is_given(params, key, n) && 0 <= n <= MAX_TIMESTAMP_MS) ==> ts_param(
            params,
            key,
            default,
        ) is Ok,
        ts_param(params, key, default) matches Err(e) ==> e.status == 400,
{
    law_first_parameter_counts(params, key);
    match param_value(params, key) {
        Some(v) => {
            assert forall|w: Seq<char>| #[trigger] is_first_value(params, key, w) implies w == v by {
                lemma_first_value_unique(params, key, v, w);
            }
            assert(!is_missing(params, key));
            if v.len() == 0 {
                assert(v =~= seq![]);
            }
        },
        None => {},
    }
}

proof fn lemma_step_param(params: ParamPairs, from: int, to: int)
    requires
        from <= to,
    ensures
        step_param(params, from, to) matches Ok(step) ==> step >= 1 && if is_missing(
            params,
            "step"@,
        ) {
            step == if to - from < 600 {
                1
            } else {
                (to - from) / 300
            }
        } else {
            is_given(params, "step"@, step)
        },
        (is_missing(params, "step"@) || exists|n: int| #[trigger]
            is_given(params, "step"@, n) && n >= 1) ==> step_param(params, from, to) is Ok,
        step_param(params, from, to) matches Err(e) ==> e.status == 400,
{
    law_first_parameter_counts(params, "step"@);
    match param_value(params, "step"@) {
        Some(v) => {
            assert forall|w: Seq<char>| #[trigger] is_first_value(params, "step"@, w) implies w
                == v by {
                lemma_first_value_unique(params, "step"@, v, w);
            }
            assert(!is_missing(params, "step"@));
        },
        None => {},
    }
}

/// A query that is not refused is about the range and the labels that its
/// parameters ask for; one that is refused is answered with status 400.
pub proof fn law_query_is_what_was_asked(params: ParamPairs, now: int)
    requires
        0 <= now <= MAX_TIMESTAMP_MS,
    ensures
        match query_args(params, now) {
            Ok((range, filters)) => {
                &&& is_asked_range(params, now, range)
                &&& forall|n: Seq<char>, v: Seq<char>| #[trigger]
                    filters.contains((n, v)) <==> asks_for(params, n, v)
            },
            Err(e) => e.status == 400,
        },
{
    lemma_ts_param(params, "to"@, now);
    if let Ok(to) = ts_param(params, "to"@, now) {
        let default = crate::model::clamp_ms(to - crate::api::DEFAULT_RANGE_MS);
        lemma_ts_param(params, "from"@, default);
        if let Ok(from) = ts_param(params, "from"@, default) {
            if from <= to {
                lemma_step_param(params, from, to);
            }
        }
    }
    law_every_filter_counts(params, seq![]);
}

/// A query whose parameters are in order is not refused.
pub proof fn law_query_in_order_is_accepted(params: ParamPairs, now: int, range: RangeSpec)
    requires
        0 <= now <= MAX_TIMESTAMP_MS,
        is_asked_range(params, now, range),
        forall|n: Seq<char>, v: Seq<char>| #[trigger] asks_for(params, n, v) ==> is_label_name(n),
    ensures
        query_args(params, now) matches Ok((r, _)) && r == range,
{
    lemma_ts_param(params, "to"@, now);
    let to = ts_param(params, "to"@, now)->Ok_0;
    lemma_given_unique(params, "to"@);
    assert(to == range.to);
    let default = crate::model::clamp_ms(to - crate::api::DEFAULT_RANGE_MS);
    lemma_ts_param(params, "from"@, default);
    lemma_given_unique(params, "from"@);
    let from = ts_param(params, "from"@, default)->Ok_0;
    assert(from == range.from);
    lemma_step_param(params, from, to);
    lemma_given_unique(params, "step"@);
    law_every_filter_counts(params, seq![]);
}

proof fn lemma_given_unique(params: ParamPairs, key: Seq<char>)
    ensures
        forall|a: int, b: int|
            #![trigger is_given(params, key, a), is_given(params, key, b)]
            is_given(params, key, a) && is_given(params, key, b) ==> a == b,
{
    assert forall|a: int, b: int|
        #![trigger is_given(params, key, a), is_given(params, key, b)]
        is_given(params, key, a) && is_given(params, key, b) implies a == b by {
        let v = choose|v: Seq<char>| #[trigger]
            is_first_value(params, key, v) && signed_value(v) == Some(a);
        let w = choose|v: Seq<char>| #[trigger]
            is_first_value(params, key, v) && signed_value(v) == Some(b);
        lemma_first_value_unique(params, key, v, w);
    }
}

/// The sample lies in the range.
pub open spec fn is_within(p: Point, range: RangeSpec) -> bool {
    range.from <= p.ts <= range.to
}

/// The samples lie in the same step, counted from the start of the range.
pub open spec fn share_step(p: Point, q: Point, range: RangeSpec) -> bool {
    (p.ts - range.from) / range.step == (q.ts - range.from) / range.step
}

/// The sample is the last one of the range in its step.
pub open spec fn is_last_of_step(s: Seq<Point>, a: int, range: RangeSpec) -> bool {
    &&& 0 <= a < s.len()
    &&& is_within(s[a], range)
    &&& forall|b: int|
        a < b < s.len() ==> !(is_within(#[trigger] s[b], range) && share_step(s[a], s[b], range))
}

proof fn lemma_last_of_step_is_shown(s: Seq<Point>, range: RangeSpec, a: int)
    requires
        is_last_of_step(s, a, range),
    ensures
        thinned(s, range).contains(s[a]),
    decreases s.len(),
{
    let r = s.drop_last();
    let p = s.last();
    let (t, u) = (thinned(s, range), thinned(r, range));
    if a == s.len() - 1 {
        assert(t[t.len() - 1] == p);
    } else {
        assert(r[a] == s[a]);
        assert forall|b: int| a < b < r.len() implies !(is_within(#[trigger] r[b], range)
            && share_step(r[a], r[b], range)) by {
            assert(r[b] == s[b]);
        }
        lemma_last_of_step_is_shown(r, range, a);
        let i = choose|i: int| 0 <= i < u.len() && u[i] == r[a];
        assert(s[s.len() - 1] == p);
        if i == u.len() - 1 && t.len() == u.len() && t[i] == p && t[i] != u[i] {
            assert(share_step(s[a], p, range));
            assert(is_within(p, range));
        }
        assert(t[i] == u[i]);
    }
}

/// Of each step of the range a query shows the last sample and no other: what is
/// shown are samples of the series in the range, their steps ascend, and the
/// last sample of every step is among them.
pub proof fn law_last_sample_of_each_step(s: Seq<Point>, range: RangeSpec)
    requires
        range.step >= 1,
        is_chronological(s),
    ensures
        ({
            let t = thinned(s, range);
            &&& forall|i: int|
                0 <= i < t.len() ==> is_within(#[trigger] t[i], range) && s.contains(t[i])
            &&& forall|i: int, j: int|
                0 <= i < j < t.len() ==> ((#[trigger] t[i]).ts - range.from) / range.step < ((
                #[trigger] t[j]).ts - range.from) / range.step
            &&& forall|a: int| #[trigger]
                is_last_of_step(s, a, range) ==> t.contains(s[a])
        }),
{
    law_thinned(s, range);
    let t = thinned(s, range);
    assert forall|i: int, j: int| 0 <= i < j < t.len() implies ((#[trigger] t[i]).ts - range.from)
        / range.step < ((#[trigger] t[j]).ts - range.from) / range.step by {
        assert(crate::storage::bucket(t[i], range) < crate::storage::bucket(t[j], range));
    }
    assert forall|a: int| #[trigger] is_last_of_step(s, a, range) implies t.contains(s[a]) by {
        lemma_last_of_step_is_shown(s, range, a);
    }
}

/// The label set has every label of the list.
pub open spec fn has_all(l: LabelPairs, asked: LabelPairs) -> bool {
    forall|n: Seq<char>, v: Seq<char>| #[trigger] asked.contains((n, v)) ==> l.contains((n, v))
}

proof fn lemma_meets(l: LabelPairs, filters: LabelPairs)
    requires
        is_label_set(l),
    ensures
        meets(l, filters) <==> has_all(l, filters),
{
    lemma_text_order();
    lemma_map_of(l, text_order());
    if meets(l, filters) {
        assert forall|n: Seq<char>, v: Seq<char>| #[trigger]
            filters.contains((n, v)) implies l.contains((n, v)) by {
            let i = choose|i: int| 0 <= i < filters.len() && filters[i] == (n, v);
            assert(map_of(l).dom().contains(filters[i].0));
            let j = choose|j: int| 0 <= j < l.len() && (#[trigger] l[j]).0 == n;
            assert(l[j] == (n, v));
        }
    }
    if has_all(l, filters) {
        assert forall|i: int| 0 <= i < filters.len() implies map_of(l).dom().contains(
            (#[trigger] filters[i]).0,
        ) && map_of(l)[filters[i].0] == filters[i].1 by {
            let (n, v) = filters[i];
            assert(filters.contains((n, v)));
            let j = choose|j: int| 0 <= j < l.len() && l[j] == (n, v);
            assert(map_of(l)[l[j].0] == l[j].1);
        }
    }
}

/// The keys of the series have sorted labels.
pub open spec fn has_label_sets(series: Map<Key, Seq<Point>>) -> bool {
    forall|k: Key| #[trigger] series.dom().contains(k) ==> is_label_set(k.1)
}

/// A query finds exactly the series of the metric that have all the labels asked
/// for and a sample in the range.
pub proof fn law_found_series(
    series: Map<Key, Seq<Point>>,
    metric: Seq<char>,
    filters: LabelPairs,
    range: RangeSpec,
    l: LabelPairs,
)
    requires
        has_label_sets(series),
    ensures
        found(series, metric, filters, range).dom().contains(l) <==> {
            &&& series.dom().contains((metric, l))
            &&& has_all(l, filters)
            &&& exists|a: int|
                0 <= a < series[(metric, l)].len() && is_within(
                    #[trigger] series[(metric, l)][a],
                    range,
                )
        },
{
    let key = (metric, l);
    if series.dom().contains(key) {
        let s = series[key];
        lemma_meets(l, filters);
        lemma_thinned_within(s, range);
        let t = thinned(s, range);
        if t.len() > 0 {
            assert(is_within(t[0], range) && s.contains(t[0]));
            let a = choose|a: int| 0 <= a < s.len() && s[a] == t[0];
            assert(is_within(s[a], range));
        }
        if exists|a: int| 0 <= a < s.len() && is_within(#[trigger] s[a], range) {
            let a = choose|a: int| 0 <= a < s.len() && is_within(#[trigger] s[a], range);
            lemma_shown(s, range, a);
        }
    }
}

proof fn lemma_shown(s: Seq<Point>, range: RangeSpec, a: int)
    requires
        0 <= a < s.len(),
        is_within(s[a], range),
    ensures
        thinned(s, range).len() > 0,
    decreases s.len(),
{
    if a < s.len() - 1 {
        assert(s.drop_last()[a] == s[a]);
        lemma_shown(s.drop_last(), range, a);
    }
}

/// The answer to a query that is not refused lists, in the order of their
/// labels, the series of the metric named by the first `metric` parameter that
/// carry each label that some parameter asks for and have a sample in the range,
/// and of each its last sample per step.
pub proof fn law_query_answer(
    store: StoreSpec,
    params: ParamPairs,
    now: int,
    result: Seq<(LabelPairs, Seq<Point>)>,
)
    requires
        0 <= now <= MAX_TIMESTAMP_MS,
        has_label_sets(store.series),
        metric_param(params) matches Ok(metric) && query_args(params, now) matches Ok((range, filters))
            && is_sorted(keys_of(result), labels_order()) && map_of(result) == found(
            store.series,
            metric,
            filters,
            range,
        ),
    ensures
        ({
            let metric = metric_param(params)->Ok_0;
            let range = (query_args(params, now)->Ok_0).0;
            &&& is_first_value(params, "metric"@, metric)
            &&& is_metric_name(metric)
            &&& is_asked_range(params, now, range)
            &&& query_reply(store, params, now) == json_response(
                200,
                query_json(metric, range, result),
            )
            &&& forall|i: int|
                0 <= i < result.len() ==> {
                    let (l, points) = #[trigger] result[i];
                    &&& store.series.dom().contains((metric, l))
                    &&& forall|n: Seq<char>, v: Seq<char>| #[trigger]
                        asks_for(params, n, v) ==> l.contains((n, v))
                    &&& points.len() > 0
                    &&& points == thinned(store.series[(metric, l)], range)
                }
            &&& forall|l: LabelPairs, a: int|
                #![trigger store.series[(metric, l)][a]]
                store.series.dom().contains((metric, l)) && (forall|n: Seq<char>, v: Seq<char>|
                 #[trigger]
                    asks_for(params, n, v) ==> l.contains((n, v))) && 0 <= a < store.series[(
                    metric,
                    l,
                )].len() && is_within(store.series[(metric, l)][a], range) ==> exists|i: int|
                    0 <= i < result.len() && (#[trigger] result[i]).0 == l
        }),
{
    let metric = metric_param(params)->Ok_0;
    let (range, filters) = query_args(params, now)->Ok_0;
    let shown = found(store.series, metric, filters, range);
    law_first_parameter_counts(params, "metric"@);
    law_query_is_what_was_asked(params, now);
    lemma_labels_order();
    lemma_listing_of(result, labels_order());
    lemma_map_of(result, labels_order());
    reveal(query_reply);
    assert forall|l: LabelPairs| has_all(l, filters) <==> forall|n: Seq<char>, v: Seq<char>|
         #[trigger]
        asks_for(params, n, v) ==> l.contains((n, v)) by {
        if has_all(l, filters) {
            assert forall|n: Seq<char>, v: Seq<char>| #[trigger]
                asks_for(params, n, v) implies l.contains((n, v)) by {
                assert(filters.contains((n, v)));
            }
        }
    }
    assert forall|i: int| 0 <= i < result.len() implies ({
        let (l, points) = #[trigger] result[i];
        &&& store.series.dom().contains((metric, l))
        &&& forall|n: Seq<char>, v: Seq<char>| #[trigger]
            asks_for(params, n, v) ==> l.contains((n, v))
        &&& points.len() > 0
        &&& points == thinned(store.series[(metric, l)], range)
    }) by {
        let (l, points) = result[i];
        assert(shown.dom().contains(l));
        law_found_series(store.series, metric, filters, range, l);
        assert(has_all(l, filters));
    }
    assert forall|l: LabelPairs, a: int|
        #![trigger store.series[(metric, l)][a]]
        store.series.dom().contains((metric, l)) && (forall|n: Seq<char>, v: Seq<char>| #[trigger]
            asks_for(params, n, v) ==> l.contains((n, v))) && 0 <= a < store.series[(
            metric,
            l,
        )].len() && is_within(store.series[(metric, l)][a], range) implies exists|i: int|
        0 <= i < result.len() && (#[trigger] result[i]).0 == l by {
        assert(has_all(l, filters));
        law_found_series(store.series, metric, filters, range, l);
        assert(map_of(result).dom().contains(l));
    }
}

} // verus!
