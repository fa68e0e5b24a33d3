//! HTTP route table: parsed Request -> handler -> Response.

use vstd::prelude::*;
use vstd::utf8::{decode_utf8, valid_utf8};

use crate::binary64::{round, round_ratio};
use crate::dashboard::PAGE;
use crate::http::{
    empty_response, error_response, html_response, json_response, param_value, text_response,
    Method, ParamPairs, QueryParams, Request, RequestSpec, Response, ResponseSpec,
};
use crate::json::{
    fresh, json_array, json_number, json_object, json_string, lemma_closed, lemma_opened,
    lemma_within_member, lemma_within_value, member, with_key, with_value, within, JsonWriter,
};
use crate::model::{
    clamp_ms, is_label_name, is_metric_name, kind_text, labels_order, lemma_labels_order,
    pair_views, LabelName, LabelPairs, LabelValue, Labels, MetaSpec, MetricKind, MetricMeta,
    MetricName, Point, Sample, ScrapedSpec, SeriesKey, TimestampMs, MAX_TIMESTAMP_MS,
};
use crate::natural::Natural;
use crate::numeral::{as_signed, int_text, read_signed, signed_value, to_signed};
use crate::order::{lemma_text_order, text_order};
use crate::sorted::{items_of, lemma_items_of, lemma_listing_of, listing_of, SortedSet};
use crate::storage::{
    counted, found, info_views, label_index, lemma_merged, metric_index, metric_names, points,
    pushed, query_views, MetricInfo, MetricStore, QueryRange, QuerySeries, RangeSpec, StoreSpec,
};
use crate::text::{
    debug_string, debug_text, is_empty, starts_with, str_eq, string_from_utf8, to_chars,
};
use crate::textfmt;
use crate::textfmt::{
    error_text, exposition_of, meta_text, meta_views, sample_line, timestamp_value,
};

verus! {

pub const DEFAULT_RANGE_MS: i64 = 3_600_000;

pub const AUTO_STEP_BUCKETS: i64 = 300;

/// The state that the handlers work on.
pub struct AppSpec {
    pub store: StoreSpec,
    pub http_requests_total: int,
}

#[derive(Debug)]
pub struct AppState {
    pub store: MetricStore,
    pub http_requests_total: u64,
}

impl View for AppState {
    type V = AppSpec;

    open spec fn view(&self) -> AppSpec {
        AppSpec {
            store: self.store@,
            http_requests_total: self.http_requests_total as int,
        }
    }
}

impl AppState {
    pub fn new(store: MetricStore) -> (r: Self)
        ensures
            r@ == (AppSpec { store: store@, http_requests_total: 0 }),
    {
        AppState { store, http_requests_total: 0 }
    }
}

/// What a push makes of the store, and the answer to it.
#[verifier::opaque]
pub open spec fn push_reply(store: StoreSpec, body: Seq<u8>, now: int) -> (
    StoreSpec,
    ResponseSpec,
) {
    if !valid_utf8(body) {
        (store, error_response(400, "push body is not valid UTF-8"@))
    } else {
        match exposition_of(decode_utf8(body)) {
            Ok(x) => (pushed(store, x, now), empty_response()),
            Err(e) => (store, error_response(400, error_text(e))),
        }
    }
}

fn handle_push(store: &mut MetricStore, body: Vec<u8>, now: TimestampMs) -> (r: Response)
    ensures
        (final(store)@, r@) == push_reply(old(store)@, body@, now@),
{
    proof {
        reveal(push_reply);
    }
    let text = match string_from_utf8(body) {
        Some(t) => t,
        None => {
            return Response::json_error(400, "push body is not valid UTF-8");
        },
    };
    match textfmt::parse(text.as_str()) {
        Ok(parsed) => {
            proof {
                lemma_merged(store@.metas, meta_views(parsed.metas@));
            }
            store.ingest(parsed.samples, parsed.metas, now);
            Response::no_content()
        },
        Err(e) => Response::json_error(400, e.message().as_str()),
    }
}

/// A metric as JSON.
pub open spec fn info_json(e: (Seq<char>, (MetaSpec, nat))) -> Seq<char> {
    json_object(
        seq![
            member("name"@, json_string(e.0)),
            member("kind"@, json_string(kind_text(e.1.0.kind))),
            member("help"@, json_string(e.1.0.help)),
            member("series"@, int_text(as_signed(e.1.1))),
        ],
    )
}

pub open spec fn infos_json(s: Seq<(Seq<char>, (MetaSpec, nat))>) -> Seq<Seq<char>> {
    s.map_values(|e: (Seq<char>, (MetaSpec, nat))| info_json(e))
}

/// The list of metrics as JSON.
pub open spec fn list_json(s: Seq<(Seq<char>, (MetaSpec, nat))>) -> Seq<char> {
    json_object(seq![member("metrics"@, json_array(infos_json(s)))])
}

#[verifier::opaque]
pub open spec fn list_reply(store: StoreSpec) -> ResponseSpec {
    json_response(200, list_json(listing_of(metric_index(store), text_order())))
}

/// Writes a member whose value is a string.
fn put_string(w: &mut JsonWriter, key: &str, value: &str)
    ensures
        final(w)@ == with_value(with_key(old(w)@, key@), json_string(value@)),
{
    let _ = w.key(key);
    let _ = w.string(value);
}

/// Writes a member whose value is an integer.
fn put_int(w: &mut JsonWriter, key: &str, value: i64)
    ensures
        final(w)@ == with_value(with_key(old(w)@, key@), int_text(value as int)),
{
    let _ = w.key(key);
    let _ = w.integer(value);
}

fn write_info(w: &mut JsonWriter, info: &MetricInfo)
    ensures
        final(w)@ == with_value(
            old(w)@,
            info_json((info.name@, (info.meta@, info.series_count as nat))),
        ),
{
    let ghost st = w@;
    let ghost none = Seq::<Seq<char>>::empty();
    let ghost a = member("name"@, json_string(info.name@));
    let ghost b = member("kind"@, json_string(kind_text(info.meta.kind)));
    let ghost c = member("help"@, json_string(info.meta.help@));
    let ghost d = member("series"@, int_text(as_signed(info.series_count as nat)));
    let _ = w.begin_object();
    put_string(w, "name", info.name.as_str());
    put_string(w, "kind", info.meta.kind.as_str());
    put_string(w, "help", info.meta.help.as_str());
    put_int(w, "series", to_signed(info.series_count as u64));
    let _ = w.end_object();
    proof {
        lemma_opened(st, '{');
        lemma_within_member(st, '{', none, "name"@, json_string(info.name@));
        lemma_within_member(
            st,
            '{',
            none.push(a),
            "kind"@,
            json_string(kind_text(info.meta.kind)),
        );
        lemma_within_member(st, '{', none.push(a).push(b), "help"@, json_string(info.meta.help@));
        lemma_within_member(
            st,
            '{',
            none.push(a).push(b).push(c),
            "series"@,
            int_text(as_signed(info.series_count as nat)),
        );
        assert(none.push(a).push(b).push(c).push(d) =~= seq![a, b, c, d]);
        lemma_closed(st, seq![a, b, c, d]);
    }
}

/// The text of a writer that has written one value is the value.
proof fn lemma_finished(v: Seq<char>)
    ensures
        with_value(fresh(), v).text == v,
{
    assert(with_value(fresh(), v).text =~= v);
}

fn handle_list(store: &MetricStore) -> (r: Response)
    ensures
        r@ == list_reply(store@),
{
    proof {
        reveal(list_reply);
    }
    let infos = store.list_metrics();
    let ghost views = info_views(infos@);
    let ghost items = infos_json(views);
    let ghost none = Seq::<Seq<char>>::empty();
    let mut w = JsonWriter::new();
    let _ = w.begin_object();
    let _ = w.key("metrics");
    let ghost st = w@;
    let _ = w.begin_array();
    proof {
        lemma_opened(st, '[');
        assert(items.take(0) =~= none);
    }
    for i in 0..infos.len()
        invariant
            views == info_views(infos@),
            items == infos_json(views),
            w@ == within(st, '[', items.take(i as int)),
    {
        write_info(&mut w, &infos[i]);
        proof {
            lemma_within_value(st, '[', items.take(i as int), items[i as int]);
            assert(items.take(i + 1) =~= items.take(i as int).push(items[i as int]));
        }
    }
    let _ = w.end_array();
    let _ = w.end_object();
    proof {
        assert(items.take(infos@.len() as int) =~= items);
        lemma_closed(st, items);
        lemma_opened(fresh(), '{');
        lemma_within_member(fresh(), '{', none, "metrics"@, json_array(items));
        let all = seq![member("metrics"@, json_array(items))];
        assert(none.push(member("metrics"@, json_array(items))) =~= all);
        lemma_closed(fresh(), all);
        lemma_finished(json_object(all));
        lemma_text_order();
        lemma_listing_of(views, text_order());
    }
    Response::json(200, w.finish())
}

/// The metric that a query asks for, or the answer that refuses it.
pub open spec fn metric_param(params: ParamPairs) -> Result<Seq<char>, ResponseSpec> {
    match param_value(params, "metric"@) {
        None => Err(error_response(400, "query: missing metric param"@)),
        Some(raw) => if is_metric_name(raw) {
            Ok(raw)
        } else {
            Err(error_response(400, "query: invalid metric name "@ + debug_text(raw)))
        },
    }
}

fn parse_metric_param(query: &QueryParams) -> (r: Result<MetricName, Response>)
    ensures
        match metric_param(query@) {
            Ok(name) => r matches Ok(x) && x@ == name,
            Err(e) => r matches Err(x) && x@ == e,
        },
{
    let raw = match query.get("metric") {
        Some(raw) => raw,
        None => {
            return Err(Response::json_error(400, "query: missing metric param"));
        },
    };
    match MetricName::parse(raw) {
        Ok(name) => Ok(name),
        Err(_) => {
            let mut text = "query: invalid metric name ".to_owned();
            text.append(debug_string(raw).as_str());
            Err(Response::json_error(400, text.as_str()))
        },
    }
}

pub open spec fn strings_json(s: Seq<Seq<char>>) -> Seq<Seq<char>> {
    s.map_values(|v: Seq<char>| json_string(v))
}

/// The label names of a metric with their values, as members of a JSON object.
pub open spec fn labels_members(s: Seq<(Seq<char>, Set<Seq<char>>)>) -> Seq<Seq<char>> {
    s.map_values(
        |e: (Seq<char>, Set<Seq<char>>)|
            member(e.0, json_array(strings_json(items_of(e.1, text_order())))),
    )
}

pub open spec fn labels_json(metric: Seq<char>, index: Map<Seq<char>, Set<Seq<char>>>) -> Seq<
    char,
> {
    json_object(
        seq![
            member("metric"@, json_string(metric)),
            member("labels"@, json_object(labels_members(listing_of(index, text_order())))),
        ],
    )
}

#[verifier::opaque]
pub open spec fn labels_reply(store: StoreSpec, params: ParamPairs) -> ResponseSpec {
    match metric_param(params) {
        Err(e) => e,
        Ok(metric) => json_response(200, labels_json(metric, label_index(store.series, metric))),
    }
}

fn write_values(w: &mut JsonWriter, values: &SortedSet<LabelValue>)
    ensures
        final(w)@ == with_value(
            old(w)@,
            json_array(strings_json(items_of(values@, text_order()))),
        ),
{
    let n = values.len();
    let ghost st = w@;
    let ghost listed = values.listing();
    let ghost items = strings_json(listed);
    let _ = w.begin_array();
    proof {
        lemma_opened(st, '[');
        assert(items.take(0) =~= seq![]);
    }
    for i in 0..n
        invariant
            n == listed.len(),
            listed == values.listing(),
            items == strings_json(listed),
            w@ == within(st, '[', items.take(i as int)),
    {
        let _ = w.string(values.item_at(i).as_str());
        proof {
            lemma_within_value(st, '[', items.take(i as int), items[i as int]);
            assert(items.take(i + 1) =~= items.take(i as int).push(items[i as int]));
        }
    }
    let _ = w.end_array();
    proof {
        assert(items.take(n as int) =~= items);
        lemma_closed(st, items);
        lemma_text_order();
        lemma_items_of(listed, values@, text_order());
    }
}

fn handle_labels(store: &MetricStore, query: &QueryParams) -> (r: Response)
    ensures
        r@ == labels_reply(store@, query@),
{
    proof {
        reveal(labels_reply);
    }
    let metric = match parse_metric_param(query) {
        Ok(m) => m,
        Err(resp) => {
            return resp;
        },
    };
    let index = store.label_values(&metric);
    let n = index.len();
    let ghost none = Seq::<Seq<char>>::empty();
    let ghost listed = index.listing();
    let ghost items = labels_members(listed);
    let mut w = JsonWriter::new();
    let _ = w.begin_object();
    put_string(&mut w, "metric", metric.as_str());
    let _ = w.key("labels");
    let ghost st = w@;
    let _ = w.begin_object();
    proof {
        lemma_opened(st, '{');
        assert(items.take(0) =~= none);
    }
    for i in 0..n
        invariant
            n == listed.len(),
            listed == index.listing(),
            items == labels_members(listed),
            w@ == within(st, '{', items.take(i as int)),
    {
        let name = index.key_at(i);
        let values = index.value_at(i);
        let _ = w.key(name.as_str());
        write_values(&mut w, values);
        proof {
            let v = json_array(strings_json(items_of(values@, text_order())));
            assert(items[i as int] == member(name@, v));
            lemma_within_member(st, '{', items.take(i as int), name@, v);
            assert(items.take(i + 1) =~= items.take(i as int).push(items[i as int]));
        }
    }
    let _ = w.end_object();
    let _ = w.end_object();
    proof {
        assert(items.take(n as int) =~= items);
        lemma_closed(st, items);
        let a = member("metric"@, json_string(metric@));
        let b = member("labels"@, json_object(items));
        lemma_opened(fresh(), '{');
        lemma_within_member(fresh(), '{', none, "metric"@, json_string(metric@));
        lemma_within_member(fresh(), '{', none.push(a), "labels"@, json_object(items));
        assert(none.push(a).push(b) =~= seq![a, b]);
        lemma_closed(fresh(), seq![a, b]);
        lemma_finished(json_object(seq![a, b]));
        lemma_text_order();
        lemma_listing_of(listed, text_order());
    }
    Response::json(200, w.finish())
}

/// The timestamp that a parameter gives, or the default, or the answer that
/// refuses it.
pub open spec fn ts_param(params: ParamPairs, key: Seq<char>, default: int) -> Result<
    int,
    ResponseSpec,
> {
    match param_value(params, key) {
        None => Ok(default),
        Some(raw) => if raw.len() == 0 {
            Ok(default)
        } else {
            match timestamp_value(raw) {
                Some(ms) => Ok(ms),
                None => Err(
                    error_response(
                        400,
                        "query: invalid "@ + key + " timestamp "@ + debug_text(raw),
                    ),
                ),
            }
        },
    }
}

fn parse_ts_param(query: &QueryParams, key: &str, default: TimestampMs) -> (r: Result<
    TimestampMs,
    Response,
>)
    ensures
        match ts_param(query@, key@, default@) {
            Ok(ms) => r matches Ok(t) && t@ == ms,
            Err(e) => r matches Err(x) && x@ == e,
        },
{
    let raw = match query.get(key) {
        Some(raw) => raw,
        None => {
            return Ok(default);
        },
    };
    if is_empty(raw) {
        return Ok(default);
    }
    let chars = to_chars(raw);
    match textfmt::parse_timestamp(chars.as_slice()) {
        Some(t) => Ok(t),
        None => {
            let mut text = "query: invalid ".to_owned();
            text.append(key);
            text.append(" timestamp ");
            text.append(debug_string(raw).as_str());
            Err(Response::json_error(400, text.as_str()))
        },
    }
}

/// The step that a query asks for; without one, the range is divided into a
/// fixed number of buckets.
pub open spec fn step_param(params: ParamPairs, from: int, to: int) -> Result<int, ResponseSpec> {
    match param_value(params, "step"@) {
        Some(raw) => {
            let refused = Err(error_response(400, "query: invalid step "@ + debug_text(raw)));
            match signed_value(raw) {
                Some(v) => if v > 0 {
                    Ok(v)
                } else {
                    refused
                },
                None => refused,
            }
        },
        None => {
            let step = (to - from) / AUTO_STEP_BUCKETS as int;
            Ok(
                if step < 1 {
                    1
                } else {
                    step
                },
            )
        },
    }
}

fn parse_step_param(query: &QueryParams, from: TimestampMs, to: TimestampMs) -> (r: Result<
    i64,
    Response,
>)
    requires
        from@ <= to@,
    ensures
        match step_param(query@, from@, to@) {
            Ok(v) => r matches Ok(x) && x == v && x > 0,
            Err(e) => r matches Err(x) && x@ == e,
        },
{
    match query.get("step") {
        Some(raw) => {
            let chars = to_chars(raw);
            let found: i64 = match read_signed(chars.as_slice()) {
                Some(v) => v,
                None => 0,
            };
            if found > 0 {
                return Ok(found);
            }
            let mut text = "query: invalid step ".to_owned();
            text.append(debug_string(raw).as_str());
            Err(Response::json_error(400, text.as_str()))
        },
        None => {
            let step: i64 = (to.as_millis() - from.as_millis()) / AUTO_STEP_BUCKETS;
            Ok(
                if step < 1 {
                    1
                } else {
                    step
                },
            )
        },
    }
}

/// The label filters of a query, behind `seen`: the parameters whose names begin
/// with `label.`.
pub open spec fn filter_params(params: ParamPairs, seen: LabelPairs) -> Result<
    LabelPairs,
    ResponseSpec,
>
    decreases params.len(),
{
    if params.len() == 0 {
        Ok(seen)
    } else {
        let (k, v) = params[0];
        let name = k.skip(6);
        if !starts_with(k, "label."@) {
            filter_params(params.skip(1), seen)
        } else if is_label_name(name) {
            filter_params(params.skip(1), seen.push((name, v)))
        } else {
            Err(error_response(400, "query: invalid label name "@ + debug_text(name)))
        }
    }
}

fn parse_filters(query: &QueryParams) -> (r: Result<Vec<(LabelName, LabelValue)>, Response>)
    ensures
        match filter_params(query@, seq![]) {
            Ok(f) => r matches Ok(x) && pair_views(x@) == f,
            Err(e) => r matches Err(x) && x@ == e,
        },
{
    let n = query.len();
    let mut filters: Vec<(LabelName, LabelValue)> = Vec::new();
    proof {
        reveal_strlit("label.");
        assert(query@.skip(0) =~= query@);
        assert(pair_views(filters@) =~= seq![]);
    }
    for i in 0..n
        invariant
            n == query@.len(),
            "label."@.len() == 6,
            filter_params(query@, seq![]) == filter_params(
                query@.skip(i as int),
                pair_views(filters@),
            ),
    {
        let ghost seen = pair_views(filters@);
        let (k, v) = query.at(i);
        assert(query@.skip(i as int)[0] == (k@, v@));
        assert(query@.skip(i as int).skip(1) =~= query@.skip(i + 1));
        let chars = to_chars(k);
        if let Some(tail) = crate::text::strip_prefix(chars.as_slice(), "label.") {
            let label = crate::text::from_chars(tail);
            match LabelName::parse(label.as_str()) {
                Ok(name) => {
                    let value = LabelValue::new(v);
                    let ghost view = (name@, value@);
                    filters.push((name, value));
                    assert(pair_views(filters@) =~= seen.push(view));
                },
                Err(_) => {
                    let mut text = "query: invalid label name ".to_owned();
                    text.append(debug_string(label.as_str()).as_str());
                    return Err(Response::json_error(400, text.as_str()));
                },
            }
        }
    }
    assert(query@.skip(n as int) =~= seq![]);
    Ok(filters)
}

pub open spec fn labels_object(l: LabelPairs) -> Seq<Seq<char>> {
    l.map_values(|p: (Seq<char>, Seq<char>)| member(p.0, json_string(p.1)))
}

pub open spec fn point_json(p: Point) -> Seq<char> {
    json_array(seq![int_text(p.ts), json_number(p.value)])
}

pub open spec fn points_json(s: Seq<Point>) -> Seq<Seq<char>> {
    s.map_values(|p: Point| point_json(p))
}

/// A series as JSON.
pub open spec fn series_json(e: (LabelPairs, Seq<Point>)) -> Seq<char> {
    json_object(
        seq![
            member("labels"@, json_object(labels_object(e.0))),
            member("points"@, json_array(points_json(e.1))),
        ],
    )
}

pub open spec fn all_series_json(s: Seq<(LabelPairs, Seq<Point>)>) -> Seq<Seq<char>> {
    s.map_values(|e: (LabelPairs, Seq<Point>)| series_json(e))
}

/// The answer to a query as JSON.
pub open spec fn query_json(
    metric: Seq<char>,
    range: RangeSpec,
    result: Seq<(LabelPairs, Seq<Point>)>,
) -> Seq<char> {
    json_object(
        seq![
            member("metric"@, json_string(metric)),
            member("from"@, int_text(range.from)),
            member("to"@, int_text(range.to)),
            member("step"@, int_text(range.step)),
            member("series"@, json_array(all_series_json(result))),
        ],
    )
}

/// The range, the step and the filters that a query asks for, or the answer that
/// refuses it.
pub open spec fn query_args(params: ParamPairs, now: int) -> Result<
    (RangeSpec, LabelPairs),
    ResponseSpec,
> {
    match ts_param(params, "to"@, now) {
        Err(e) => Err(e),
        Ok(to) => match ts_param(params, "from"@, clamp_ms(to - DEFAULT_RANGE_MS)) {
            Err(e) => Err(e),
            Ok(from) => if from > to {
                Err(error_response(400, "query: from is after to"@))
            } else {
                match step_param(params, from, to) {
                    Err(e) => Err(e),
                    Ok(step) => match filter_params(params, seq![]) {
                        Err(e) => Err(e),
                        Ok(filters) => Ok((RangeSpec { from, to, step }, filters)),
                    },
                }
            },
        },
    }
}

#[verifier::opaque]
pub open spec fn query_reply(store: StoreSpec, params: ParamPairs, now: int) -> ResponseSpec {
    match metric_param(params) {
        Err(e) => e,
        Ok(metric) => match query_args(params, now) {
            Err(e) => e,
            Ok((range, filters)) => json_response(
                200,
                query_json(
                    metric,
                    range,
                    listing_of(found(store.series, metric, filters, range), labels_order()),
                ),
            ),
        },
    }
}

fn write_labels(w: &mut JsonWriter, labels: &Labels)
    ensures
        final(w)@ == with_value(old(w)@, json_object(labels_object(labels@))),
{
    let n = labels.len();
    let ghost st = w@;
    let ghost l = labels@;
    let ghost items = labels_object(l);
    let _ = w.begin_object();
    proof {
        lemma_opened(st, '{');
        assert(items.take(0) =~= seq![]);
    }
    for i in 0..n
        invariant
            n == l.len(),
            l == labels@,
            items == labels_object(l),
            w@ == within(st, '{', items.take(i as int)),
    {
        put_string(w, labels.name_at(i).as_str(), labels.value_at(i).as_str());
        proof {
            let (name, value) = l[i as int];
            assert(items[i as int] == member(name, json_string(value)));
            lemma_within_member(st, '{', items.take(i as int), name, json_string(value));
            assert(items.take(i + 1) =~= items.take(i as int).push(items[i as int]));
        }
    }
    let _ = w.end_object();
    proof {
        assert(items.take(n as int) =~= items);
        lemma_closed(st, items);
    }
}

fn write_point(w: &mut JsonWriter, p: &Sample)
    ensures
        final(w)@ == with_value(old(w)@, point_json(p@)),
{
    let ghost st = w@;
    let _ = w.begin_array();
    let _ = w.integer(p.ts.as_millis());
    let _ = w.number(p.value);
    let _ = w.end_array();
    proof {
        let none = Seq::<Seq<char>>::empty();
        let a = int_text(p@.ts);
        let b = json_number(p@.value);
        lemma_opened(st, '[');
        lemma_within_value(st, '[', none, a);
        lemma_within_value(st, '[', none.push(a), b);
        assert(none.push(a).push(b) =~= seq![a, b]);
        lemma_closed(st, seq![a, b]);
    }
}

fn write_points(w: &mut JsonWriter, samples: &[Sample])
    ensures
        final(w)@ == with_value(old(w)@, json_array(points_json(points(samples@)))),
{
    let ghost st = w@;
    let ghost ps = points(samples@);
    let ghost items = points_json(ps);
    let _ = w.begin_array();
    proof {
        lemma_opened(st, '[');
        assert(items.take(0) =~= seq![]);
    }
    for i in 0..samples.len()
        invariant
            ps == points(samples@),
            items == points_json(ps),
            w@ == within(st, '[', items.take(i as int)),
    {
        write_point(w, &samples[i]);
        proof {
            lemma_within_value(st, '[', items.take(i as int), items[i as int]);
            assert(items.take(i + 1) =~= items.take(i as int).push(items[i as int]));
        }
    }
    let _ = w.end_array();
    proof {
        assert(items.take(samples@.len() as int) =~= items);
        lemma_closed(st, items);
    }
}

fn write_series(w: &mut JsonWriter, s: &QuerySeries)
    ensures
        final(w)@ == with_value(old(w)@, series_json((s.labels@, points(s.points@)))),
{
    let ghost st = w@;
    let _ = w.begin_object();
    let _ = w.key("labels");
    write_labels(w, &s.labels);
    let _ = w.key("points");
    write_points(w, s.points.as_slice());
    let _ = w.end_object();
    proof {
        let none = Seq::<Seq<char>>::empty();
        let x = json_object(labels_object(s.labels@));
        let y = json_array(points_json(points(s.points@)));
        let (a, b) = (member("labels"@, x), member("points"@, y));
        lemma_opened(st, '{');
        lemma_within_member(st, '{', none, "labels"@, x);
        lemma_within_member(st, '{', none.push(a), "points"@, y);
        assert(none.push(a).push(b) =~= seq![a, b]);
        lemma_closed(st, seq![a, b]);
    }
}

fn write_all_series(w: &mut JsonWriter, result: &[QuerySeries])
    ensures
        final(w)@ == with_value(old(w)@, json_array(all_series_json(query_views(result@)))),
{
    let ghost st = w@;
    let ghost views = query_views(result@);
    let ghost items = all_series_json(views);
    let _ = w.begin_array();
    proof {
        lemma_opened(st, '[');
        assert(items.take(0) =~= seq![]);
    }
    for i in 0..result.len()
        invariant
            views == query_views(result@),
            items == all_series_json(views),
            w@ == within(st, '[', items.take(i as int)),
    {
        write_series(w, &result[i]);
        proof {
            lemma_within_value(st, '[', items.take(i as int), items[i as int]);
            assert(items.take(i + 1) =~= items.take(i as int).push(items[i as int]));
        }
    }
    let _ = w.end_array();
    proof {
        assert(items.take(result@.len() as int) =~= items);
        lemma_closed(st, items);
    }
}

/// The answer to a query that found the given series.
fn query_response(metric: &MetricName, range: &QueryRange, result: &[QuerySeries]) -> (r: Response)
    requires
        range.step_ms >= 1,
    ensures
        r@ == json_response(200, query_json(metric@, range@, query_views(result@))),
{
    let mut w = JsonWriter::new();
    let _ = w.begin_object();
    put_string(&mut w, "metric", metric.as_str());
    put_int(&mut w, "from", range.from.as_millis());
    put_int(&mut w, "to", range.to.as_millis());
    put_int(&mut w, "step", range.step_ms);
    let _ = w.key("series");
    write_all_series(&mut w, result);
    let _ = w.end_object();
    proof {
        let none = Seq::<Seq<char>>::empty();
        let st = fresh();
        let v1 = json_string(metric@);
        let v2 = int_text(range@.from);
        let v3 = int_text(range@.to);
        let v4 = int_text(range@.step);
        let v5 = json_array(all_series_json(query_views(result@)));
        let a = member("metric"@, v1);
        let b = member("from"@, v2);
        let c = member("to"@, v3);
        let d = member("step"@, v4);
        let e = member("series"@, v5);
        lemma_opened(st, '{');
        lemma_within_member(st, '{', none, "metric"@, v1);
        lemma_within_member(st, '{', none.push(a), "from"@, v2);
        lemma_within_member(st, '{', none.push(a).push(b), "to"@, v3);
        lemma_within_member(st, '{', none.push(a).push(b).push(c), "step"@, v4);
        lemma_within_member(st, '{', none.push(a).push(b).push(c).push(d), "series"@, v5);
        assert(none.push(a).push(b).push(c).push(d).push(e) =~= seq![a, b, c, d, e]);
        lemma_closed(st, seq![a, b, c, d, e]);
        lemma_finished(json_object(seq![a, b, c, d, e]));
    }
    Response::json(200, w.finish())
}

fn handle_query(store: &MetricStore, query: &QueryParams, now: TimestampMs) -> (r: Response)
    ensures
        r@ == query_reply(store@, query@, now@),
{
    proof {
        reveal(query_reply);
    }
    let metric = match parse_metric_param(query) {
        Ok(m) => m,
        Err(resp) => {
            return resp;
        },
    };
    let to = match parse_ts_param(query, "to", now) {
        Ok(t) => t,
        Err(resp) => {
            return resp;
        },
    };
    let from = match parse_ts_param(query, "from", to.saturating_sub_millis(DEFAULT_RANGE_MS)) {
        Ok(t) => t,
        Err(resp) => {
            return resp;
        },
    };
    if from.as_millis() > to.as_millis() {
        return Response::json_error(400, "query: from is after to");
    }
    let step_ms: i64 = match parse_step_param(query, from, to) {
        Ok(v) => v,
        Err(resp) => {
            return resp;
        },
    };
    let filters = match parse_filters(query) {
        Ok(f) => f,
        Err(resp) => {
            return resp;
        },
    };
    let range = QueryRange { from, to, step_ms };
    let result = store.query(&metric, filters.as_slice(), &range);
    proof {
        lemma_labels_order();
        lemma_listing_of(query_views(result@), labels_order());
    }
    query_response(&metric, &range, result.as_slice())
}

/// A metric without labels, with its metadata.
pub open spec fn self_entry(
    name: Seq<char>,
    kind: MetricKind,
    help: Seq<char>,
    value: nat,
) -> Seq<char> {
    meta_text(name, MetaSpec { kind, help }) + sample_line(
        ScrapedSpec { key: (name, seq![]), value: round(value, 1) as u64, ts: None },
    ).push('\n')
}

/// The metrics of the system itself.
#[verifier::opaque]
pub open spec fn self_text(state: AppSpec) -> Seq<char> {
    self_entry(
        "rustmetrics_ingested_samples_total"@,
        MetricKind::Counter,
        "Samples accepted into the store."@,
        state.store.ingested_total as nat,
    ) + self_entry(
        "rustmetrics_dropped_samples_total"@,
        MetricKind::Counter,
        "Samples dropped (out of order or older than retention)."@,
        state.store.dropped_total as nat,
    ) + self_entry(
        "rustmetrics_series"@,
        MetricKind::Gauge,
        "Live time series count."@,
        state.store.series.dom().len(),
    ) + self_entry(
        "rustmetrics_metrics"@,
        MetricKind::Gauge,
        "Distinct metric names."@,
        metric_names(state.store.series).len(),
    ) + self_entry(
        "rustmetrics_http_requests_total"@,
        MetricKind::Counter,
        "HTTP requests handled."@,
        state.http_requests_total as nat,
    )
}

/// The pattern nearest to an integer.
fn float_bits(n: u64) -> (r: u64)
    ensures
        r == round(n as nat, 1),
{
    let one = Natural::one();
    let v = one.mul_add(n, 0);
    assert(1 * n == n) by (nonlinear_arith);
    round_ratio(&v, &one)
}

fn push_entry(out: &mut String, name: &str, kind: MetricKind, help: &str, value: u64)
    requires
        is_metric_name(name@),
    ensures
        final(out)@ == old(out)@ + self_entry(name@, kind, help@, value as nat),
{
    let ghost before = out@;
    let metric = match MetricName::parse(name) {
        Ok(m) => m,
        Err(_) => {
            return ;
        },
    };
    let meta = MetricMeta { kind, help: help.to_owned() };
    textfmt::encode_meta(out, &metric, &meta);
    let key = SeriesKey { name: metric, labels: Labels::empty() };
    textfmt::encode_sample(out, &key, float_bits(value), None);
    assert(key@.1 =~= seq![]);
    assert(out@ =~= before + self_entry(name@, kind, help@, value as nat));
}

pub proof fn lemma_self_names()
    ensures
        is_metric_name("rustmetrics_ingested_samples_total"@),
        is_metric_name("rustmetrics_dropped_samples_total"@),
        is_metric_name("rustmetrics_series"@),
        is_metric_name("rustmetrics_metrics"@),
        is_metric_name("rustmetrics_http_requests_total"@),
{
    reveal_strlit("rustmetrics_ingested_samples_total");
    reveal_strlit("rustmetrics_dropped_samples_total");
    reveal_strlit("rustmetrics_series");
    reveal_strlit("rustmetrics_metrics");
    reveal_strlit("rustmetrics_http_requests_total");
}

fn handle_self_metrics(state: &AppState) -> (r: Response)
    ensures
        r@ == text_response(200, self_text(state@)),
{
    proof {
        reveal(self_text);
    }
    let stats = state.store.stats();
    let mut out = String::new();
    proof {
        lemma_self_names();
    }
    push_entry(
        &mut out,
        "rustmetrics_ingested_samples_total",
        MetricKind::Counter,
        "Samples accepted into the store.",
        stats.ingested_total,
    );
    push_entry(
        &mut out,
        "rustmetrics_dropped_samples_total",
        MetricKind::Counter,
        "Samples dropped (out of order or older than retention).",
        stats.dropped_total,
    );
    push_entry(
        &mut out,
        "rustmetrics_series",
        MetricKind::Gauge,
        "Live time series count.",
        stats.series_count as u64,
    );
    push_entry(
        &mut out,
        "rustmetrics_metrics",
        MetricKind::Gauge,
        "Distinct metric names.",
        stats.metric_count as u64,
    );
    push_entry(
        &mut out,
        "rustmetrics_http_requests_total",
        MetricKind::Counter,
        "HTTP requests handled.",
        state.http_requests_total,
    );
    assert(out@ =~= self_text(state@));
    Response::text(200, out)
}

/// Where a request leads.
#[derive(Debug, Clone, Copy, PartialEq, Eq, Structural)]
pub enum Route {
    Dashboard,
    Push,
    List,
    Labels,
    Query,
    SelfMetrics,
    PostOnly,
    GetOnly,
    Unknown,
}

/// The route of a request.
pub open spec fn route_of(method: Method, path: Seq<char>) -> Route {
    if path == "/api/push"@ {
        if method == Method::Post {
            Route::Push
        } else {
            Route::PostOnly
        }
    } else if path == "/"@ || path == "/api/metrics"@ || path == "/api/labels"@ || path
        == "/api/query"@ || path == "/metrics"@ {
        if method == Method::Post {
            Route::GetOnly
        } else if path == "/"@ {
            Route::Dashboard
        } else if path == "/api/metrics"@ {
            Route::List
        } else if path == "/api/labels"@ {
            Route::Labels
        } else if path == "/api/query"@ {
            Route::Query
        } else {
            Route::SelfMetrics
        }
    } else {
        Route::Unknown
    }
}

pub fn route(method: Method, path: &str) -> (r: Route)
    ensures
        r == route_of(method, path@),
{
    let get = match method {
        Method::Get => true,
        Method::Post => false,
    };
    let found = if str_eq(path, "/api/push") {
        return if get {
            Route::PostOnly
        } else {
            Route::Push
        };
    } else if str_eq(path, "/") {
        Route::Dashboard
    } else if str_eq(path, "/api/metrics") {
        Route::List
    } else if str_eq(path, "/api/labels") {
        Route::Labels
    } else if str_eq(path, "/api/query") {
        Route::Query
    } else if str_eq(path, "/metrics") {
        Route::SelfMetrics
    } else {
        return Route::Unknown;
    };
    if get {
        found
    } else {
        Route::GetOnly
    }
}

/// What a request makes of the state at a given moment, and the answer to it.
pub open spec fn respond(state: AppSpec, req: RequestSpec, now: int) -> (AppSpec, ResponseSpec) {
    let seen = AppSpec {
        store: state.store,
        http_requests_total: counted(state.http_requests_total, 1),
    };
    match route_of(req.method, req.path) {
        Route::Dashboard => (seen, html_response(PAGE@)),
        Route::Push => {
            let (store, reply) = push_reply(state.store, req.body, now);
            (AppSpec { store, ..seen }, reply)
        },
        Route::List => (seen, list_reply(state.store)),
        Route::Labels => (seen, labels_reply(state.store, req.query)),
        Route::Query => (seen, query_reply(state.store, req.query, now)),
        Route::SelfMetrics => (seen, text_response(200, self_text(seen))),
        Route::PostOnly => (seen, error_response(405, "use POST"@)),
        Route::GetOnly => (seen, error_response(405, "method not allowed"@)),
        Route::Unknown => (seen, error_response(404, "not found"@)),
    }
}

/// Answers a request as of the given moment.
pub fn handle_at(state: &mut AppState, req: Request, now: TimestampMs) -> (r: Response)
    ensures
        (final(state)@, r@) == respond(old(state)@, req@, now@),
{
    state.http_requests_total = state.http_requests_total.wrapping_add(1);
    match route(req.method, req.path.as_str()) {
        Route::Dashboard => Response::html(PAGE),
        Route::Push => handle_push(&mut state.store, req.body, now),
        Route::List => handle_list(&state.store),
        Route::Labels => handle_labels(&state.store, &req.query),
        Route::Query => handle_query(&state.store, &req.query, now),
        Route::SelfMetrics => handle_self_metrics(state),
        Route::PostOnly => Response::json_error(405, "use POST"),
        Route::GetOnly => Response::json_error(405, "method not allowed"),
        Route::Unknown => Response::json_error(404, "not found"),
    }
}

/// Answers a request at the present moment.
pub fn handle(state: &mut AppState, req: Request) -> (r: Response)
    ensures
        exists|now: int|
            0 <= now <= MAX_TIMESTAMP_MS && (final(state)@, r@) == #[trigger] respond(
                old(state)@,
                req@,
                now,
            ),
{
    let now = TimestampMs::now();
    handle_at(state, req, now)
}

/// A request that is not answered with "no content" leaves the store as it was,
/// and every request is counted.
pub proof fn law_only_pushes_change_the_store(state: AppSpec, req: RequestSpec, now: int)
    ensures
        ({
            let (after, reply) = respond(state, req, now);
            &&& after.http_requests_total == counted(state.http_requests_total, 1)
            &&& reply.status != 204 ==> after.store == state.store
            &&& reply.status == 204 ==> route_of(req.method, req.path) == Route::Push && (
            exposition_of(decode_utf8(req.body)) matches Ok(x) && after.store == pushed(
                state.store,
                x,
                now,
            ))
        }),
{
    reveal(push_reply);
    reveal(list_reply);
    reveal(labels_reply);
    reveal(query_reply);
    lemma_filter_refusal(req.query, seq![]);
}

proof fn lemma_filter_refusal(params: ParamPairs, seen: LabelPairs)
    ensures
        filter_params(params, seen) matches Err(e) ==> e.status == 400,
    decreases params.len(),
{
    if params.len() > 0 {
        let (k, v) = params[0];
        lemma_filter_refusal(params.skip(1), seen);
        lemma_filter_refusal(params.skip(1), seen.push((k.skip(6), v)));
    }
}

} // verus!
