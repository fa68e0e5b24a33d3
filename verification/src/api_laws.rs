//! Laws of the HTTP API: what is pushed is shown, and the metrics of the system
//! itself can be scraped.

use vstd::prelude::*;
use vstd::utf8::{decode_utf8, encode_utf8, encode_utf8_decode_utf8, encode_utf8_valid_utf8};

use crate::api::{
    law_only_pushes_change_the_store, lemma_self_names, metric_param, push_reply, query_args,
    query_json, query_reply, respond, route_of, self_entry, self_text, AppSpec, Route,
};
use crate::binary64::{lemma_round_is_nearest, round};
use crate::http::client::{reply_body, request_text, UrlSpec, MAX_RESPONSE_BYTES};
use crate::http::exchange::{is_header_value, law_request_is_understood, law_response_is_understood};
use crate::http::server::{request_of, response_bytes, MAX_HEADER_BYTES};
use crate::http::{
    empty_response, json_response, law_plain_text_decodes_to_itself, params_of, text_response,
    HttpErrorSpec, Method, ParamPairs, RequestSpec, ResponseSpec,
};
use crate::model::{
    is_metric_name, labels_order, MetaSpec, MetricKind, Point, ScrapedSpec, MAX_TIMESTAMP_MS,
};
use crate::roundtrip::{
    canonical, is_lasting, is_lasting_help, is_valid_key, law_meta_read_back, law_payload_read_back,
    law_sample_read_back, lemma_end_of_payload, payload_text, read_items, with_meta, Item,
};
use crate::sorted::listing_of;
use crate::storage::{cutoff, found, is_accepted, meets, metric_names, stamp, with_samples};
use crate::store_laws::{
    all_capped, all_chronological, law_sample_of_batch_is_read, lemma_batch_keeps_order,
};
use crate::text::{is_char, lemma_index_where_is};
use crate::textfmt::{
    empty_exposition, exposition_of, meta_text, read_lines, sample_line, ErrorSpec, Exposition,
};

verus! {

/// A push of the given text.
pub open spec fn push_request(text: Seq<char>) -> RequestSpec {
    RequestSpec {
        method: Method::Post,
        path: "/api/push"@,
        query: seq![],
        body: encode_utf8(text),
    }
}

/// A query with the given parameters.
pub open spec fn query_request(params: ParamPairs) -> RequestSpec {
    RequestSpec { method: Method::Get, path: "/api/query"@, query: params, body: seq![] }
}

/// No request brings a series out of chronological order or beyond the cap.
pub proof fn law_requests_keep_order(state: AppSpec, req: RequestSpec, now: int)
    requires
        all_chronological(state.store.series),
        all_capped(state.store.series, state.store.max_points),
    ensures
        ({
            let after = respond(state, req, now).0.store;
            &&& all_chronological(after.series)
            &&& all_capped(after.series, after.max_points)
        }),
{
    law_only_pushes_change_the_store(state, req, now);
    if let Ok(x) = exposition_of(decode_utf8(req.body)) {
        lemma_batch_keeps_order(
            state.store.series,
            x.samples,
            now,
            cutoff(now, state.store.retention_ms),
            state.store.max_points,
        );
    }
}

/// What is pushed is shown: the push of a payload that can be read is answered
/// with "no content". A sample of it that is neither too old nor older than the
/// last one of its series at that point, and is not followed by one of the same
/// series, is shown by every later query whose range it lies in and whose
/// filters it meets, as the last sample of its series.
pub proof fn law_pushed_sample_is_shown(
    state: AppSpec,
    text: Seq<char>,
    i: int,
    now: int,
    params: ParamPairs,
    later: int,
)
    requires
        exposition_of(text) matches Ok(x) && 0 <= i < x.samples.len() && ({
            let s = x.samples[i];
            let cut = cutoff(now, state.store.retention_ms);
            let before = with_samples(
                state.store.series,
                x.samples.take(i),
                now,
                cut,
                state.store.max_points,
            );
            &&& is_accepted(before, s, now, cut)
            &&& forall|j: int| i < j < x.samples.len() ==> (#[trigger] x.samples[j]).key != s.key
            &&& metric_param(params) == Ok::<Seq<char>, ResponseSpec>(s.key.0)
            &&& query_args(params, later) matches Ok((range, filters)) && range.from <= stamp(
                s,
                now,
            ) <= range.to && meets(s.key.1, filters)
        }),
        state.store.max_points > 0,
    ensures
        ({
            let s = exposition_of(text)->Ok_0.samples[i];
            let (after, reply) = respond(state, push_request(text), now);
            let (last, answer) = respond(after, query_request(params), later);
            let (range, filters) = query_args(params, later)->Ok_0;
            let result = found(after.store.series, s.key.0, filters, range);
            &&& reply == empty_response()
            &&& last.store == after.store
            &&& answer == json_response(
                200,
                query_json(s.key.0, range, listing_of(result, labels_order())),
            )
            &&& result.dom().contains(s.key.1)
            &&& result[s.key.1].last() == (Point { ts: stamp(s, now), value: s.value })
        }),
{
    let x = exposition_of(text)->Ok_0;
    let (range, filters) = query_args(params, later)->Ok_0;
    encode_utf8_valid_utf8(text);
    encode_utf8_decode_utf8(text);
    law_sample_of_batch_is_read(
        state.store.series,
        x.samples,
        i,
        now,
        cutoff(now, state.store.retention_ms),
        state.store.max_points,
        filters,
        range,
    );
    reveal(push_reply);
    reveal(query_reply);
    assert(route_of(Method::Get, "/api/query"@) == Route::Query) by {
        reveal_strlit("/");
        reveal_strlit("/api/push");
        reveal_strlit("/api/metrics");
        reveal_strlit("/api/labels");
        reveal_strlit("/api/query");
        assert("/api/query"@.len() == 10);
        assert("/"@.len() == 1);
        assert("/api/push"@.len() == 9);
        assert("/api/metrics"@.len() == 12);
        assert("/api/labels"@.len() == 11);
    }
}

/// An encoded sample that is pushed and accepted is shown with its value.
pub proof fn law_encoded_sample_is_shown(
    state: AppSpec,
    s: ScrapedSpec,
    now: int,
    params: ParamPairs,
    later: int,
)
    requires
        is_valid_key(s.key),
        s.ts matches Some(ms) ==> 0 <= ms <= MAX_TIMESTAMP_MS,
        is_accepted(state.store.series, s, now, cutoff(now, state.store.retention_ms)),
        state.store.max_points > 0,
        metric_param(params) == Ok::<Seq<char>, ResponseSpec>(s.key.0),
        query_args(params, later) matches Ok((range, filters)) && range.from <= stamp(s, now)
            <= range.to && meets(s.key.1, filters),
    ensures
        ({
            let (after, reply) = respond(state, push_request(sample_line(s).push('\n')), now);
            let (_, answer) = respond(after, query_request(params), later);
            let (range, filters) = query_args(params, later)->Ok_0;
            let result = found(after.store.series, s.key.0, filters, range);
            let point = Point { ts: stamp(s, now), value: canonical(s.value) };
            &&& reply == empty_response()
            &&& answer == json_response(
                200,
                query_json(s.key.0, range, listing_of(result, labels_order())),
            )
            &&& result.dom().contains(s.key.1) && result[s.key.1].last() == point
        }),
{
    let text = sample_line(s).push('\n');
    let read = ScrapedSpec { key: s.key, value: canonical(s.value), ts: s.ts };
    assert(exposition_of(text) == Ok::<Exposition, ErrorSpec>(
        Exposition { samples: seq![read], metas: Map::empty() },
    )) by {
        let items = seq![Item::Sample(s)];
        assert(is_lasting(items[0]));
        law_payload_read_back(items);
        reveal_with_fuel(payload_text, 2);
        reveal_with_fuel(read_items, 2);
        assert(items.skip(1) =~= seq![]);
        assert(payload_text(items) =~= text);
        assert(empty_exposition().samples.push(read) =~= seq![read]);
    }
    assert(seq![read].take(0) =~= seq![]);
    law_pushed_sample_is_shown(state, text, 0, now, params, later);
}

/// A metric of the system itself, as a sample without labels and timestamp.
pub open spec fn self_sample(name: Seq<char>, value: nat) -> ScrapedSpec {
    ScrapedSpec { key: (name, seq![]), value: round(value, 1) as u64, ts: None }
}

/// The samples that describe the system itself.
pub open spec fn self_samples(state: AppSpec) -> Seq<ScrapedSpec> {
    seq![
        self_sample("rustmetrics_ingested_samples_total"@, state.store.ingested_total as nat),
        self_sample("rustmetrics_dropped_samples_total"@, state.store.dropped_total as nat),
        self_sample("rustmetrics_series"@, state.store.series.dom().len()),
        self_sample("rustmetrics_metrics"@, metric_names(state.store.series).len()),
        self_sample("rustmetrics_http_requests_total"@, state.http_requests_total as nat),
    ]
}

/// The metadata of the samples that describe the system itself.
pub open spec fn self_metas() -> Map<Seq<char>, MetaSpec> {
    map![
        "rustmetrics_ingested_samples_total"@ => MetaSpec {
            kind: MetricKind::Counter,
            help: "Samples accepted into the store."@,
        },
        "rustmetrics_dropped_samples_total"@ => MetaSpec {
            kind: MetricKind::Counter,
            help: "Samples dropped (out of order or older than retention)."@,
        },
        "rustmetrics_series"@ => MetaSpec {
            kind: MetricKind::Gauge,
            help: "Live time series count."@,
        },
        "rustmetrics_metrics"@ => MetaSpec {
            kind: MetricKind::Gauge,
            help: "Distinct metric names."@,
        },
        "rustmetrics_http_requests_total"@ => MetaSpec {
            kind: MetricKind::Counter,
            help: "HTTP requests handled."@,
        },
    ]
}

/// An entry in front of a payload is read as its sample and its metadata.
proof fn lemma_self_entry(
    name: Seq<char>,
    kind: MetricKind,
    help: Seq<char>,
    value: nat,
    rest: Seq<char>,
    before: nat,
    read: Exposition,
)
    requires
        is_metric_name(name),
        help.len() > 0,
        is_lasting_help(help),
    ensures
        read_lines(self_entry(name, kind, help, value) + rest, before, read) == read_lines(
            rest,
            before + 3,
            Exposition {
                samples: read.samples.push(self_sample(name, value)),
                metas: read.metas.insert(name, MetaSpec { kind, help }),
            },
        ),
{
    let meta = MetaSpec { kind, help };
    let s = self_sample(name, value);
    let line = sample_line(s).push('\n');
    lemma_round_is_nearest(value, 1);
    assert(canonical(s.value) == s.value);
    assert(is_valid_key(s.key));
    assert(self_entry(name, kind, help, value) + rest =~= meta_text(name, meta) + (line + rest));
    law_meta_read_back(name, meta, line + rest, before, read);
    law_sample_read_back(s, rest, before + 2, with_meta(read, name, meta));
}

proof fn lemma_self_helps()
    ensures
        is_lasting_help("Samples accepted into the store."@),
        is_lasting_help("Samples dropped (out of order or older than retention)."@),
        is_lasting_help("Live time series count."@),
        is_lasting_help("Distinct metric names."@),
        is_lasting_help("HTTP requests handled."@),
        "Samples accepted into the store."@.len() > 0,
        "Samples dropped (out of order or older than retention)."@.len() > 0,
        "Live time series count."@.len() > 0,
        "Distinct metric names."@.len() > 0,
        "HTTP requests handled."@.len() > 0,
{
    reveal_strlit("Samples accepted into the store.");
    reveal_strlit("Samples dropped (out of order or older than retention).");
    reveal_strlit("Live time series count.");
    reveal_strlit("Distinct metric names.");
    reveal_strlit("HTTP requests handled.");
}

/// Concatenation of five texts, grouped from either side.
proof fn lemma_grouped(a: Seq<char>, b: Seq<char>, c: Seq<char>, d: Seq<char>, e: Seq<char>)
    ensures
        a + b + c + d + e == a + (b + (c + (d + (e + seq![])))),
{
    assert(a + b + c + d + e =~= a + (b + (c + (d + (e + seq![])))));
}

/// The metrics of the system itself can be scraped: the text of the
/// self-exposition is read as its five samples and their metadata.
#[verifier::rlimit(40)]
pub proof fn law_self_metrics_are_read(state: AppSpec)
    ensures
        exposition_of(self_text(state)) == Ok::<Exposition, ErrorSpec>(
            Exposition { samples: self_samples(state), metas: self_metas() },
        ),
{
    let (n1, n2) = ("rustmetrics_ingested_samples_total"@, "rustmetrics_dropped_samples_total"@);
    let (n3, n4) = ("rustmetrics_series"@, "rustmetrics_metrics"@);
    let n5 = "rustmetrics_http_requests_total"@;
    let (h1, h2) = (
        "Samples accepted into the store."@,
        "Samples dropped (out of order or older than retention)."@,
    );
    let (h3, h4) = ("Live time series count."@, "Distinct metric names."@);
    let h5 = "HTTP requests handled."@;
    let (c, g) = (MetricKind::Counter, MetricKind::Gauge);
    let (v1, v2) = (state.store.ingested_total as nat, state.store.dropped_total as nat);
    let (v3, v4) = (state.store.series.dom().len(), metric_names(state.store.series).len());
    let v5 = state.http_requests_total as nat;
    lemma_self_names();
    lemma_self_helps();
    let t5 = self_entry(n5, c, h5, v5) + seq![];
    let t4 = self_entry(n4, g, h4, v4) + t5;
    let t3 = self_entry(n3, g, h3, v3) + t4;
    let t2 = self_entry(n2, c, h2, v2) + t3;
    let t1 = self_entry(n1, c, h1, v1) + t2;
    assert(self_text(state) == t1) by {
        reveal(self_text);
        lemma_grouped(
            self_entry(n1, c, h1, v1),
            self_entry(n2, c, h2, v2),
            self_entry(n3, g, h3, v3),
            self_entry(n4, g, h4, v4),
            self_entry(n5, c, h5, v5),
        );
    }
    let r0 = empty_exposition();
    let r1 = Exposition {
        samples: r0.samples.push(self_sample(n1, v1)),
        metas: r0.metas.insert(n1, MetaSpec { kind: c, help: h1 }),
    };
    let r2 = Exposition {
        samples: r1.samples.push(self_sample(n2, v2)),
        metas: r1.metas.insert(n2, MetaSpec { kind: c, help: h2 }),
    };
    let r3 = Exposition {
        samples: r2.samples.push(self_sample(n3, v3)),
        metas: r2.metas.insert(n3, MetaSpec { kind: g, help: h3 }),
    };
    let r4 = Exposition {
        samples: r3.samples.push(self_sample(n4, v4)),
        metas: r3.metas.insert(n4, MetaSpec { kind: g, help: h4 }),
    };
    let r5 = Exposition {
        samples: r4.samples.push(self_sample(n5, v5)),
        metas: r4.metas.insert(n5, MetaSpec { kind: c, help: h5 }),
    };
    lemma_self_entry(n1, c, h1, v1, t2, 0, r0);
    lemma_self_entry(n2, c, h2, v2, t3, 3, r1);
    lemma_self_entry(n3, g, h3, v3, t4, 6, r2);
    lemma_self_entry(n4, g, h4, v4, t5, 9, r3);
    lemma_self_entry(n5, c, h5, v5, seq![], 12, r4);
    lemma_end_of_payload(15, r5);
    assert(r5.samples =~= self_samples(state));
    assert(r5.metas == self_metas()) by {
        assert(r0.metas =~= Map::empty());
    }
}

/// A request for the metrics of the system itself.
pub open spec fn self_request() -> RequestSpec {
    RequestSpec { method: Method::Get, path: "/metrics"@, query: seq![], body: seq![] }
}

/// The system can scrape itself: its server understands the request that its
/// client writes for the path of the self-exposition, and what the client reads
/// of the answer are the metrics of the system at that moment, unless the answer
/// is too long to be read whole.
pub proof fn law_system_scrapes_itself(state: AppSpec, u: UrlSpec, now: int)
    requires
        u.path == "/metrics"@,
        is_header_value(u.host),
        encode_utf8(request_text(u)).len() <= MAX_HEADER_BYTES,
        respond(state, self_request(), now).1.body.len() <= MAX_RESPONSE_BYTES,
    ensures
        request_of(encode_utf8(request_text(u))) == Ok::<RequestSpec, HttpErrorSpec>(
            self_request(),
        ),
        ({
            let (after, reply) = respond(state, self_request(), now);
            &&& reply_body(response_bytes(reply)) matches Ok(text)
            &&& exposition_of(text) == Ok::<Exposition, ErrorSpec>(
                Exposition { samples: self_samples(after), metas: self_metas() },
            )
        }),
{
    let (after, reply) = respond(state, self_request(), now);
    let path = "/metrics"@;
    assert(route_of(Method::Get, path) == Route::SelfMetrics) by {
        reveal_strlit("/");
        reveal_strlit("/api/push");
        reveal_strlit("/api/metrics");
        reveal_strlit("/api/labels");
        reveal_strlit("/api/query");
        reveal_strlit("/metrics");
        assert("/metrics"@.len() == 8);
        assert("/"@.len() == 1);
        assert("/api/push"@.len() == 9);
        assert("/api/metrics"@.len() == 12);
        assert("/api/labels"@.len() == 11);
        assert("/api/query"@.len() == 10);
    }
    let text = self_text(after);
    assert(reply == text_response(200, text));
    assert(is_header_value(reply.content_type)) by {
        reveal_strlit("text/plain; charset=utf-8");
    }
    law_response_is_understood(reply);
    encode_utf8_valid_utf8(text);
    encode_utf8_decode_utf8(text);
    law_self_metrics_are_read(after);
    reveal_strlit("/metrics");
    lemma_index_where_is(path, is_char('?'), 8);
    assert(path.take(8) =~= path);
    law_plain_text_decodes_to_itself(path);
    assert(params_of(seq![], seq![]) == Ok::<ParamPairs, HttpErrorSpec>(seq![])) by {
        lemma_index_where_is(seq![], is_char('&'), 0);
        assert(Seq::<char>::empty().take(0) =~= seq![]);
    }
    law_request_is_understood(u);
}

} // verus!
