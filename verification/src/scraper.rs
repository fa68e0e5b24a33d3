//! What a scrape records: the samples of the target, and `up`/duration series.

use vstd::prelude::*;

use crate::model::{
    is_label_listing, is_label_name, is_metric_name, lemma_label_listing_unique, pair_views, Key,
    LabelName, LabelValue, Labels, MetaSpec, MetricKind, MetricMeta, MetricName, Point,
    ScrapedSample, ScrapedSpec, SeriesKey, TimestampMs, MAX_TIMESTAMP_MS,
};
use crate::numeral::{int_text, push_unsigned};
use crate::storage::{
    cutoff, ingested, is_accepted, lemma_merged, pushed, samples_of, with_sample, with_samples,
    MetricStore, StoreSpec,
};
use crate::textfmt;
use crate::textfmt::{error_text, exposition_of, meta_views, sample_views, Exposition};

verus! {

/// The pattern of the number one.
pub const ONE: u64 = 0x3ff0_0000_0000_0000;

/// Why a reply with the status code is no scrape; nothing for a success.
pub open spec fn status_failure(code: u16) -> Option<Seq<char>> {
    if 200 <= code < 300 {
        None
    } else {
        Some("target returned HTTP "@ + int_text(code as int))
    }
}

pub fn check_status(code: u16) -> (r: Result<(), String>)
    ensures
        match status_failure(code) {
            None => r is Ok,
            Some(t) => r matches Err(x) && x@ == t,
        },
{
    if 200 <= code && code < 300 {
        Ok(())
    } else {
        let mut text = "target returned HTTP ".to_owned();
        push_unsigned(&mut text, code as u64);
        Err(text)
    }
}

/// What was fetched of a target, or why it could not be fetched.
pub type Fetched = Result<Seq<char>, Seq<char>>;

pub open spec fn fetched_view(r: Result<String, String>) -> Fetched {
    match r {
        Ok(body) => Ok(body@),
        Err(e) => Err(e@),
    }
}

/// The payload of a scrape, or why there is none.
pub open spec fn scraped(fetched: Fetched) -> Result<Exposition, Seq<char>> {
    match fetched {
        Err(e) => Err(e),
        Ok(body) => match exposition_of(body) {
            Ok(x) => Ok(x),
            Err(e) => Err("parse failed: "@ + error_text(e)),
        },
    }
}

/// A series of the scraper itself for a target.
pub open spec fn instance_key(name: Seq<char>, target: Seq<char>) -> Key {
    (name, seq![("instance"@, target)])
}

/// The samples that the scraper adds for a target.
pub open spec fn own_samples(target: Seq<char>, up: u64, duration: u64, now: int) -> Seq<
    ScrapedSpec,
> {
    seq![
        ScrapedSpec { key: instance_key("up"@, target), value: up, ts: Some(now) },
        ScrapedSpec {
            key: instance_key("scrape_duration_seconds"@, target),
            value: duration,
            ts: Some(now),
        },
    ]
}

pub open spec fn own_metas() -> Seq<(Seq<char>, MetaSpec)> {
    seq![
        (
            "up"@,
            MetaSpec {
                kind: MetricKind::Gauge,
                help: "1 if the last scrape of the target succeeded."@,
            },
        ),
        (
            "scrape_duration_seconds"@,
            MetaSpec { kind: MetricKind::Gauge, help: "Duration of the last scrape."@ },
        ),
    ]
}

/// The store after the payload of a scrape, if there is one.
pub open spec fn with_payload(store: StoreSpec, fetched: Fetched, now: int) -> StoreSpec {
    match scraped(fetched) {
        Ok(x) => pushed(store, x, now),
        Err(_) => store,
    }
}

/// The store after a scrape.
pub open spec fn recorded(
    store: StoreSpec,
    target: Seq<char>,
    fetched: Fetched,
    duration: u64,
    now: int,
) -> StoreSpec {
    let up = if scraped(fetched) is Ok {
        ONE
    } else {
        0
    };
    ingested(
        with_payload(store, fetched, now),
        own_samples(target, up, duration, now),
        own_metas(),
        now,
    )
}

proof fn lemma_own_names()
    ensures
        is_metric_name("up"@),
        is_metric_name("scrape_duration_seconds"@),
        is_label_name("instance"@),
        "up"@ != "scrape_duration_seconds"@,
{
    reveal_strlit("up");
    reveal_strlit("scrape_duration_seconds");
    reveal_strlit("instance");
    assert("up"@.len() == 2 && "scrape_duration_seconds"@.len() == 23);
}

/// The label set with the single label `instance`.
fn instance_labels(target: &str) -> (r: Labels)
    ensures
        r@ == seq![("instance"@, target@)],
{
    proof {
        lemma_own_names();
    }
    let name = match LabelName::parse("instance") {
        Ok(n) => n,
        Err(_) => {
            return Labels::empty();
        },
    };
    let mut pairs: Vec<(LabelName, LabelValue)> = Vec::new();
    pairs.push((name, LabelValue::new(target)));
    let ghost views = pair_views(pairs@);
    assert(views =~= seq![("instance"@, target@)]);
    match Labels::new(pairs) {
        Ok(labels) => {
            proof {
                assert(is_label_listing(views, views));
                lemma_label_listing_unique(labels@, views);
            }
            labels
        },
        Err(_) => Labels::empty(),
    }
}

fn own_sample(name: &str, target: &str, value: u64, now: TimestampMs) -> (r: Option<ScrapedSample>)
    ensures
        match r {
            Some(s) => is_metric_name(name@) && s@ == (ScrapedSpec {
                key: instance_key(name@, target@),
                value,
                ts: Some(now@),
            }),
            None => !is_metric_name(name@),
        },
{
    match MetricName::parse(name) {
        Ok(metric) => Some(
            ScrapedSample {
                key: SeriesKey { name: metric, labels: instance_labels(target) },
                value,
                ts: Some(now),
            },
        ),
        Err(_) => None,
    }
}

fn own_meta(name: &str, help: &str) -> (r: Option<(MetricName, MetricMeta)>)
    ensures
        match r {
            Some(m) => is_metric_name(name@) && (m.0@, m.1@) == (
                name@,
                MetaSpec { kind: MetricKind::Gauge, help: help@ },
            ),
            None => !is_metric_name(name@),
        },
{
    match MetricName::parse(name) {
        Ok(metric) => Some((metric, MetricMeta { kind: MetricKind::Gauge, help: help.to_owned() })),
        Err(_) => None,
    }
}

/// Records a scrape of a target: what was fetched, or why it could not be, and
/// the duration in seconds, as the bit pattern of a binary64 number. Gives the
/// reason if the scrape failed.
pub fn record_scrape(
    store: &mut MetricStore,
    target: &str,
    fetched: Result<String, String>,
    duration: u64,
    now: TimestampMs,
) -> (r: Option<String>)
    ensures
        final(store)@ == recorded(old(store)@, target@, fetched_view(fetched), duration, now@),
        match scraped(fetched_view(fetched)) {
            Ok(_) => r is None,
            Err(e) => r matches Some(t) && t@ == e,
        },
{
    let ghost view = fetched_view(fetched);
    let mut failure: Option<String> = None;
    match fetched {
        Ok(body) => match textfmt::parse(body.as_str()) {
            Ok(parsed) => {
                proof {
                    lemma_merged(store@.metas, meta_views(parsed.metas@));
                }
                store.ingest(parsed.samples, parsed.metas, now);
            },
            Err(e) => {
                let mut text = "parse failed: ".to_owned();
                text.append(e.message().as_str());
                failure = Some(text);
            },
        },
        Err(e) => {
            failure = Some(e);
        },
    }
    assert(store@ == with_payload(old(store)@, view, now@));
    let up: u64 = if failure.is_none() {
        ONE
    } else {
        0
    };
    proof {
        lemma_own_names();
    }
    let mut samples: Vec<ScrapedSample> = Vec::new();
    let mut metas: Vec<(MetricName, MetricMeta)> = Vec::new();
    if let Some(s) = own_sample("up", target, up, now) {
        samples.push(s);
    }
    if let Some(s) = own_sample("scrape_duration_seconds", target, duration, now) {
        samples.push(s);
    }
    if let Some(m) = own_meta("up", "1 if the last scrape of the target succeeded.") {
        metas.push(m);
    }
    if let Some(m) = own_meta("scrape_duration_seconds", "Duration of the last scrape.") {
        metas.push(m);
    }
    assert(sample_views(samples@) =~= own_samples(target@, up, duration, now@));
    assert(meta_views(metas@) =~= own_metas());
    store.ingest(samples, metas, now);
    failure
}

/// After a scrape the last sample of the target's `up` series says whether it
/// succeeded, unless the series already has a later sample.
pub proof fn law_scrape_marks_up(
    store: StoreSpec,
    target: Seq<char>,
    fetched: Fetched,
    duration: u64,
    now: int,
)
    requires
        store.max_points > 0,
        store.retention_ms >= 0,
        0 <= now <= MAX_TIMESTAMP_MS,
        ({
            let known = samples_of(
                with_payload(store, fetched, now).series,
                instance_key("up"@, target),
            );
            known.len() > 0 ==> known.last().ts <= now
        }),
    ensures
        ({
            let after = recorded(store, target, fetched, duration, now);
            let key = instance_key("up"@, target);
            &&& after.series.dom().contains(key)
            &&& after.series[key].last() == (Point {
                ts: now,
                value: if scraped(fetched) is Ok {
                    ONE
                } else {
                    0
                },
            })
        }),
{
    lemma_own_names();
    let first = with_payload(store, fetched, now);
    let up = if scraped(fetched) is Ok {
        ONE
    } else {
        0
    };
    let batch = own_samples(target, up, duration, now);
    let cut = cutoff(now, store.retention_ms);
    let key = instance_key("up"@, target);
    let rest = batch.drop_last();
    assert(rest =~= seq![batch[0]]);
    assert(rest.drop_last() =~= seq![]);
    assert(with_samples(first.series, rest.drop_last(), now, cut, store.max_points)
        == first.series);
    let one = with_sample(first.series, batch[0], now, cut, store.max_points);
    assert(with_samples(first.series, rest, now, cut, store.max_points) == one);
    assert(is_accepted(first.series, batch[0], now, cut));
    crate::store_laws::law_written_sample_is_read(
        first.series,
        batch[0],
        now,
        cut,
        store.max_points,
        seq![],
        crate::storage::RangeSpec { from: now, to: now, step: 1 },
    );
    assert(batch[1].key != key);
    assert(with_samples(first.series, batch, now, cut, store.max_points) == with_sample(
        one,
        batch[1],
        now,
        cut,
        store.max_points,
    ));
}

} // verus!
