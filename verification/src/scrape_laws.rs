//! Laws of scraping: a scrape takes in what a push of the same text takes in, and
//! adds its own two series.

use vstd::prelude::*;

use crate::binary64::{lemma_gap, lemma_nearest_in_cell, magnitude, nearest};
use crate::model::{Key, MetaSpec, MetricKind, Point, ScrapedSpec};
use crate::numeral::int_text;
use crate::retention_laws::{
    is_after_epoch, is_counter, is_moment, law_batches_in_a_row, law_taking_in_a_sample,
};
use crate::scraper::{recorded, scraped, status_failure, Fetched, ONE};
use crate::storage::{ingested, pushed, samples_of, with_metas, with_samples, StoreSpec};
use crate::textfmt::exposition_of;

verus! {

/// A reply counts as a success if and only if its status lies in the 200s; the
/// failure names the status.
pub proof fn law_success_statuses(code: u16)
    ensures
        status_failure(code) is None <==> code / 100 == 2,
        status_failure(code) matches Some(text) ==> text == "target returned HTTP "@ + int_text(
            code as int,
        ),
{
}

/// The pattern that marks a target as up is that of the number one.
pub proof fn law_up_is_one()
    ensures
        nearest(1, 1, ONE as nat),
{
    let b = ONE as nat;
    let p: nat = 0x10_0000_0000_0000;
    assert(b / p == 1023 && b % p == 0);
    vstd::arithmetic::power2::lemma2_to64_rest();
    vstd::arithmetic::power2::lemma_pow2_adds(52, 1022);
    assert(magnitude(b) == vstd::arithmetic::power2::pow2(1074));
    lemma_gap(b);
    lemma_nearest_in_cell(1, 1, b);
}

/// The store as a push of the fetched text leaves it, or as it was where nothing
/// was fetched or the text cannot be read.
pub open spec fn as_pushed(store: StoreSpec, fetched: Fetched, now: int) -> StoreSpec {
    match fetched {
        Ok(text) => match exposition_of(text) {
            Ok(x) => pushed(store, x, now),
            Err(_) => store,
        },
        Err(_) => store,
    }
}

/// The text was fetched and can be read.
pub open spec fn is_readable(fetched: Fetched) -> bool {
    fetched matches Ok(text) && exposition_of(text) is Ok
}

/// The scraper's series of a target: the metric, with the target as its only
/// label, `instance`.
pub open spec fn own_key(metric: Seq<char>, target: Seq<char>) -> Key {
    (metric, seq![("instance"@, target)])
}

proof fn lemma_names()
    ensures
        "up"@ != "scrape_duration_seconds"@,
        "1 if the last scrape of the target succeeded."@.len() > 0,
        "Duration of the last scrape."@.len() > 0,
{
    reveal_strlit("up");
    reveal_strlit("scrape_duration_seconds");
    reveal_strlit("1 if the last scrape of the target succeeded.");
    reveal_strlit("Duration of the last scrape.");
    assert("up"@.len() == 2 && "scrape_duration_seconds"@.len() == 23);
}

/// A scrape is the push of what was fetched, followed by a sample of `up`, which
/// is one or zero, and a sample of the duration, both taken at that moment.
proof fn lemma_scrape_steps(
    store: StoreSpec,
    target: Seq<char>,
    fetched: Fetched,
    duration: u64,
    now: int,
)
    ensures
        ({
            let up = if is_readable(fetched) {
                ONE
            } else {
                0
            };
            let first = ScrapedSpec { key: own_key("up"@, target), value: up, ts: Some(now) };
            let second = ScrapedSpec {
                key: own_key("scrape_duration_seconds"@, target),
                value: duration,
                ts: Some(now),
            };
            let m = (
                "up"@,
                MetaSpec {
                    kind: MetricKind::Gauge,
                    help: "1 if the last scrape of the target succeeded."@,
                },
            );
            let n = (
                "scrape_duration_seconds"@,
                MetaSpec { kind: MetricKind::Gauge, help: "Duration of the last scrape."@ },
            );
            let s0 = as_pushed(store, fetched, now);
            recorded(store, target, fetched, duration, now) == ingested(
                ingested(s0, seq![first], seq![m], now),
                seq![second],
                seq![n],
                now,
            )
        }),
{
    let up = if is_readable(fetched) {
        ONE
    } else {
        0
    };
    let first = ScrapedSpec { key: own_key("up"@, target), value: up, ts: Some(now) };
    let second = ScrapedSpec {
        key: own_key("scrape_duration_seconds"@, target),
        value: duration,
        ts: Some(now),
    };
    let m = (
        "up"@,
        MetaSpec {
            kind: MetricKind::Gauge,
            help: "1 if the last scrape of the target succeeded."@,
        },
    );
    let n = (
        "scrape_duration_seconds"@,
        MetaSpec { kind: MetricKind::Gauge, help: "Duration of the last scrape."@ },
    );
    let s0 = as_pushed(store, fetched, now);
    law_batches_in_a_row(s0, seq![first], seq![second], seq![m], seq![n], now);
    assert(seq![first] + seq![second] =~= seq![first, second]);
    assert(seq![m] + seq![n] =~= seq![m, n]);
}

/// Samples and metadata that are taken in together are taken in as they are
/// alone.
proof fn lemma_apart(
    store: StoreSpec,
    s: ScrapedSpec,
    name: Seq<char>,
    new: MetaSpec,
    now: int,
)
    ensures
        ingested(store, seq![s], seq![(name, new)], now).series == ingested(
            store,
            seq![s],
            seq![],
            now,
        ).series,
        ingested(store, seq![s], seq![(name, new)], now).metas == ingested(
            store,
            seq![],
            seq![(name, new)],
            now,
        ).metas,
{
}

/// Apart from the scraper's own two series and their metadata, a scrape leaves
/// the series and the metadata that a push of the fetched text at the same
/// moment leaves, and a failed scrape those that there were. The metadata of the
/// two are set, and the limits of the store stay.
pub proof fn law_scrape_takes_in_what_a_push_does(
    store: StoreSpec,
    target: Seq<char>,
    fetched: Fetched,
    duration: u64,
    now: int,
)
    ensures
        ({
            let after = recorded(store, target, fetched, duration, now);
            let mid = as_pushed(store, fetched, now);
            let up = own_key("up"@, target);
            let took = own_key("scrape_duration_seconds"@, target);
            &&& forall|k: Key|
                k != up && k != took ==> (#[trigger] after.series.dom().contains(k)
                    <==> mid.series.dom().contains(k))
            &&& forall|k: Key|
                k != up && k != took && mid.series.dom().contains(k) ==> #[trigger] after.series[k]
                    == mid.series[k]
            &&& forall|n: Seq<char>|
                n != "up"@ && n != "scrape_duration_seconds"@ ==> (
                #[trigger] after.metas.dom().contains(n) <==> mid.metas.dom().contains(n))
            &&& forall|n: Seq<char>|
                n != "up"@ && n != "scrape_duration_seconds"@ && mid.metas.dom().contains(n)
                    ==> #[trigger] after.metas[n] == mid.metas[n]
            &&& after.metas.dom().contains("up"@) && after.metas["up"@] == (MetaSpec {
                kind: MetricKind::Gauge,
                help: "1 if the last scrape of the target succeeded."@,
            })
            &&& after.metas.dom().contains("scrape_duration_seconds"@)
            &&& after.metas["scrape_duration_seconds"@] == (MetaSpec {
                kind: MetricKind::Gauge,
                help: "Duration of the last scrape."@,
            })
            &&& after.retention_ms == store.retention_ms
            &&& after.max_points == store.max_points
            &&& scraped(fetched) is Ok <==> is_readable(fetched)
        }),
{
    lemma_names();
    lemma_scrape_steps(store, target, fetched, duration, now);
    let mid = as_pushed(store, fetched, now);
    let after = recorded(store, target, fetched, duration, now);
    reveal_with_fuel(with_samples, 3);
    reveal_with_fuel(with_metas, 3);
}

/// A scrape adds to the `up` series of the target whether it succeeded, one or
/// zero, and to its duration series the duration, at that moment, unless the
/// series already has a later sample.
pub proof fn law_scrape_adds_its_samples(
    store: StoreSpec,
    target: Seq<char>,
    fetched: Fetched,
    duration: u64,
    now: int,
)
    requires
        is_moment(store, now),
        store.max_points > 0,
        is_counter(store.ingested_total),
        is_counter(store.dropped_total),
        ({
            let mid = as_pushed(store, fetched, now).series;
            let (a, b) = (
                samples_of(mid, own_key("up"@, target)),
                samples_of(mid, own_key("scrape_duration_seconds"@, target)),
            );
            &&& is_after_epoch(a) && (a.len() > 0 ==> a.last().ts <= now)
            &&& is_after_epoch(b) && (b.len() > 0 ==> b.last().ts <= now)
        }),
    ensures
        ({
            let after = recorded(store, target, fetched, duration, now).series;
            let (a, b) = (
                samples_of(after, own_key("up"@, target)),
                samples_of(after, own_key("scrape_duration_seconds"@, target)),
            );
            &&& a.len() > 0 && a.last() == (Point {
                ts: now,
                value: if is_readable(fetched) {
                    ONE
                } else {
                    0
                },
            })
            &&& b.len() > 0 && b.last() == (Point { ts: now, value: duration })
        }),
{
    lemma_names();
    lemma_scrape_steps(store, target, fetched, duration, now);
    let up = if is_readable(fetched) {
        ONE
    } else {
        0
    };
    let first = ScrapedSpec { key: own_key("up"@, target), value: up, ts: Some(now) };
    let second = ScrapedSpec {
        key: own_key("scrape_duration_seconds"@, target),
        value: duration,
        ts: Some(now),
    };
    let (m, n) = (
        MetaSpec {
            kind: MetricKind::Gauge,
            help: "1 if the last scrape of the target succeeded."@,
        },
        MetaSpec { kind: MetricKind::Gauge, help: "Duration of the last scrape."@ },
    );
    let s0 = as_pushed(store, fetched, now);
    let s1 = ingested(s0, seq![first], seq![("up"@, m)], now);
    let s2 = ingested(s1, seq![second], seq![("scrape_duration_seconds"@, n)], now);
    assert(is_counter(s0.ingested_total) && is_counter(s0.dropped_total));
    assert(is_counter(s1.ingested_total) && is_counter(s1.dropped_total));
    lemma_apart(s0, first, "up"@, m, now);
    lemma_apart(s1, second, "scrape_duration_seconds"@, n, now);
    law_taking_in_a_sample(s0, first, now);
    lemma_last_stays(s0, first, now);
    assert(samples_of(s1.series, second.key) == samples_of(s0.series, second.key));
    law_taking_in_a_sample(s1, second, now);
    lemma_last_stays(s1, second, now);
    assert(samples_of(s2.series, first.key) == samples_of(s1.series, first.key));
}

/// A sample of the present that is taken in is the last one kept.
proof fn lemma_last_stays(store: StoreSpec, s: ScrapedSpec, now: int)
    requires
        is_moment(store, now),
        is_counter(store.ingested_total),
        is_counter(store.dropped_total),
        store.max_points > 0,
        s.ts == Some(now),
        is_after_epoch(samples_of(store.series, s.key)),
        samples_of(store.series, s.key).len() > 0 ==> samples_of(store.series, s.key).last().ts
            <= now,
    ensures
        ({
            let kept = samples_of(ingested(store, seq![s], seq![], now).series, s.key);
            kept.len() > 0 && kept.last() == (Point { ts: now, value: s.value })
        }),
{
    law_taking_in_a_sample(store, s, now);
    let known = samples_of(store.series, s.key);
    let all = known.push(Point { ts: now, value: s.value });
    let kept = samples_of(ingested(store, seq![s], seq![], now).series, s.key);
    if kept.len() == 0 {
        assert(all[all.len() - 1].ts < now - store.retention_ms);
    }
    assert(kept.last() == all.last());
}

} // verus!
