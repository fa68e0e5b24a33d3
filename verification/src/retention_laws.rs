//! Laws of retention: which samples a store takes in, and for how long it keeps
//! them.

use vstd::prelude::*;

use crate::model::{Key, MetaSpec, Point, ScrapedSpec, MAX_TIMESTAMP_MS};
use crate::order::text_order;
use crate::sorted::{is_sorted, keys_of, map_of};
use crate::storage::{
    accepted, counted, cutoff, ingested, latest, lemma_merged, pruned, pushed, samples_of,
    with_metas, with_samples, without_old, StoreSpec, DEFAULT_MAX_POINTS,
};
use crate::store_laws::{all_chronological, law_pruning, lemma_without_old};
use crate::textfmt::Exposition;

verus! {

/// The moment and the retention are in their ranges.
pub open spec fn is_moment(store: StoreSpec, now: int) -> bool {
    store.retention_ms >= 0 && 0 <= now <= MAX_TIMESTAMP_MS
}

/// No sample lies before the epoch.
pub open spec fn is_after_epoch(s: Seq<Point>) -> bool {
    forall|i: int| 0 <= i < s.len() ==> (#[trigger] s[i]).ts >= 0
}

/// When the sample was taken, or else when it came in.
pub open spec fn taken_at(s: ScrapedSpec, now: int) -> int {
    match s.ts {
        Some(t) => t,
        None => now,
    }
}

/// The counter after one more event, in 64 bits.
pub open spec fn one_more(total: int) -> int {
    if total == 0xffff_ffff_ffff_ffff {
        0
    } else {
        total + 1
    }
}

pub open spec fn is_counter(total: int) -> bool {
    0 <= total <= 0xffff_ffff_ffff_ffff
}

proof fn lemma_one_sample(store: StoreSpec, s: ScrapedSpec, now: int)
    ensures
        ({
            let cut = cutoff(now, store.retention_ms);
            let one = seq![s];
            &&& with_samples(store.series, one, now, cut, store.max_points)
                == crate::storage::with_sample(store.series, s, now, cut, store.max_points)
            &&& accepted(store.series, one, now, cut, store.max_points) == if crate::storage::is_accepted(
                store.series,
                s,
                now,
                cut,
            ) {
                1nat
            } else {
                0nat
            }
        }),
{
    let one = seq![s];
    assert(one.drop_last() =~= seq![]);
    reveal_with_fuel(with_samples, 2);
    reveal_with_fuel(accepted, 2);
}

/// A sample is taken in if and only if it is not older than the retention and
/// not older than the last sample of its series. One that is not taken in
/// changes nothing but the count of dropped samples. One that is taken in is
/// appended to its series, of which the samples in front are dropped as long as
/// there are more than the cap or they are older than the retention, and no
/// others; the other series and the metadata stay.
pub proof fn law_taking_in_a_sample(store: StoreSpec, s: ScrapedSpec, now: int)
    requires
        is_moment(store, now),
        is_counter(store.ingested_total),
        is_counter(store.dropped_total),
        taken_at(s, now) >= 0,
        is_after_epoch(samples_of(store.series, s.key)),
    ensures
        ({
            let t = taken_at(s, now);
            let known = samples_of(store.series, s.key);
            let all = known.push(Point { ts: t, value: s.value });
            let after = ingested(store, seq![s], seq![], now);
            let kept = samples_of(after.series, s.key);
            let taken = t >= now - store.retention_ms && (known.len() > 0 ==> t
                >= known.last().ts);
            &&& after.metas == store.metas
            &&& after.retention_ms == store.retention_ms
            &&& after.max_points == store.max_points
            &&& !taken ==> after.series == store.series && after.ingested_total
                == store.ingested_total && after.dropped_total == one_more(store.dropped_total)
            &&& taken ==> {
                &&& after.dropped_total == store.dropped_total
                &&& after.ingested_total == one_more(store.ingested_total)
                &&& after.series.dom() == store.series.dom().insert(s.key)
                &&& forall|k: Key|
                    k != s.key && store.series.dom().contains(k) ==> #[trigger] after.series[k]
                        == store.series[k]
                &&& kept.len() <= all.len() && kept == all.skip(all.len() - kept.len())
                &&& kept.len() <= store.max_points
                &&& kept.len() > 0 ==> kept[0].ts >= now - store.retention_ms
                &&& kept.len() < all.len() && kept.len() < store.max_points ==> all[all.len()
                    - kept.len() - 1].ts < now - store.retention_ms
            }
        }),
{
    let t = taken_at(s, now);
    let known = samples_of(store.series, s.key);
    let all = known.push(Point { ts: t, value: s.value });
    let cut = cutoff(now, store.retention_ms);
    lemma_one_sample(store, s, now);
    assert(with_metas(store.metas, seq![]) == store.metas);
    let capped = latest(all, store.max_points);
    lemma_without_old(capped, cut);
    let kept = without_old(capped, cut);
    assert(kept =~= all.skip(all.len() - kept.len()));
    let after = ingested(store, seq![s], seq![], now);
    if crate::storage::is_accepted(store.series, s, now, cut) {
        assert(samples_of(after.series, s.key) == kept);
        if kept.len() < all.len() && kept.len() < store.max_points {
            assert(kept.len() < capped.len());
            let d = capped.len() - kept.len() - 1;
            assert(capped[d].ts < cut);
            assert(capped[d] == all[all.len() - kept.len() - 1]);
            let a = all[all.len() - kept.len() - 1];
            assert(a.ts >= 0) by {
                if all.len() - kept.len() - 1 < known.len() {
                    assert(known[all.len() - kept.len() - 1] == a);
                }
            }
        }
    }
}

/// The retention decides: the first sample of a series is taken in if and only
/// if it is at most the retention old, and then it is kept by every pruning up
/// to the moment at which it gets older.
pub proof fn law_retention_decides(store: StoreSpec, s: ScrapedSpec, now: int, then: int)
    requires
        is_moment(store, now),
        is_counter(store.ingested_total),
        is_counter(store.dropped_total),
        is_moment(store, then),
        taken_at(s, now) >= 0,
        samples_of(store.series, s.key).len() == 0,
        store.max_points > 0,
    ensures
        ({
            let t = taken_at(s, now);
            let after = ingested(store, seq![s], seq![], now);
            let kept = samples_of(after.series, s.key);
            let left = samples_of(pruned(after, then).series, s.key);
            if t < now - store.retention_ms {
                kept.len() == 0 && after.dropped_total == one_more(store.dropped_total)
            } else {
                &&& kept == seq![Point { ts: t, value: s.value }]
                &&& after.ingested_total == one_more(store.ingested_total)
                &&& then <= t + store.retention_ms ==> left == kept
                &&& then > t + store.retention_ms ==> left.len() == 0
            }
        }),
{
    law_taking_in_a_sample(store, s, now);
    let t = taken_at(s, now);
    let point = Point { ts: t, value: s.value };
    let after = ingested(store, seq![s], seq![], now);
    let kept = samples_of(after.series, s.key);
    if t >= now - store.retention_ms {
        let all = samples_of(store.series, s.key).push(point);
        assert(all =~= seq![point]);
        if kept.len() == 0 {
            assert(all[0].ts < now - store.retention_ms);
        }
        assert(kept =~= seq![point]);
        let cut = cutoff(then, store.retention_ms);
        reveal_with_fuel(without_old, 2);
        assert(kept.drop_first() =~= seq![]);
    }
}

/// Taking in two batches one after the other is taking in both at once.
pub proof fn law_batches_in_a_row(
    store: StoreSpec,
    a: Seq<ScrapedSpec>,
    b: Seq<ScrapedSpec>,
    m: Seq<(Seq<char>, MetaSpec)>,
    n: Seq<(Seq<char>, MetaSpec)>,
    now: int,
)
    ensures
        ingested(ingested(store, a, m, now), b, n, now) == ingested(store, a + b, m + n, now),
{
    let cut = cutoff(now, store.retention_ms);
    let max = store.max_points;
    lemma_samples_in_a_row(store.series, a, b, now, cut, max);
    lemma_metas_in_a_row(store.metas, m, n);
    let mid = with_samples(store.series, a, now, cut, max);
    let (x, y) = (
        accepted(store.series, a, now, cut, max) as int,
        accepted(mid, b, now, cut, max) as int,
    );
    lemma_counted_twice(store.ingested_total, x, y);
    lemma_counted_twice(store.dropped_total, a.len() - x, b.len() - y);
    assert((a + b).len() - (x + y) == (a.len() - x) + (b.len() - y));
}

proof fn lemma_counted_twice(total: int, x: int, y: int)
    ensures
        counted(counted(total, x), y) == counted(total, x + y),
{
    let w: int = 0x1_0000_0000_0000_0000;
    vstd::arithmetic::div_mod::lemma_add_mod_noop_right(y, total + x, w);
    assert((total + x) % w + y == y + (total + x) % w);
    assert(y + (total + x) == total + (x + y));
}

proof fn lemma_samples_in_a_row(
    series: Map<Key, Seq<Point>>,
    a: Seq<ScrapedSpec>,
    b: Seq<ScrapedSpec>,
    now: int,
    cut: int,
    max: nat,
)
    ensures
        ({
            let mid = with_samples(series, a, now, cut, max);
            &&& with_samples(mid, b, now, cut, max) == with_samples(series, a + b, now, cut, max)
            &&& accepted(series, a + b, now, cut, max) == accepted(series, a, now, cut, max)
                + accepted(mid, b, now, cut, max)
        }),
    decreases b.len(),
{
    if b.len() == 0 {
        assert(a + b =~= a);
    } else {
        lemma_samples_in_a_row(series, a, b.drop_last(), now, cut, max);
        assert((a + b).drop_last() =~= a + b.drop_last());
        assert((a + b).last() == b.last());
    }
}

proof fn lemma_metas_in_a_row(
    metas: Map<Seq<char>, MetaSpec>,
    m: Seq<(Seq<char>, MetaSpec)>,
    n: Seq<(Seq<char>, MetaSpec)>,
)
    ensures
        with_metas(with_metas(metas, m), n) == with_metas(metas, m + n),
    decreases n.len(),
{
    if n.len() == 0 {
        assert(m + n =~= m);
    } else {
        lemma_metas_in_a_row(metas, m, n.drop_last());
        assert((m + n).drop_last() =~= m + n.drop_last());
        assert((m + n).last() == n.last());
    }
}

/// The metadata of a metric after new ones: the new kind, and the new help text
/// unless that is empty.
pub open spec fn is_update_of(
    after: Map<Seq<char>, MetaSpec>,
    before: Map<Seq<char>, MetaSpec>,
    name: Seq<char>,
    new: MetaSpec,
) -> bool {
    &&& after.dom().contains(name)
    &&& after[name].kind == new.kind
    &&& new.help.len() > 0 ==> after[name].help == new.help
    &&& new.help.len() == 0 && before.dom().contains(name) ==> after[name].help
        == before[name].help
    &&& new.help.len() == 0 && !before.dom().contains(name) ==> after[name].help.len() == 0
}

/// New metadata of a metric update its own and no others, and no series.
pub proof fn law_taking_in_metadata(
    store: StoreSpec,
    name: Seq<char>,
    new: MetaSpec,
    now: int,
)
    ensures
        ({
            let after = ingested(store, seq![], seq![(name, new)], now);
            &&& is_update_of(after.metas, store.metas, name, new)
            &&& after.metas.dom() == store.metas.dom().insert(name)
            &&& forall|n: Seq<char>|
                n != name && store.metas.dom().contains(n) ==> #[trigger] after.metas[n]
                    == store.metas[n]
            &&& after.series == store.series
        }),
{
    let one = seq![(name, new)];
    assert(one.drop_last() =~= seq![]);
    reveal_with_fuel(with_metas, 2);
}

/// A payload is taken in as its samples in their order and its metadata in
/// whatever sorted listing.
pub proof fn law_push_is_ingestion(
    store: StoreSpec,
    x: Exposition,
    listing: Seq<(Seq<char>, MetaSpec)>,
    now: int,
)
    requires
        is_sorted(keys_of(listing), text_order()),
        map_of(listing) == x.metas,
    ensures
        pushed(store, x, now) == ingested(store, x.samples, listing, now),
{
    lemma_merged(store.metas, listing);
}

/// A payload updates the metadata of the metrics that it gives metadata for and
/// of no others.
pub proof fn law_pushed_metadata(store: StoreSpec, x: Exposition, now: int)
    ensures
        ({
            let after = pushed(store, x, now);
            &&& forall|n: Seq<char>| #[trigger]
                x.metas.dom().contains(n) ==> is_update_of(
                    after.metas,
                    store.metas,
                    n,
                    x.metas[n],
                )
            &&& forall|n: Seq<char>|
                !x.metas.dom().contains(n) ==> (#[trigger] after.metas.dom().contains(n)
                    <==> store.metas.dom().contains(n))
            &&& forall|n: Seq<char>|
                !x.metas.dom().contains(n) && store.metas.dom().contains(n)
                    ==> #[trigger] after.metas[n] == store.metas[n]
        }),
{
}

/// Pruning a chronological store keeps the samples that are at most the
/// retention old, in their order, and no others; series without one go, and
/// nothing else changes.
pub proof fn law_pruning_by_age(store: StoreSpec, now: int)
    requires
        is_moment(store, now),
        all_chronological(store.series),
        forall|k: Key| #[trigger] store.series.dom().contains(k) ==> is_after_epoch(store.series[k]),
    ensures
        ({
            let after = pruned(store, now);
            &&& forall|k: Key, p: Point|
                #![trigger samples_of(after.series, k).contains(p)]
                samples_of(after.series, k).contains(p) <==> samples_of(store.series, k).contains(p)
                    && p.ts >= now - store.retention_ms
            &&& forall|k: Key| #[trigger]
                after.series.dom().contains(k) ==> {
                    let (old, new) = (store.series[k], after.series[k]);
                    &&& store.series.dom().contains(k)
                    &&& 0 < new.len() <= old.len()
                    &&& new == old.skip(old.len() - new.len())
                }
            &&& after.metas == store.metas
            &&& after.retention_ms == store.retention_ms
            &&& after.max_points == store.max_points
            &&& after.ingested_total == store.ingested_total
            &&& after.dropped_total == store.dropped_total
        }),
{
    law_pruning(store, now);
    let after = pruned(store, now);
    let cut = cutoff(now, store.retention_ms);
    assert forall|k: Key| #[trigger] after.series.dom().contains(k) implies ({
        let (old, new) = (store.series[k], after.series[k]);
        &&& store.series.dom().contains(k)
        &&& 0 < new.len() <= old.len()
        &&& new == old.skip(old.len() - new.len())
    }) by {
        lemma_without_old(store.series[k], cut);
    }
    assert forall|k: Key, p: Point|
        #![trigger samples_of(after.series, k).contains(p)]
        samples_of(after.series, k).contains(p) <==> samples_of(store.series, k).contains(p) && p.ts
            >= now - store.retention_ms by {
        if samples_of(store.series, k).contains(p) {
            let i = choose|i: int|
                0 <= i < samples_of(store.series, k).len() && samples_of(store.series, k)[i] == p;
            assert(store.series.dom().contains(k));
            assert(store.series[k][i].ts >= 0);
        }
    }
}

/// A series of a store with the default capacity keeps its last ten thousand
/// samples.
pub proof fn law_default_capacity(s: Seq<Point>)
    ensures
        s.len() <= 10_000 ==> latest(s, DEFAULT_MAX_POINTS as nat) == s,
        s.len() > 10_000 ==> latest(s, DEFAULT_MAX_POINTS as nat) == s.skip(s.len() - 10_000),
{
}

} // verus!
