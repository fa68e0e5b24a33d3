//! What holds of the store over several operations.

use vstd::prelude::*;

use crate::model::{key_order, lemma_key_order, Key, LabelPairs, MetaSpec, Point, ScrapedSpec};
use crate::order::{is_strict_order, lemma_text_order, text_order};
use crate::sorted::{is_sorted, keys_of, lemma_listing_unique, lemma_map_of, map_of};
use crate::storage::{
    accepted, bucket, collected, counted, cutoff, empty_store, found, ingested, is_accepted,
    is_dump_of, latest, meets, pruned, pruned_series, restored, samples_of, stamp, thinned,
    with_sample, with_samples, without_old, DumpSpec, RangeSpec, StoreSpec,
};

verus! {

/// No sample is older than one before it.
pub open spec fn is_chronological(s: Seq<Point>) -> bool {
    forall|i: int, j: int| 0 <= i <= j < s.len() ==> (#[trigger] s[i]).ts <= (#[trigger] s[j]).ts
}

/// Every series is chronological.
pub open spec fn all_chronological(series: Map<Key, Seq<Point>>) -> bool {
    forall|k: Key| #[trigger] series.dom().contains(k) ==> is_chronological(series[k])
}

/// No series has more than `max` samples.
pub open spec fn all_capped(series: Map<Key, Seq<Point>>, max: nat) -> bool {
    forall|k: Key| #[trigger] series.dom().contains(k) ==> series[k].len() <= max
}

pub proof fn lemma_without_old(s: Seq<Point>, cut: int)
    ensures
        without_old(s, cut).len() <= s.len(),
        without_old(s, cut) == s.skip(s.len() - without_old(s, cut).len()),
        without_old(s, cut).len() > 0 ==> without_old(s, cut)[0].ts >= cut,
        forall|i: int| 0 <= i < s.len() - without_old(s, cut).len() ==> (#[trigger] s[i]).ts < cut,
        without_old(without_old(s, cut), cut) == without_old(s, cut),
    decreases s.len(),
{
    if s.len() > 0 && s[0].ts < cut {
        let t = s.drop_first();
        lemma_without_old(t, cut);
        let n = without_old(t, cut).len();
        assert(t.skip(t.len() - n) =~= s.skip(s.len() - n));
        assert forall|i: int| 0 <= i < s.len() - n implies (#[trigger] s[i]).ts < cut by {
            if i > 0 {
                assert(t[i - 1] == s[i]);
            }
        }
    } else {
        assert(s.skip(0) =~= s);
    }
}

/// In a chronological series, dropping old samples in front drops all of them.
proof fn lemma_all_recent(s: Seq<Point>, cut: int)
    requires
        is_chronological(s),
    ensures
        is_chronological(without_old(s, cut)),
        forall|i: int| 0 <= i < without_old(s, cut).len() ==> (#[trigger] without_old(s, cut)[i]).ts
            >= cut,
        forall|p: Point| without_old(s, cut).contains(p) <==> s.contains(p) && p.ts >= cut,
{
    lemma_without_old(s, cut);
    let t = without_old(s, cut);
    let d = s.len() - t.len();
    assert forall|i: int| 0 <= i < t.len() implies (#[trigger] t[i]).ts >= cut by {
        assert(t[0] == s[d] && t[i] == s[d + i]);
    }
    assert forall|i: int, j: int| 0 <= i <= j < t.len() implies (#[trigger] t[i]).ts <= (
    #[trigger] t[j]).ts by {
        assert(t[i] == s[d + i] && t[j] == s[d + j]);
    }
    assert forall|p: Point| t.contains(p) <==> s.contains(p) && p.ts >= cut by {
        if t.contains(p) {
            let i = choose|i: int| 0 <= i < t.len() && t[i] == p;
            assert(s[d + i] == p);
        }
        if s.contains(p) && p.ts >= cut {
            let i = choose|i: int| 0 <= i < s.len() && s[i] == p;
            assert(t[i - d] == p);
        }
    }
}

/// An accepted sample becomes the last one of its series, unless the store
/// keeps no samples at all.
proof fn lemma_accepted_last(s: Seq<Point>, p: Point, cut: int, max: nat)
    requires
        max > 0,
        p.ts >= cut,
    ensures
        ({
            let t = without_old(latest(s.push(p), max), cut);
            &&& 0 < t.len() <= max
            &&& t.last() == p
            &&& t == s.push(p).skip(s.len() + 1 - t.len())
        }),
{
    let whole = s.push(p);
    let kept = latest(whole, max);
    assert(kept.last() == p);
    lemma_without_old(kept, cut);
    let t = without_old(kept, cut);
    if t.len() == 0 {
        assert(kept[kept.len() - 1].ts < cut);
    }
    assert(t =~= whole.skip(whole.len() - t.len()));
}

/// A sample that is taken in can be read: it is the last one of its series, and
/// a query whose range it lies in and whose filters it meets returns it as the
/// last sample of that series. The other series do not change.
pub proof fn law_written_sample_is_read(
    series: Map<Key, Seq<Point>>,
    s: ScrapedSpec,
    now: int,
    cut: int,
    max: nat,
    filters: LabelPairs,
    range: RangeSpec,
)
    requires
        is_accepted(series, s, now, cut),
        max > 0,
        meets(s.key.1, filters),
        range.from <= stamp(s, now) <= range.to,
    ensures
        ({
            let after = with_sample(series, s, now, cut, max);
            let point = Point { ts: stamp(s, now), value: s.value };
            let result = found(after, s.key.0, filters, range);
            &&& after.dom().contains(s.key) && after[s.key].last() == point
            &&& result.dom().contains(s.key.1) && result[s.key.1].last() == point
            &&& forall|k: Key|
                k != s.key ==> (#[trigger] after.dom().contains(k) <==> series.dom().contains(k))
                    && after[k] == series[k]
        }),
{
    let after = with_sample(series, s, now, cut, max);
    let point = Point { ts: stamp(s, now), value: s.value };
    lemma_accepted_last(samples_of(series, s.key), point, cut, max);
    assert(s.key == (s.key.0, s.key.1));
}

/// A sample of a batch that is taken in, after which the batch has none of its
/// series, can be read when the whole batch was taken in.
pub proof fn law_sample_of_batch_is_read(
    series: Map<Key, Seq<Point>>,
    batch: Seq<ScrapedSpec>,
    i: int,
    now: int,
    cut: int,
    max: nat,
    filters: LabelPairs,
    range: RangeSpec,
)
    requires
        0 <= i < batch.len(),
        is_accepted(with_samples(series, batch.take(i), now, cut, max), batch[i], now, cut),
        forall|j: int| i < j < batch.len() ==> (#[trigger] batch[j]).key != batch[i].key,
        max > 0,
        meets(batch[i].key.1, filters),
        range.from <= stamp(batch[i], now) <= range.to,
    ensures
        ({
            let after = with_samples(series, batch, now, cut, max);
            let key = batch[i].key;
            let point = Point { ts: stamp(batch[i], now), value: batch[i].value };
            let result = found(after, key.0, filters, range);
            &&& after.dom().contains(key) && after[key].last() == point
            &&& result.dom().contains(key.1) && result[key.1].last() == point
        }),
    decreases batch.len(),
{
    let rest = batch.drop_last();
    let key = batch[i].key;
    assert(key == (key.0, key.1));
    if i == batch.len() - 1 {
        assert(rest =~= batch.take(i));
        law_written_sample_is_read(
            with_samples(series, rest, now, cut, max),
            batch[i],
            now,
            cut,
            max,
            filters,
            range,
        );
    } else {
        assert(rest.take(i) =~= batch.take(i));
        assert(rest[i] == batch[i]);
        assert forall|j: int| i < j < rest.len() implies (#[trigger] rest[j]).key
            != rest[i].key by {
            assert(rest[j] == batch[j]);
        }
        law_sample_of_batch_is_read(series, rest, i, now, cut, max, filters, range);
        assert(batch[batch.len() - 1].key != key);
        let mid = with_samples(series, rest, now, cut, max);
        let after = with_samples(series, batch, now, cut, max);
        assert(after.dom().contains(key) && after[key] == mid[key]);
    }
}

/// The samples of a series that a batch adds, in their order.
pub open spec fn accepted_points(
    series: Map<Key, Seq<Point>>,
    batch: Seq<ScrapedSpec>,
    now: int,
    cut: int,
    max: nat,
    key: Key,
) -> Seq<Point>
    decreases batch.len(),
{
    if batch.len() == 0 {
        seq![]
    } else {
        let rest = batch.drop_last();
        let s = batch.last();
        let before = accepted_points(series, rest, now, cut, max, key);
        if s.key == key && is_accepted(with_samples(series, rest, now, cut, max), s, now, cut) {
            before.push(Point { ts: stamp(s, now), value: s.value })
        } else {
            before
        }
    }
}

/// What is kept of a series is the tail of what was known and accepted of it.
/// It ends with the last accepted sample, unless the store keeps no samples.
pub proof fn law_kept_samples_are_the_latest(
    series: Map<Key, Seq<Point>>,
    batch: Seq<ScrapedSpec>,
    now: int,
    cut: int,
    max: nat,
    key: Key,
)
    ensures
        ({
            let kept = samples_of(with_samples(series, batch, now, cut, max), key);
            let new = accepted_points(series, batch, now, cut, max, key);
            let all = samples_of(series, key) + new;
            &&& kept.len() <= all.len()
            &&& kept == all.skip(all.len() - kept.len())
            &&& new.len() > 0 && max > 0 ==> 0 < kept.len() <= max && kept.last() == new.last()
        }),
    decreases batch.len(),
{
    if batch.len() == 0 {
        let known = samples_of(series, key);
        assert(known + Seq::<Point>::empty() =~= known);
        assert(known.skip(0) =~= known);
    } else {
        let rest = batch.drop_last();
        let s = batch.last();
        law_kept_samples_are_the_latest(series, rest, now, cut, max, key);
        let mid = with_samples(series, rest, now, cut, max);
        if s.key == key && is_accepted(mid, s, now, cut) {
            let known = samples_of(mid, key);
            let point = Point { ts: stamp(s, now), value: s.value };
            let old = samples_of(series, key) + accepted_points(series, rest, now, cut, max, key);
            let all = old.push(point);
            let kept = without_old(latest(known.push(point), max), cut);
            assert(samples_of(series, key) + accepted_points(series, batch, now, cut, max, key)
                =~= all);
            lemma_without_old(latest(known.push(point), max), cut);
            assert(known.push(point) =~= all.skip(all.len() - known.len() - 1));
            assert(kept =~= all.skip(all.len() - kept.len()));
            if max > 0 {
                lemma_accepted_last(known, point, cut, max);
            }
        }
    }
}

/// A sample that is refused changes nothing.
pub proof fn law_refused_sample_changes_nothing(
    series: Map<Key, Seq<Point>>,
    s: ScrapedSpec,
    now: int,
    cut: int,
    max: nat,
)
    requires
        stamp(s, now) < cut || (samples_of(series, s.key).len() > 0 && stamp(s, now) < samples_of(
            series,
            s.key,
        ).last().ts),
    ensures
        with_sample(series, s, now, cut, max) == series,
{
}

proof fn lemma_sample_keeps_order(
    series: Map<Key, Seq<Point>>,
    s: ScrapedSpec,
    now: int,
    cut: int,
    max: nat,
)
    requires
        all_chronological(series),
    ensures
        all_chronological(with_sample(series, s, now, cut, max)),
        all_capped(series, max) ==> all_capped(with_sample(series, s, now, cut, max), max),
{
    let after = with_sample(series, s, now, cut, max);
    if is_accepted(series, s, now, cut) {
        let known = samples_of(series, s.key);
        let point = Point { ts: stamp(s, now), value: s.value };
        let whole = known.push(point);
        assert(is_chronological(known));
        assert forall|i: int, j: int| 0 <= i <= j < whole.len() implies (#[trigger] whole[i]).ts
            <= (#[trigger] whole[j]).ts by {
            if j == known.len() && i < j {
                assert(known[i].ts <= known[known.len() - 1].ts);
            }
        }
        let kept = latest(whole, max);
        assert(is_chronological(kept));
        lemma_all_recent(kept, cut);
        lemma_without_old(kept, cut);
        assert forall|k: Key| #[trigger] after.dom().contains(k) implies is_chronological(
            after[k],
        ) by {
            if k != s.key {
                assert(series.dom().contains(k));
            }
        }
        if all_capped(series, max) {
            assert forall|k: Key| #[trigger] after.dom().contains(k) implies after[k].len()
                <= max by {
                if k != s.key {
                    assert(series.dom().contains(k));
                }
            }
        }
    }
}

pub proof fn lemma_batch_keeps_order(
    series: Map<Key, Seq<Point>>,
    batch: Seq<ScrapedSpec>,
    now: int,
    cut: int,
    max: nat,
)
    requires
        all_chronological(series),
    ensures
        all_chronological(with_samples(series, batch, now, cut, max)),
        all_capped(series, max) ==> all_capped(with_samples(series, batch, now, cut, max), max),
        accepted(series, batch, now, cut, max) <= batch.len(),
    decreases batch.len(),
{
    if batch.len() > 0 {
        let rest = batch.drop_last();
        lemma_batch_keeps_order(series, rest, now, cut, max);
        lemma_sample_keeps_order(
            with_samples(series, rest, now, cut, max),
            batch.last(),
            now,
            cut,
            max,
        );
    }
}

/// A new store is in chronological order and within the cap.
pub proof fn law_new_store(retention_ms: int, max_points: nat)
    ensures
        all_chronological(empty_store(retention_ms, max_points).series),
        all_capped(empty_store(retention_ms, max_points).series, max_points),
{
}

/// Ingestion keeps every series in chronological order and within the cap, and
/// counts every sample of the batch once, as ingested or as dropped.
pub proof fn law_ingestion(
    store: StoreSpec,
    samples: Seq<ScrapedSpec>,
    metas: Seq<(Seq<char>, MetaSpec)>,
    now: int,
)
    requires
        all_chronological(store.series),
    ensures
        ({
            let after = ingested(store, samples, metas, now);
            &&& all_chronological(after.series)
            &&& all_capped(store.series, store.max_points) ==> all_capped(
                after.series,
                store.max_points,
            )
            &&& counted(after.ingested_total, after.dropped_total) == counted(
                store.ingested_total,
                store.dropped_total + samples.len(),
            )
        }),
{
    let cut = cutoff(now, store.retention_ms);
    lemma_batch_keeps_order(store.series, samples, now, cut, store.max_points);
    let n = accepted(store.series, samples, now, cut, store.max_points) as int;
    let m = samples.len() - n;
    let w: int = 0x1_0000_0000_0000_0000;
    let (a, b) = (store.ingested_total, store.dropped_total);
    vstd::arithmetic::div_mod::lemma_add_mod_noop(a + n, b + m, w);
    assert((a + n) + (b + m) == a + (b + samples.len()));
}

/// Ingestion leaves the series alone that no sample of the batch belongs to.
pub proof fn law_ingestion_is_local(
    series: Map<Key, Seq<Point>>,
    batch: Seq<ScrapedSpec>,
    now: int,
    cut: int,
    max: nat,
    k: Key,
)
    requires
        forall|i: int| 0 <= i < batch.len() ==> (#[trigger] batch[i]).key != k,
    ensures
        with_samples(series, batch, now, cut, max).dom().contains(k) <==> series.dom().contains(k),
        series.dom().contains(k) ==> with_samples(series, batch, now, cut, max)[k] == series[k],
    decreases batch.len(),
{
    if batch.len() > 0 {
        let rest = batch.drop_last();
        assert forall|i: int| 0 <= i < rest.len() implies (#[trigger] rest[i]).key != k by {
            assert(rest[i] == batch[i]);
        }
        assert(batch[batch.len() - 1].key != k);
        law_ingestion_is_local(series, rest, now, cut, max, k);
    }
}

/// After pruning, every series has a sample and begins with one that is not too
/// old; what was left out was too old. In a chronological store exactly the
/// samples that are not too old remain, and their order and the cap are kept.
pub proof fn law_pruning(store: StoreSpec, now: int)
    ensures
        ({
            let after = pruned(store, now).series;
            let cut = cutoff(now, store.retention_ms);
            &&& forall|k: Key| #[trigger]
                after.dom().contains(k) ==> after[k].len() > 0 && after[k][0].ts >= cut
            &&& all_chronological(store.series) ==> forall|k: Key, p: Point|
                #![trigger samples_of(after, k).contains(p)]
                samples_of(after, k).contains(p) <==> samples_of(store.series, k).contains(p)
                    && p.ts >= cut
            &&& all_chronological(store.series) ==> all_chronological(after)
            &&& all_capped(store.series, store.max_points) ==> all_capped(after, store.max_points)
        }),
{
    let after = pruned(store, now).series;
    let cut = cutoff(now, store.retention_ms);
    assert forall|k: Key| #[trigger] after.dom().contains(k) implies after[k]
        == store.series[k].skip(store.series[k].len() - after[k].len()) && after[k].len()
        <= store.series[k].len() by {
        lemma_without_old(store.series[k], cut);
    }
    assert forall|k: Key| #[trigger] after.dom().contains(k) implies after[k].len() > 0
        && after[k][0].ts >= cut by {
        lemma_without_old(store.series[k], cut);
    }
    if all_chronological(store.series) {
        assert forall|k: Key, p: Point|
            #![trigger samples_of(after, k).contains(p)]
            samples_of(after, k).contains(p) <==> samples_of(store.series, k).contains(p) && p.ts
                >= cut by {
            if store.series.dom().contains(k) {
                lemma_all_recent(store.series[k], cut);
                assert(without_old(store.series[k], cut).contains(p) <==> store.series[k].contains(
                    p,
                ) && p.ts >= cut);
            }
        }
    }
}

/// Pruning twice at one moment is pruning once.
pub proof fn law_pruning_is_idempotent(store: StoreSpec, now: int)
    ensures
        pruned(pruned(store, now), now) == pruned(store, now),
{
    let cut = cutoff(now, store.retention_ms);
    let once = pruned_series(store.series, cut);
    assert forall|k: Key| once.dom().contains(k) implies #[trigger] without_old(once[k], cut)
        == once[k] by {
        lemma_without_old(store.series[k], cut);
    }
    assert(pruned_series(once, cut) =~= once);
}

/// The last entries win, so a listing with distinct keys is taken as it is.
proof fn lemma_collected<A, B>(s: Seq<(A, B)>, before: spec_fn(A, A) -> bool)
    requires
        is_strict_order(before),
        is_sorted(keys_of(s), before),
    ensures
        collected(s) == map_of(s),
    decreases s.len(),
{
    if s.len() == 0 {
        assert(map_of(s) =~= Map::empty());
    } else {
        let t = s.drop_last();
        assert(keys_of(t) =~= keys_of(s).drop_last());
        lemma_collected(t, before);
        lemma_map_of(s, before);
        lemma_map_of(t, before);
        let (m, n) = (map_of(s), map_of(t).insert(s.last().0, s.last().1));
        let last = s.len() - 1;
        assert forall|x: A| m.dom().contains(x) <==> n.dom().contains(x) by {
            if m.dom().contains(x) {
                let i = choose|i: int| 0 <= i < s.len() && (#[trigger] s[i]).0 == x;
                if i < last {
                    assert(t[i] == s[i]);
                }
            }
            if map_of(t).dom().contains(x) {
                let i = choose|i: int| 0 <= i < t.len() && (#[trigger] t[i]).0 == x;
                assert(s[i] == t[i]);
            }
            assert(s[last] == s.last());
        }
        assert forall|x: A| m.dom().contains(x) implies #[trigger] m[x] == n[x] by {
            let i = choose|i: int| 0 <= i < s.len() && (#[trigger] s[i]).0 == x;
            if i < last {
                assert(t[i] == s[i]);
                assert(before(keys_of(s)[i], keys_of(s)[last]));
                assert(keys_of(s)[last] == s[last].0);
            }
        }
        assert(m =~= n);
    }
}

/// Restoring puts the records of the dump in place of what the store held: of
/// those with one key the last, and no others. The counters and the limits stay.
pub proof fn law_restored_records(store: StoreSpec, dump: DumpSpec, i: int, j: int)
    ensures
        ({
            let after = restored(store, dump);
            &&& 0 <= i < dump.series.len() && (forall|n: int|
                i < n < dump.series.len() ==> (#[trigger] dump.series[n]).0 != dump.series[i].0)
                ==> after.series.dom().contains(dump.series[i].0) && after.series[dump.series[i].0]
                == dump.series[i].1
            &&& 0 <= j < dump.metas.len() && (forall|n: int|
                j < n < dump.metas.len() ==> (#[trigger] dump.metas[n]).0 != dump.metas[j].0)
                ==> after.metas.dom().contains(dump.metas[j].0) && after.metas[dump.metas[j].0]
                == dump.metas[j].1
            &&& forall|k: Key| #[trigger]
                after.series.dom().contains(k) ==> exists|n: int|
                    0 <= n < dump.series.len() && (#[trigger] dump.series[n]).0 == k
            &&& forall|k: Seq<char>| #[trigger]
                after.metas.dom().contains(k) ==> exists|n: int|
                    0 <= n < dump.metas.len() && (#[trigger] dump.metas[n]).0 == k
            &&& after.retention_ms == store.retention_ms
            &&& after.max_points == store.max_points
            &&& after.ingested_total == store.ingested_total
            &&& after.dropped_total == store.dropped_total
        }),
{
    lemma_records(dump.series, i);
    lemma_records(dump.metas, j);
}

proof fn lemma_records<A, B>(s: Seq<(A, B)>, i: int)
    ensures
        0 <= i < s.len() && (forall|n: int| i < n < s.len() ==> (#[trigger] s[n]).0 != s[i].0)
            ==> collected(s).dom().contains(s[i].0) && collected(s)[s[i].0] == s[i].1,
        forall|k: A| #[trigger]
            collected(s).dom().contains(k) ==> exists|n: int|
                0 <= n < s.len() && (#[trigger] s[n]).0 == k,
    decreases s.len(),
{
    if s.len() > 0 {
        let t = s.drop_last();
        lemma_records(t, i);
        assert forall|k: A| #[trigger] collected(s).dom().contains(k) implies exists|n: int|
            0 <= n < s.len() && (#[trigger] s[n]).0 == k by {
            if k == s.last().0 {
                assert(s[s.len() - 1].0 == k);
            } else {
                assert(collected(t).dom().contains(k));
                let n = choose|n: int| 0 <= n < t.len() && (#[trigger] t[n]).0 == k;
                assert(s[n] == t[n]);
            }
        }
        if 0 <= i < t.len() && (forall|n: int|
            i < n < s.len() ==> (#[trigger] s[n]).0 != s[i].0) {
            assert(t[i] == s[i]);
            assert forall|n: int| i < n < t.len() implies (#[trigger] t[n]).0 != t[i].0 by {
                assert(s[n].0 != s[i].0);
            }
            assert(s[s.len() - 1].0 != s[i].0);
        }
    }
}

/// A store restored from the dump of another one has the same series and
/// metadata, and the same dump.
pub proof fn law_restore_of_dump(dump: DumpSpec, store: StoreSpec, other: StoreSpec)
    requires
        is_dump_of(dump, store),
    ensures
        restored(other, dump).series == store.series,
        restored(other, dump).metas == store.metas,
        forall|d: DumpSpec| #[trigger]
            is_dump_of(d, restored(other, dump)) ==> d.series == dump.series && d.metas
                == dump.metas,
{
    lemma_key_order();
    lemma_text_order();
    lemma_collected(dump.series, key_order());
    lemma_collected(dump.metas, text_order());
    assert forall|d: DumpSpec| #[trigger] is_dump_of(d, restored(other, dump)) implies d.series
        == dump.series && d.metas == dump.metas by {
        lemma_listing_unique(d.series, dump.series, key_order());
        lemma_listing_unique(d.metas, dump.metas, text_order());
    }
}

/// What is shown lies in the range and comes from the series.
pub proof fn lemma_thinned_within(s: Seq<Point>, range: RangeSpec)
    ensures
        forall|i: int|
            0 <= i < thinned(s, range).len() ==> range.from <= (#[trigger] thinned(s, range)[i]).ts
                <= range.to && s.contains(thinned(s, range)[i]),
    decreases s.len(),
{
    if s.len() > 0 {
        let (t, r) = (thinned(s, range), s.drop_last());
        let (u, p) = (thinned(r, range), s.last());
        lemma_thinned_within(r, range);
        assert forall|i: int| 0 <= i < t.len() implies range.from <= (#[trigger] t[i]).ts
            <= range.to && s.contains(t[i]) by {
            if i < u.len() && t[i] == u[i] {
                assert(r.contains(u[i]));
                let a = choose|a: int| 0 <= a < r.len() && r[a] == u[i];
                assert(s[a] == u[i]);
            } else {
                assert(t[i] == p);
                assert(s[s.len() - 1] == p);
            }
        }
    }
}

/// A chronological series without its last sample is chronological, and what
/// is shown of it is not younger than that sample.
proof fn lemma_thinned_before_last(s: Seq<Point>, range: RangeSpec)
    requires
        s.len() > 0,
        is_chronological(s),
    ensures
        is_chronological(s.drop_last()),
        forall|i: int|
            0 <= i < thinned(s.drop_last(), range).len() ==> (#[trigger] thinned(
                s.drop_last(),
                range,
            )[i]).ts <= s.last().ts,
{
    let r = s.drop_last();
    let u = thinned(r, range);
    assert forall|i: int, j: int| 0 <= i <= j < r.len() implies (#[trigger] r[i]).ts <= (
    #[trigger] r[j]).ts by {
        assert(r[i] == s[i] && r[j] == s[j]);
    }
    lemma_thinned_within(r, range);
    assert forall|i: int| 0 <= i < u.len() implies (#[trigger] u[i]).ts <= s.last().ts by {
        assert(r.contains(u[i]));
        let a = choose|a: int| 0 <= a < r.len() && r[a] == u[i];
        assert(s[a].ts <= s[s.len() - 1].ts);
    }
}

/// What is shown of a chronological series has ascending buckets.
proof fn lemma_thinned_buckets(s: Seq<Point>, range: RangeSpec)
    requires
        range.step > 0,
        is_chronological(s),
    ensures
        is_chronological(thinned(s, range)),
        forall|i: int, j: int|
            0 <= i < j < thinned(s, range).len() ==> bucket(#[trigger] thinned(s, range)[i], range)
                < bucket(#[trigger] thinned(s, range)[j], range),
    decreases s.len(),
{
    if s.len() > 0 {
        let (t, r) = (thinned(s, range), s.drop_last());
        let (u, p) = (thinned(r, range), s.last());
        lemma_thinned_before_last(s, range);
        lemma_thinned_buckets(r, range);
        if u.len() > 0 {
            vstd::arithmetic::div_mod::lemma_div_is_ordered(
                u.last().ts - range.from,
                p.ts - range.from,
                range.step,
            );
        }
        assert forall|i: int, j: int| 0 <= i < j < t.len() implies bucket(
            #[trigger] t[i],
            range,
        ) < bucket(#[trigger] t[j], range) by {
            assert(t[i] == u[i]);
            if j < t.len() - 1 {
                assert(t[j] == u[j]);
            } else if i < u.len() - 1 {
                assert(bucket(u[i], range) < bucket(u[u.len() - 1], range));
            }
        }
    }
}

/// Each sample of the range has a shown one in its bucket that is not older.
proof fn lemma_thinned_shows(s: Seq<Point>, range: RangeSpec)
    requires
        is_chronological(s),
    ensures
        forall|i: int|
            0 <= i < s.len() && range.from <= (#[trigger] s[i]).ts <= range.to ==> shows_bucket(
                thinned(s, range),
                s[i],
                range,
            ),
    decreases s.len(),
{
    if s.len() > 0 {
        let (t, r) = (thinned(s, range), s.drop_last());
        let (u, p) = (thinned(r, range), s.last());
        lemma_thinned_before_last(s, range);
        lemma_thinned_shows(r, range);
        assert forall|i: int|
            0 <= i < s.len() && range.from <= (#[trigger] s[i]).ts <= range.to implies shows_bucket(
            t,
            s[i],
            range,
        ) by {
            if i < r.len() {
                assert(s[i] == r[i]);
                assert(shows_bucket(u, r[i], range));
                let a = choose|a: int|
                    0 <= a < u.len() && bucket(#[trigger] u[a], range) == bucket(r[i], range)
                        && r[i].ts <= u[a].ts;
                assert(t[a] == u[a] || (a == u.len() - 1 && t[a] == p));
                assert(bucket(t[a], range) == bucket(s[i], range));
            } else {
                assert(t[t.len() - 1] == p);
            }
        }
    }
}

/// What a query shows of a series lies in the range and comes from the series.
/// Of a chronological series it shows one sample per step bucket, the buckets
/// ascending, and for each sample of the range the last one of its bucket.
pub proof fn law_thinned(s: Seq<Point>, range: RangeSpec)
    requires
        range.step > 0,
    ensures
        ({
            let t = thinned(s, range);
            &&& forall|i: int|
                0 <= i < t.len() ==> range.from <= (#[trigger] t[i]).ts <= range.to && s.contains(
                    t[i],
                )
            &&& is_chronological(s) ==> is_chronological(t)
            &&& is_chronological(s) ==> forall|i: int, j: int|
                0 <= i < j < t.len() ==> bucket(#[trigger] t[i], range) < bucket(
                    #[trigger] t[j],
                    range,
                )
            &&& is_chronological(s) ==> forall|i: int|
                0 <= i < s.len() && range.from <= (#[trigger] s[i]).ts <= range.to ==> shows_bucket(
                    t,
                    s[i],
                    range,
                )
        }),
{
    lemma_thinned_within(s, range);
    if is_chronological(s) {
        lemma_thinned_buckets(s, range);
        lemma_thinned_shows(s, range);
    }
}

/// Some shown sample lies in the bucket of `p` and is not older.
pub open spec fn shows_bucket(t: Seq<Point>, p: Point, range: RangeSpec) -> bool {
    exists|a: int|
        0 <= a < t.len() && bucket(#[trigger] t[a], range) == bucket(p, range) && p.ts <= t[a].ts
}

} // verus!
