//! In-memory time-series store: ring buffers, retention, queries.

use std::collections::VecDeque;

use vstd::prelude::*;

use crate::model::{
    clamp_ms, key_order, labels_order, lemma_key_order, lemma_labels_order, Key, LabelName,
    LabelPairs, LabelValue, Labels, MetaSpec, MetricMeta, MetricName, Point, Sample, ScrapedSample,
    ScrapedSpec, SeriesKey, TimestampMs, MAX_TIMESTAMP_MS,
};
use crate::order::{is_strict_order, lemma_text_order, text_order};
use crate::sorted::{is_sorted, keys_of, lemma_map_of, map_of, SortedMap, SortedSet};
use crate::text::{is_empty, str_eq};
use crate::textfmt::{meta_or_default, meta_views, sample_views, Exposition};

verus! {

pub const DEFAULT_MAX_POINTS: usize = 10_000;

/// The contents of a store.
pub struct StoreSpec {
    pub series: Map<Key, Seq<Point>>,
    pub metas: Map<Seq<char>, MetaSpec>,
    pub retention_ms: int,
    pub max_points: nat,
    pub ingested_total: int,
    pub dropped_total: int,
}

/// The moment before which samples are too old.
pub open spec fn cutoff(now: int, retention_ms: int) -> int {
    clamp_ms(now - retention_ms)
}

/// The samples from the first one on that is not too old.
pub open spec fn without_old(s: Seq<Point>, cutoff: int) -> Seq<Point>
    decreases s.len(),
{
    if s.len() > 0 && s[0].ts < cutoff {
        without_old(s.drop_first(), cutoff)
    } else {
        s
    }
}

/// The last `max` samples.
pub open spec fn latest(s: Seq<Point>, max: nat) -> Seq<Point> {
    if s.len() > max {
        s.skip(s.len() - max)
    } else {
        s
    }
}

/// The samples of a series, none if it is not known.
pub open spec fn samples_of(series: Map<Key, Seq<Point>>, key: Key) -> Seq<Point> {
    if series.dom().contains(key) {
        series[key]
    } else {
        seq![]
    }
}

/// When a sample was taken: a sample without a timestamp is stamped with `now`.
pub open spec fn stamp(s: ScrapedSpec, now: int) -> int {
    match s.ts {
        Some(ts) => ts,
        None => now,
    }
}

/// The sample is neither too old nor older than the last one of its series.
pub open spec fn is_accepted(
    series: Map<Key, Seq<Point>>,
    s: ScrapedSpec,
    now: int,
    cutoff: int,
) -> bool {
    let known = samples_of(series, s.key);
    stamp(s, now) >= cutoff && (known.len() > 0 ==> stamp(s, now) >= known.last().ts)
}

/// What a sample makes of the series.
pub open spec fn with_sample(
    series: Map<Key, Seq<Point>>,
    s: ScrapedSpec,
    now: int,
    cutoff: int,
    max: nat,
) -> Map<Key, Seq<Point>> {
    if is_accepted(series, s, now, cutoff) {
        let point = Point { ts: stamp(s, now), value: s.value };
        series.insert(
            s.key,
            without_old(latest(samples_of(series, s.key).push(point), max), cutoff),
        )
    } else {
        series
    }
}

/// What a batch of samples makes of the series.
pub open spec fn with_samples(
    series: Map<Key, Seq<Point>>,
    batch: Seq<ScrapedSpec>,
    now: int,
    cutoff: int,
    max: nat,
) -> Map<Key, Seq<Point>>
    decreases batch.len(),
{
    if batch.len() == 0 {
        series
    } else {
        with_sample(
            with_samples(series, batch.drop_last(), now, cutoff, max),
            batch.last(),
            now,
            cutoff,
            max,
        )
    }
}

/// How many samples of a batch are accepted.
pub open spec fn accepted(
    series: Map<Key, Seq<Point>>,
    batch: Seq<ScrapedSpec>,
    now: int,
    cutoff: int,
    max: nat,
) -> nat
    decreases batch.len(),
{
    if batch.len() == 0 {
        0
    } else {
        let rest = batch.drop_last();
        accepted(series, rest, now, cutoff, max) + if is_accepted(
            with_samples(series, rest, now, cutoff, max),
            batch.last(),
            now,
            cutoff,
        ) {
            1nat
        } else {
            0nat
        }
    }
}

/// What a batch of metadata makes of the metadata: the kind is replaced, and the
/// help text too unless the new one is empty.
pub open spec fn with_metas(
    metas: Map<Seq<char>, MetaSpec>,
    batch: Seq<(Seq<char>, MetaSpec)>,
) -> Map<Seq<char>, MetaSpec>
    decreases batch.len(),
{
    if batch.len() == 0 {
        metas
    } else {
        let known = with_metas(metas, batch.drop_last());
        let (name, meta) = batch.last();
        let help = if meta.help.len() == 0 {
            meta_or_default(known, name).help
        } else {
            meta.help
        };
        known.insert(name, MetaSpec { kind: meta.kind, help })
    }
}

/// A counter of 64 bits after `n` more events.
pub open spec fn counted(total: int, n: int) -> int {
    (total + n) % 0x1_0000_0000_0000_0000
}

/// What the ingestion of a batch makes of a store.
pub open spec fn ingested(
    store: StoreSpec,
    samples: Seq<ScrapedSpec>,
    metas: Seq<(Seq<char>, MetaSpec)>,
    now: int,
) -> StoreSpec {
    let cut = cutoff(now, store.retention_ms);
    let n = accepted(store.series, samples, now, cut, store.max_points);
    StoreSpec {
        series: with_samples(store.series, samples, now, cut, store.max_points),
        metas: with_metas(store.metas, metas),
        retention_ms: store.retention_ms,
        max_points: store.max_points,
        ingested_total: counted(store.ingested_total, n as int),
        dropped_total: counted(store.dropped_total, samples.len() - n),
    }
}

/// The metadata after those of a payload were merged in: the kind is replaced,
/// and the help text too unless the new one is empty.
pub open spec fn merged_metas(
    known: Map<Seq<char>, MetaSpec>,
    new: Map<Seq<char>, MetaSpec>,
) -> Map<Seq<char>, MetaSpec> {
    Map::new(
        |n: Seq<char>| known.dom().contains(n) || new.dom().contains(n),
        |n: Seq<char>|
            if new.dom().contains(n) {
                MetaSpec {
                    kind: new[n].kind,
                    help: if new[n].help.len() == 0 {
                        meta_or_default(known, n).help
                    } else {
                        new[n].help
                    },
                }
            } else {
                known[n]
            },
    )
}

pub proof fn lemma_merged(known: Map<Seq<char>, MetaSpec>, batch: Seq<(Seq<char>, MetaSpec)>)
    requires
        is_sorted(keys_of(batch), text_order()),
    ensures
        with_metas(known, batch) == merged_metas(known, map_of(batch)),
    decreases batch.len(),
{
    lemma_text_order();
    lemma_map_of(batch, text_order());
    if batch.len() == 0 {
        assert(with_metas(known, batch) =~= merged_metas(known, map_of(batch)));
    } else {
        let t = batch.drop_last();
        let last = batch.len() - 1;
        let name = batch[last].0;
        assert(keys_of(t) =~= keys_of(batch).drop_last());
        lemma_merged(known, t);
        lemma_map_of(t, text_order());
        assert(!map_of(t).dom().contains(name)) by {
            if map_of(t).dom().contains(name) {
                let i = choose|i: int| 0 <= i < t.len() && (#[trigger] t[i]).0 == name;
                assert(text_order()(keys_of(batch)[i], keys_of(batch)[last]));
                assert(keys_of(batch)[i] == t[i].0);
            }
        }
        let (m, n) = (map_of(batch), map_of(t));
        assert forall|x: Seq<char>| m.dom().contains(x) <==> n.dom().contains(x) || x == name by {
            if m.dom().contains(x) {
                let i = choose|i: int| 0 <= i < batch.len() && (#[trigger] batch[i]).0 == x;
                if i < last {
                    assert(t[i] == batch[i]);
                }
            }
            if n.dom().contains(x) {
                let i = choose|i: int| 0 <= i < t.len() && (#[trigger] t[i]).0 == x;
                assert(batch[i] == t[i]);
            }
        }
        assert forall|x: Seq<char>| n.dom().contains(x) implies m[x] == #[trigger] n[x] by {
            let i = choose|i: int| 0 <= i < t.len() && (#[trigger] t[i]).0 == x;
            assert(batch[i] == t[i]);
        }
        assert(with_metas(known, batch) =~= merged_metas(known, map_of(batch)));
    }
}

/// The store after a payload was taken in.
pub open spec fn pushed(store: StoreSpec, x: Exposition, now: int) -> StoreSpec {
    let cut = cutoff(now, store.retention_ms);
    let n = accepted(store.series, x.samples, now, cut, store.max_points);
    StoreSpec {
        series: with_samples(store.series, x.samples, now, cut, store.max_points),
        metas: merged_metas(store.metas, x.metas),
        retention_ms: store.retention_ms,
        max_points: store.max_points,
        ingested_total: counted(store.ingested_total, n as int),
        dropped_total: counted(store.dropped_total, x.samples.len() - n),
    }
}

/// The series without old samples, and without those that have no others.
pub open spec fn pruned_series(series: Map<Key, Seq<Point>>, cutoff: int) -> Map<Key, Seq<Point>> {
    Map::new(
        |k: Key| series.dom().contains(k) && without_old(series[k], cutoff).len() > 0,
        |k: Key| without_old(series[k], cutoff),
    )
}

/// What pruning makes of a store.
pub open spec fn pruned(store: StoreSpec, now: int) -> StoreSpec {
    StoreSpec {
        series: pruned_series(store.series, cutoff(now, store.retention_ms)),
        metas: store.metas,
        retention_ms: store.retention_ms,
        max_points: store.max_points,
        ingested_total: store.ingested_total,
        dropped_total: store.dropped_total,
    }
}

/// The samples of one series, oldest first.
#[derive(Debug)]
pub struct Series {
    samples: VecDeque<Sample>,
}

pub open spec fn points(s: Seq<Sample>) -> Seq<Point> {
    s.map_values(|e: Sample| e@)
}

impl View for Series {
    type V = Seq<Point>;

    closed spec fn view(&self) -> Seq<Point> {
        points(self.samples@)
    }
}

impl Series {
    fn new() -> (r: Self)
        ensures
            r@ == Seq::<Point>::empty(),
    {
        let r = Series { samples: VecDeque::new() };
        assert(r@ =~= Seq::<Point>::empty());
        r
    }

    fn len(&self) -> (r: usize)
        ensures
            r == self@.len(),
    {
        self.samples.len()
    }

    fn at(&self, i: usize) -> (r: Sample)
        requires
            i < self@.len(),
        ensures
            r@ == self@[i as int],
    {
        self.samples[i]
    }

    /// Drops the samples in front that are too old.
    fn drop_old(&mut self, cutoff: TimestampMs)
        ensures
            final(self)@ == without_old(old(self)@, cutoff@),
    {
        while self.samples.len() > 0 && self.samples[0].ts.as_millis() < cutoff.as_millis()
            invariant
                without_old(self@, cutoff@) == without_old(old(self)@, cutoff@),
            decreases self@.len(),
        {
            let ghost before = self@;
            assert(before[0] == self.samples@[0]@);
            let _ = self.samples.pop_front();
            assert(self@ =~= before.drop_first());
        }
        assert(self@.len() > 0 ==> self@[0] == self.samples@[0]@);
    }

    /// Adds a sample, and keeps the latest `max` that are not too old.
    fn append(&mut self, sample: Sample, max: usize, cutoff: TimestampMs)
        ensures
            final(self)@ == without_old(latest(old(self)@.push(sample@), max as nat), cutoff@),
    {
        let ghost start = self@;
        self.samples.push_back(sample);
        let ghost whole = start.push(sample@);
        assert(self@ =~= whole);
        while self.samples.len() > max
            invariant
                latest(self@, max as nat) == latest(whole, max as nat),
            decreases self@.len(),
        {
            let ghost before = self@;
            let _ = self.samples.pop_front();
            assert(self@ =~= before.drop_first());
            assert(latest(self@, max as nat) =~= latest(before, max as nat));
        }
        self.drop_old(cutoff);
    }
}

/// A store of time series with bounded age and length.
#[derive(Debug)]
pub struct MetricStore {
    series: SortedMap<SeriesKey, Series>,
    metas: SortedMap<MetricName, MetricMeta>,
    retention_ms: i64,
    max_points: usize,
    ingested_total: u64,
    dropped_total: u64,
}

impl View for MetricStore {
    type V = StoreSpec;

    closed spec fn view(&self) -> StoreSpec {
        StoreSpec {
            series: self.series@,
            metas: self.metas@,
            retention_ms: self.retention_ms as int,
            max_points: self.max_points as nat,
            ingested_total: self.ingested_total as int,
            dropped_total: self.dropped_total as int,
        }
    }
}

pub open spec fn empty_store(retention_ms: int, max_points: nat) -> StoreSpec {
    StoreSpec {
        series: Map::empty(),
        metas: Map::empty(),
        retention_ms,
        max_points,
        ingested_total: 0,
        dropped_total: 0,
    }
}

proof fn lemma_accepted_bound(
    series: Map<Key, Seq<Point>>,
    batch: Seq<ScrapedSpec>,
    now: int,
    cutoff: int,
    max: nat,
)
    ensures
        accepted(series, batch, now, cutoff, max) <= batch.len(),
    decreases batch.len(),
{
    if batch.len() > 0 {
        lemma_accepted_bound(series, batch.drop_last(), now, cutoff, max);
    }
}

impl MetricStore {
    pub fn new(retention_ms: i64, max_points: usize) -> (r: Self)
        ensures
            r@ == empty_store(retention_ms as int, max_points as nat),
    {
        MetricStore {
            series: SortedMap::new(),
            metas: SortedMap::new(),
            retention_ms,
            max_points,
            ingested_total: 0,
            dropped_total: 0,
        }
    }

    /// Takes in one sample, unless it is too old or out of order.
    fn ingest_one(&mut self, s: &ScrapedSample, now: TimestampMs, cutoff: TimestampMs) -> (r: bool)
        ensures
            r == is_accepted(old(self)@.series, s@, now@, cutoff@),
            final(self)@ == (StoreSpec {
                series: with_sample(
                    old(self)@.series,
                    s@,
                    now@,
                    cutoff@,
                    old(self)@.max_points,
                ),
                ..old(self)@
            }),
    {
        let ghost before = self.series@;
        let ts = match s.ts {
            Some(t) => t,
            None => now,
        };
        assert(ts@ == stamp(s@, now@));
        if ts.as_millis() < cutoff.as_millis() {
            return false;
        }
        let sample = Sample { ts, value: s.value };
        let (found, i) = self.series.position(&s.key);
        if found {
            let mut series = Series::new();
            self.series.swap_value(i, &mut series);
            assert(series@ == samples_of(before, s@.key));
            let n = series.len();
            if n > 0 && ts.as_millis() < series.at(n - 1).ts.as_millis() {
                self.series.swap_value(i, &mut series);
                assert(self.series@ =~= before);
                return false;
            }
            series.append(sample, self.max_points, cutoff);
            self.series.swap_value(i, &mut series);
        } else {
            let mut series = Series::new();
            series.append(sample, self.max_points, cutoff);
            self.series.insert(s.key.clone(), series);
        }
        assert(self.series@ =~= with_sample(before, s@, now@, cutoff@, self@.max_points));
        true
    }

    /// Merges a batch of metadata.
    fn ingest_metas(&mut self, metas: &[(MetricName, MetricMeta)])
        ensures
            final(self)@ == (StoreSpec {
                metas: with_metas(old(self)@.metas, meta_views(metas@)),
                ..old(self)@
            }),
    {
        let ghost batch = meta_views(metas@);
        let ghost before = self@;
        assert(batch.take(0) =~= seq![]);
        for i in 0..metas.len()
            invariant
                batch == meta_views(metas@),
                before == old(self)@,
                self@ == (StoreSpec {
                    metas: with_metas(before.metas, batch.take(i as int)),
                    ..before
                }),
        {
            let ghost known = self.metas@;
            let (name, meta) = &metas[i];
            let mut entry = match self.metas.get(name) {
                Some(m) => m.clone(),
                None => MetricMeta::default(),
            };
            assert(entry@ == meta_or_default(known, name@));
            entry.kind = meta.kind;
            if !is_empty(meta.help.as_str()) {
                entry.help = meta.help.clone();
            }
            self.metas.insert(name.clone(), entry);
            proof {
                assert(batch[i as int] == (name@, meta@));
                assert(batch.take(i + 1).drop_last() =~= batch.take(i as int));
            }
        }
        assert(batch.take(metas@.len() as int) =~= batch);
    }

    /// Ingest a parsed exposition batch. Samples without timestamps get `now`.
    /// Samples older than the series head are dropped (counted, not an error).
    pub fn ingest(
        &mut self,
        samples: Vec<ScrapedSample>,
        metas: Vec<(MetricName, MetricMeta)>,
        now: TimestampMs,
    )
        ensures
            final(self)@ == ingested(
                old(self)@,
                sample_views(samples@),
                meta_views(metas@),
                now@,
            ),
    {
        let ghost start = self@;
        let ghost batch = sample_views(samples@);
        let cutoff = now.saturating_sub_millis(self.retention_ms);
        self.ingest_metas(metas.as_slice());
        let ghost after = self@;
        let mut ingested: u64 = 0;
        let mut dropped: u64 = 0;
        assert(batch.take(0) =~= seq![]);
        for i in 0..samples.len()
            invariant
                batch == sample_views(samples@),
                ingested + dropped == i,
                ingested == accepted(
                    start.series,
                    batch.take(i as int),
                    now@,
                    cutoff@,
                    start.max_points,
                ),
                after.max_points == start.max_points,
                after.series == start.series,
                self@ == (StoreSpec {
                    series: with_samples(
                        start.series,
                        batch.take(i as int),
                        now@,
                        cutoff@,
                        start.max_points,
                    ),
                    ..after
                }),
        {
            proof {
                assert(batch[i as int] == samples@[i as int]@);
                assert(batch.take(i + 1).drop_last() =~= batch.take(i as int));
                assert(batch.take(i + 1).last() == batch[i as int]);
            }
            if self.ingest_one(&samples[i], now, cutoff) {
                ingested += 1;
            } else {
                dropped += 1;
            }
        }
        assert(batch.take(samples@.len() as int) =~= batch);
        self.ingested_total = self.ingested_total.wrapping_add(ingested);
        self.dropped_total = self.dropped_total.wrapping_add(dropped);
    }

    /// Drop samples older than retention and remove empty series.
    pub fn prune(&mut self, now: TimestampMs)
        ensures
            final(self)@ == pruned(old(self)@, now@),
    {
        let ghost start = self@;
        let cutoff = now.saturating_sub_millis(self.retention_ms);
        let ghost all = self.series.listing();
        let ghost cut = cutoff@;
        let mut i: usize = self.series.len();
        proof {
            lemma_key_order();
            lemma_map_of(all, key_order());
            assert(all.take(i as int) =~= all);
        }
        while i > 0
            invariant
                is_strict_order(key_order()),
                is_sorted(keys_of(all), key_order()),
                cut == cutoff@,
                i <= all.len(),
                i <= self.series.listing().len(),
                self.series.listing().take(i as int) == all.take(i as int),
                start.series == map_of(all),
                self@ == (StoreSpec { series: self@.series, ..start }),
                forall|k: Key| #[trigger]
                    self@.series.dom().contains(k) ==> start.series.dom().contains(k),
                forall|j: int|
                    0 <= j < i ==> self@.series.dom().contains((#[trigger] all[j]).0)
                        && self@.series[all[j].0] == all[j].1,
                forall|j: int|
                    i <= j < all.len() ==> (self@.series.dom().contains((#[trigger] all[j]).0)
                        <==> without_old(all[j].1, cut).len() > 0),
                forall|j: int|
                    i <= j < all.len() ==> (self@.series.dom().contains((#[trigger] all[j]).0)
                        ==> self@.series[all[j].0] == without_old(all[j].1, cut)),
            decreases i,
        {
            i -= 1;
            let ghost now_list = self.series.listing();
            let ghost before = self@.series;
            proof {
                assert(now_list.take(i + 1)[i as int] == all.take(i + 1)[i as int]);
                assert forall|a: int, b: int| 0 <= a < b < all.len() implies (#[trigger] all[a]).0
                    != (#[trigger] all[b]).0 by {
                    let ks = keys_of(all);
                    assert(key_order()(ks[a], ks[b]));
                }
            }
            let ghost k = all[i as int].0;
            let mut series = Series::new();
            self.series.swap_value(i, &mut series);
            series.drop_old(cutoff);
            if series.len() == 0 {
                self.series.remove_at(i);
                assert(self@.series =~= before.remove(k));
                assert(self.series.listing().take(i as int) =~= now_list.take(i + 1).take(i as int));
            } else {
                self.series.swap_value(i, &mut series);
                assert(self@.series =~= before.insert(k, without_old(all[i as int].1, cut)));
                assert(self.series.listing().take(i as int) =~= now_list.take(i + 1).take(i as int));
            }
            assert(all.take(i + 1).take(i as int) =~= all.take(i as int));
        }
        proof {
            lemma_map_of(all, key_order());
            let want = pruned_series(start.series, cut);
            assert forall|k: Key| self@.series.dom().contains(k) <==> want.dom().contains(k) by {
                if start.series.dom().contains(k) {
                    let j = choose|j: int| 0 <= j < all.len() && (#[trigger] all[j]).0 == k;
                    assert(start.series[all[j].0] == all[j].1);
                }
            }
            assert forall|k: Key| self@.series.dom().contains(k) implies #[trigger] self@.series[k]
                == want[k] by {
                let j = choose|j: int| 0 <= j < all.len() && (#[trigger] all[j]).0 == k;
                assert(start.series[all[j].0] == all[j].1);
            }
            assert(self@.series =~= want);
        }
    }
}

#[derive(Debug, PartialEq)]
pub struct MetricInfo {
    pub name: MetricName,
    pub meta: MetricMeta,
    pub series_count: usize,
}

impl Clone for MetricInfo {
    fn clone(&self) -> (r: Self)
        ensures
            r.name@ == self.name@,
            r.meta@ == self.meta@,
            r.series_count == self.series_count,
    {
        MetricInfo {
            name: self.name.clone(),
            meta: self.meta.clone(),
            series_count: self.series_count,
        }
    }
}

pub open spec fn has_name(name: Seq<char>) -> spec_fn(Key) -> bool {
    |k: Key| k.0 == name
}

/// The names of the series.
pub open spec fn metric_names(series: Map<Key, Seq<Point>>) -> Set<Seq<char>> {
    series.dom().map(|k: Key| k.0)
}

/// Metadata and the number of series of each metric.
pub open spec fn metric_index(store: StoreSpec) -> Map<Seq<char>, (MetaSpec, nat)> {
    Map::new(
        |n: Seq<char>| metric_names(store.series).contains(n),
        |n: Seq<char>|
            (
                meta_or_default(store.metas, n),
                store.series.dom().filter(has_name(n)).len(),
            ),
    )
}

pub open spec fn info_views(s: Seq<MetricInfo>) -> Seq<(Seq<char>, (MetaSpec, nat))> {
    s.map_values(|e: MetricInfo| (e.name@, (e.meta@, e.series_count as nat)))
}

/// The number of entries of a listing is the size of its map.
pub proof fn lemma_listing_len<A, B>(s: Seq<(A, B)>, before: spec_fn(A, A) -> bool)
    requires
        is_strict_order(before),
        is_sorted(keys_of(s), before),
    ensures
        map_of(s).dom().finite(),
        map_of(s).dom().len() == s.len(),
{
    let ks = keys_of(s);
    assert(ks.no_duplicates()) by {
        assert forall|i: int, j: int| 0 <= i < ks.len() && 0 <= j < ks.len() && i != j implies ks[i]
            != ks[j] by {
            if i < j {
                assert(before(ks[i], ks[j]));
            } else {
                assert(before(ks[j], ks[i]));
            }
        }
    }
    ks.unique_seq_to_set();
    assert(map_of(s).dom() =~= ks.to_set());
}

/// The series of a name stand together in the order of keys.
proof fn lemma_run(ks: Seq<Key>, dom: Set<Key>, i: int, j: int, name: Seq<char>)
    requires
        is_sorted(ks, key_order()),
        forall|k: Key| dom.contains(k) <==> ks.contains(k),
        0 <= i < j <= ks.len(),
        forall|a: int| i <= a < j ==> (#[trigger] ks[a]).0 == name,
        forall|a: int| 0 <= a < i || j <= a < ks.len() ==> (#[trigger] ks[a]).0 != name,
    ensures
        dom.filter(has_name(name)).len() == j - i,
{
    lemma_key_order();
    let run = ks.subrange(i, j);
    assert(run.no_duplicates()) by {
        assert forall|a: int, b: int|
            0 <= a < run.len() && 0 <= b < run.len() && a != b implies run[a] != run[b] by {
            if a < b {
                assert(key_order()(ks[i + a], ks[i + b]));
            } else {
                assert(key_order()(ks[i + b], ks[i + a]));
            }
        }
    }
    run.unique_seq_to_set();
    assert forall|k: Key| dom.filter(has_name(name)).contains(k) <==> run.to_set().contains(k) by {
        if dom.contains(k) && k.0 == name {
            let a = choose|a: int| 0 <= a < ks.len() && ks[a] == k;
            assert(run[a - i] == k);
        }
        if run.contains(k) {
            let a = choose|a: int| 0 <= a < run.len() && run[a] == k;
            assert(ks[i + a] == k);
        }
    }
    assert(dom.filter(has_name(name)) =~= run.to_set());
}

/// Names do not decrease in the order of keys.
proof fn lemma_names_ordered(ks: Seq<Key>, a: int, b: int)
    requires
        is_sorted(ks, key_order()),
        0 <= a < b < ks.len(),
    ensures
        text_order()(ks[a].0, ks[b].0) || ks[a].0 == ks[b].0,
{
    assert(key_order()(ks[a], ks[b]));
}

impl MetricStore {
    /// The metrics in the order of their names.
    pub fn list_metrics(&self) -> (r: Vec<MetricInfo>)
        ensures
            is_sorted(keys_of(info_views(r@)), text_order()),
            map_of(info_views(r@)) == metric_index(self@),
    {
        let ghost all = self.series.listing();
        let ghost ks = keys_of(all);
        let ghost dom = self@.series.dom();
        let ghost index = metric_index(self@);
        let n = self.series.len();
        let mut out: Vec<MetricInfo> = Vec::new();
        let mut i: usize = 0;
        proof {
            lemma_key_order();
            lemma_text_order();
            lemma_map_of(all, key_order());
            assert forall|k: Key| dom.contains(k) <==> ks.contains(k) by {
                if dom.contains(k) {
                    let a = choose|a: int| 0 <= a < all.len() && (#[trigger] all[a]).0 == k;
                    assert(ks[a] == k);
                }
            }
        }
        while i < n
            invariant
                is_strict_order(key_order()),
                is_strict_order(text_order()),
                n == all.len() == ks.len(),
                all == self.series.listing(),
                ks == keys_of(all),
                dom == self@.series.dom(),
                index == metric_index(self@),
                is_sorted(ks, key_order()),
                forall|k: Key| dom.contains(k) <==> ks.contains(k),
                i <= n,
                0 < i < n ==> ks[i - 1].0 != ks[i as int].0,
                is_sorted(keys_of(info_views(out@)), text_order()),
                forall|a: int|
                    0 <= a < out@.len() ==> index.dom().contains(
                        (#[trigger] info_views(out@)[a]).0,
                    ) && index[info_views(out@)[a].0] == info_views(out@)[a].1,
                forall|a: int, b: int|
                    0 <= a < out@.len() && i <= b < n ==> text_order()(
                        (#[trigger] info_views(out@)[a]).0,
                        (#[trigger] ks[b]).0,
                    ),
                forall|b: int|
                    0 <= b < i ==> keys_of(info_views(out@)).contains((#[trigger] ks[b]).0),
            decreases n - i,
        {
            let name = &self.series.key_at(i).name;
            assert(name@ == ks[i as int].0);
            let mut j: usize = i + 1;
            while j < n && str_eq(self.series.key_at(j).name.as_str(), name.as_str())
                invariant
                    n == all.len() == ks.len(),
                    all == self.series.listing(),
                    ks == keys_of(all),
                    i < j <= n,
                    forall|a: int| i <= a < j ==> (#[trigger] ks[a]).0 == name@,
                decreases n - j,
            {
                j += 1;
            }
            proof {
                assert(j < n ==> ks[j as int].0 != name@);
                assert forall|a: int| 0 <= a < i || j <= a < n implies (#[trigger] ks[a]).0
                    != name@ by {
                    if a < i {
                        lemma_names_ordered(ks, i - 1, i as int);
                        if a < i - 1 {
                            lemma_names_ordered(ks, a, i - 1);
                        }
                    } else {
                        lemma_names_ordered(ks, i as int, j as int);
                        if j < a {
                            lemma_names_ordered(ks, j as int, a);
                        }
                    }
                }
                lemma_run(ks, dom, i as int, j as int, name@);
            }
            let meta = match self.metas.get(name) {
                Some(m) => m.clone(),
                None => MetricMeta::default(),
            };
            let ghost before = info_views(out@);
            let ghost entry = (name@, (meta@, (j - i) as nat));
            out.push(MetricInfo { name: name.clone(), meta, series_count: j - i });
            proof {
                let after = info_views(out@);
                assert(after =~= before.push(entry));
                assert(keys_of(after) =~= keys_of(before).push(name@));
                assert(index.dom().contains(name@)) by {
                    assert(ks.contains(ks[i as int]));
                    let f = |k: Key| k.0;
                    assert(dom.contains(ks[i as int]) && name@ == f(ks[i as int]));
                }
                assert forall|a: int| 0 <= a < after.len() implies index.dom().contains(
                    (#[trigger] after[a]).0,
                ) && index[after[a].0] == after[a].1 by {
                    if a < before.len() {
                        assert(after[a] == before[a]);
                    }
                }
                assert forall|a: int, b: int|
                    0 <= a < b < keys_of(after).len() implies text_order()(
                    #[trigger] keys_of(after)[a],
                    #[trigger] keys_of(after)[b],
                ) by {
                    if b < before.len() {
                        assert(text_order()(keys_of(before)[a], keys_of(before)[b]));
                    } else {
                        assert(text_order()(before[a].0, ks[i as int].0));
                    }
                }
                assert forall|a: int, b: int|
                    0 <= a < after.len() && j <= b < n implies text_order()(
                    (#[trigger] after[a]).0,
                    (#[trigger] ks[b]).0,
                ) by {
                    lemma_names_ordered(ks, i as int, b);
                    if a < before.len() {
                        assert(after[a] == before[a]);
                        assert(text_order()(before[a].0, ks[b].0));
                    }
                }
                assert forall|b: int| 0 <= b < j implies keys_of(after).contains(
                    (#[trigger] ks[b]).0,
                ) by {
                    let want = ks[b].0;
                    if b < i {
                        let a = choose|a: int|
                            0 <= a < keys_of(before).len() && keys_of(before)[a] == want;
                        assert(keys_of(after)[a] == want);
                    } else {
                        assert(keys_of(after)[before.len() as int] == want);
                    }
                }
            }
            i = j;
        }
        proof {
            let views = info_views(out@);
            lemma_map_of(views, text_order());
            let have = map_of(views);
            assert forall|x: Seq<char>| have.dom().contains(x) <==> index.dom().contains(x) by {
                if have.dom().contains(x) {
                    let a = choose|a: int| 0 <= a < views.len() && (#[trigger] views[a]).0 == x;
                    assert(index.dom().contains(views[a].0));
                }
                if index.dom().contains(x) {
                    let f = |k: Key| k.0;
                    let k = choose|k: Key| dom.contains(k) && x == f(k);
                    let b = choose|b: int| 0 <= b < ks.len() && ks[b] == k;
                    assert(keys_of(views).contains(ks[b].0));
                }
            }
            assert forall|x: Seq<char>| have.dom().contains(x) implies #[trigger] have[x]
                == index[x] by {
                let a = choose|a: int| 0 <= a < views.len() && (#[trigger] views[a]).0 == x;
                assert(index[views[a].0] == views[a].1);
            }
            assert(have =~= index);
        }
        out
    }

    pub fn stats(&self) -> (r: StoreStats)
        ensures
            r.series_count == self@.series.dom().len(),
            r.metric_count == metric_names(self@.series).len(),
            r.ingested_total == self@.ingested_total,
            r.dropped_total == self@.dropped_total,
    {
        let series_count = self.series.len();
        let metrics = self.list_metrics();
        proof {
            lemma_key_order();
            lemma_text_order();
            lemma_listing_len(self.series.listing(), key_order());
            lemma_listing_len(info_views(metrics@), text_order());
            assert(metric_index(self@).dom() =~= metric_names(self@.series));
        }
        StoreStats {
            series_count,
            metric_count: metrics.len(),
            ingested_total: self.ingested_total,
            dropped_total: self.dropped_total,
        }
    }
}

#[derive(Debug, Clone, Copy, PartialEq, Eq)]
pub struct StoreStats {
    pub series_count: usize,
    pub metric_count: usize,
    pub ingested_total: u64,
    pub dropped_total: u64,
}

/// Some series of the metric has the label.
pub open spec fn has_label(
    series: Map<Key, Seq<Point>>,
    metric: Seq<char>,
    name: Seq<char>,
    value: Seq<char>,
) -> bool {
    exists|l: LabelPairs| #[trigger] series.dom().contains((metric, l)) && l.contains((name, value))
}

/// The label names of a metric, with all values that each has.
pub open spec fn label_index(series: Map<Key, Seq<Point>>, metric: Seq<char>) -> Map<
    Seq<char>,
    Set<Seq<char>>,
> {
    Map::new(
        |n: Seq<char>| exists|v: Seq<char>| has_label(series, metric, n, v),
        |n: Seq<char>| Set::new(|v: Seq<char>| has_label(series, metric, n, v)),
    )
}

/// Adds a value to those of a label name.
fn add_label(
    index: &mut SortedMap<LabelName, SortedSet<LabelValue>>,
    name: &LabelName,
    value: &LabelValue,
)
    ensures
        final(index)@ == old(index)@.insert(
            name@,
            if old(index)@.dom().contains(name@) {
                old(index)@[name@].insert(value@)
            } else {
                set![value@]
            },
        ),
{
    let ghost before = index@;
    let (found, i) = index.position(name);
    let mut values: SortedSet<LabelValue> = SortedSet::new();
    if found {
        index.swap_value(i, &mut values);
        values.insert(value.clone());
        index.swap_value(i, &mut values);
        assert(index@ =~= before.insert(name@, before[name@].insert(value@)));
    } else {
        values.insert(value.clone());
        assert(values@ =~= set![value@]);
        index.insert(name.clone(), values);
    }
}

/// The index holds exactly the pairs that were visited.
spec fn is_index_of(
    index: Map<Seq<char>, Set<Seq<char>>>,
    visited: Seq<(Seq<char>, Seq<char>)>,
) -> bool {
    &&& forall|n: Seq<char>, v: Seq<char>|
        #![trigger visited.contains((n, v))]
        #![trigger index[n].contains(v)]
        visited.contains((n, v)) <==> index.dom().contains(n) && index[n].contains(v)
    &&& forall|n: Seq<char>| #[trigger]
        index.dom().contains(n) ==> exists|v: Seq<char>| #[trigger] visited.contains((n, v))
}

proof fn lemma_index_step(
    index: Map<Seq<char>, Set<Seq<char>>>,
    visited: Seq<(Seq<char>, Seq<char>)>,
    p: (Seq<char>, Seq<char>),
)
    requires
        is_index_of(index, visited),
    ensures
        is_index_of(
            index.insert(
                p.0,
                if index.dom().contains(p.0) {
                    index[p.0].insert(p.1)
                } else {
                    set![p.1]
                },
            ),
            visited.push(p),
        ),
{
    let after = index.insert(
        p.0,
        if index.dom().contains(p.0) {
            index[p.0].insert(p.1)
        } else {
            set![p.1]
        },
    );
    let now = visited.push(p);
    assert(now[visited.len() as int] == p);
    assert forall|q: (Seq<char>, Seq<char>)| now.contains(q) <==> visited.contains(q) || q == p by {
        if visited.contains(q) {
            let i = choose|i: int| 0 <= i < visited.len() && visited[i] == q;
            assert(now[i] == q);
        }
    }
    assert forall|n: Seq<char>, v: Seq<char>|
        #![trigger now.contains((n, v))]
        #![trigger after[n].contains(v)]
        now.contains((n, v)) <==> after.dom().contains(n) && after[n].contains(v) by {
        assert(visited.contains((n, v)) <==> index.dom().contains(n) && index[n].contains(v));
    }
    assert forall|n: Seq<char>| #[trigger] after.dom().contains(n) implies exists|v: Seq<char>|
        #[trigger] now.contains((n, v)) by {
        if n == p.0 {
            assert(now.contains((n, p.1)));
        } else {
            let v = choose|v: Seq<char>| #[trigger] visited.contains((n, v));
            assert(now.contains((n, v)));
        }
    }
}

impl MetricStore {
    /// All label names -> value sets seen for a metric.
    pub fn label_values(&self, metric: &MetricName) -> (r: SortedMap<
        LabelName,
        SortedSet<LabelValue>,
    >)
        ensures
            r@ == label_index(self@.series, metric@),
    {
        let ghost all = self.series.listing();
        let ghost series = self@.series;
        let n = self.series.len();
        let mut index: SortedMap<LabelName, SortedSet<LabelValue>> = SortedMap::new();
        let ghost mut visited: Seq<(Seq<char>, Seq<char>)> = seq![];
        proof {
            lemma_key_order();
            lemma_map_of(all, key_order());
        }
        for i in 0..n
            invariant
                n == all.len(),
                all == self.series.listing(),
                is_index_of(index@, visited),
                forall|p: (Seq<char>, Seq<char>)| #[trigger]
                    visited.contains(p) <==> exists|a: int|
                        0 <= a < i && (#[trigger] all[a]).0.0 == metric@ && all[a].0.1.contains(p),
        {
            let key = self.series.key_at(i);
            let ghost start = visited;
            if str_eq(key.name.as_str(), metric.as_str()) {
                let m = key.labels.len();
                let ghost l = key.labels@;
                for j in 0..m
                    invariant
                        m == l.len(),
                        l == key.labels@,
                        is_index_of(index@, visited),
                        visited == start + l.take(j as int),
                {
                    let ghost p = l[j as int];
                    proof {
                        lemma_index_step(index@, visited, p);
                    }
                    add_label(&mut index, key.labels.name_at(j), key.labels.value_at(j));
                    proof {
                        visited = visited.push(p);
                        assert(l.take(j + 1) =~= l.take(j as int).push(p));
                        assert(visited =~= start + l.take(j + 1));
                    }
                }
                proof {
                    assert(l.take(m as int) =~= l);
                    assert forall|p: (Seq<char>, Seq<char>)| #[trigger]
                        visited.contains(p) <==> start.contains(p) || l.contains(p) by {
                        if start.contains(p) {
                            let a = choose|a: int| 0 <= a < start.len() && start[a] == p;
                            assert(visited[a] == p);
                        }
                        if l.contains(p) {
                            let a = choose|a: int| 0 <= a < l.len() && l[a] == p;
                            assert(visited[start.len() + a] == p);
                        }
                        if visited.contains(p) {
                            let a = choose|a: int| 0 <= a < visited.len() && visited[a] == p;
                            if a < start.len() {
                                assert(start[a] == p);
                            } else {
                                assert(l[a - start.len()] == p);
                            }
                        }
                    }
                }
            }
            proof {
                assert forall|p: (Seq<char>, Seq<char>)| #[trigger]
                    visited.contains(p) <==> exists|a: int|
                        0 <= a < i + 1 && (#[trigger] all[a]).0.0 == metric@ && all[a].0.1.contains(
                            p,
                        ) by {
                    if start.contains(p) {
                        let a = choose|a: int|
                            0 <= a < i && (#[trigger] all[a]).0.0 == metric@ && all[a].0.1.contains(
                                p,
                            );
                        assert(all[a].0.1.contains(p));
                    }
                    assert(all[i as int].0.0 == key.name@ && all[i as int].0.1 == key.labels@);
                    if exists|a: int|
                        0 <= a < i + 1 && (#[trigger] all[a]).0.0 == metric@ && all[a].0.1.contains(
                            p,
                        ) {
                        let a = choose|a: int|
                            0 <= a < i + 1 && (#[trigger] all[a]).0.0 == metric@
                                && all[a].0.1.contains(p);
                        if a < i {
                            assert(start.contains(p));
                        }
                    }
                }
            }
        }
        proof {
            let want = label_index(series, metric@);
            assert forall|n: Seq<char>, v: Seq<char>| #[trigger]
                has_label(series, metric@, n, v) <==> visited.contains((n, v)) by {
                if has_label(series, metric@, n, v) {
                    let l = choose|l: LabelPairs| #[trigger]
                        series.dom().contains((metric@, l)) && l.contains((n, v));
                    let a = choose|a: int| 0 <= a < all.len() && (#[trigger] all[a]).0 == (metric@, l);
                    assert(all[a].0.1.contains((n, v)));
                }
                if visited.contains((n, v)) {
                    let a = choose|a: int|
                        0 <= a < all.len() && (#[trigger] all[a]).0.0 == metric@
                            && all[a].0.1.contains((n, v));
                    assert(series.dom().contains(all[a].0));
                    assert(all[a].0 == (metric@, all[a].0.1));
                }
            }
            assert forall|n: Seq<char>| index@.dom().contains(n) <==> want.dom().contains(n) by {
                if index@.dom().contains(n) {
                    let v = choose|v: Seq<char>| #[trigger] visited.contains((n, v));
                    assert(has_label(series, metric@, n, v));
                }
                if want.dom().contains(n) {
                    let v = choose|v: Seq<char>| has_label(series, metric@, n, v);
                    assert(visited.contains((n, v)));
                }
            }
            assert forall|n: Seq<char>| index@.dom().contains(n) implies #[trigger] index@[n]
                == want[n] by {
                assert(want.dom().contains(n));
                assert(want[n] == Set::new(|v: Seq<char>| has_label(series, metric@, n, v)));
                assert forall|v: Seq<char>| index@[n].contains(v) <==> want[n].contains(v) by {
                    assert(visited.contains((n, v)) <==> index@[n].contains(v));
                    assert(want[n].contains(v) <==> has_label(series, metric@, n, v));
                    assert(has_label(series, metric@, n, v) <==> visited.contains((n, v)));
                }
                assert(index@[n] =~= want[n]);
            }
            assert(index@ =~= want);
        }
        index
    }
}

/// Typed, already-validated query arguments.
#[derive(Debug, Clone, Copy)]
pub struct QueryRange {
    pub from: TimestampMs,
    pub to: TimestampMs,
    pub step_ms: i64,
}

/// The contents of query arguments.
pub struct RangeSpec {
    pub from: int,
    pub to: int,
    pub step: int,
}

impl View for QueryRange {
    type V = RangeSpec;

    open spec fn view(&self) -> RangeSpec {
        RangeSpec {
            from: self.from@,
            to: self.to@,
            step: if self.step_ms < 1 {
                1
            } else {
                self.step_ms as int
            },
        }
    }
}

/// The step bucket of a sample in a range.
pub open spec fn bucket(p: Point, range: RangeSpec) -> int {
    (p.ts - range.from) / range.step
}

/// The samples of a range, of those that follow each other in one step bucket
/// the last.
pub open spec fn thinned(s: Seq<Point>, range: RangeSpec) -> Seq<Point>
    decreases s.len(),
{
    if s.len() == 0 {
        seq![]
    } else {
        let t = thinned(s.drop_last(), range);
        let p = s.last();
        if !(range.from <= p.ts <= range.to) {
            t
        } else if t.len() > 0 && bucket(t.last(), range) == bucket(p, range) {
            t.drop_last().push(p)
        } else {
            t.push(p)
        }
    }
}

/// The label set has all the labels that are asked for.
pub open spec fn meets(l: LabelPairs, filters: LabelPairs) -> bool {
    forall|i: int|
        0 <= i < filters.len() ==> map_of(l).dom().contains((#[trigger] filters[i]).0) && map_of(
            l,
        )[filters[i].0] == filters[i].1
}

/// What a query finds: for each label set that has the labels asked for, the
/// samples of the range, unless there are none.
pub open spec fn found(
    series: Map<Key, Seq<Point>>,
    metric: Seq<char>,
    filters: LabelPairs,
    range: RangeSpec,
) -> Map<LabelPairs, Seq<Point>> {
    Map::new(
        |l: LabelPairs|
            series.dom().contains((metric, l)) && meets(l, filters) && thinned(
                series[(metric, l)],
                range,
            ).len() > 0,
        |l: LabelPairs| thinned(series[(metric, l)], range),
    )
}

#[derive(Debug, PartialEq)]
pub struct QuerySeries {
    pub labels: Labels,
    pub points: Vec<Sample>,
}

/// A copy of samples.
fn copy_samples(s: &[Sample]) -> (r: Vec<Sample>)
    ensures
        points(r@) == points(s@),
{
    let mut out: Vec<Sample> = Vec::new();
    for i in 0..s.len()
        invariant
            out@ == s@.take(i as int),
    {
        out.push(s[i]);
        assert(s@.take(i + 1) =~= s@.take(i as int).push(s@[i as int]));
    }
    assert(s@.take(s@.len() as int) =~= s@);
    out
}

impl Clone for QuerySeries {
    fn clone(&self) -> (r: Self)
        ensures
            r.labels@ == self.labels@,
            points(r.points@) == points(self.points@),
    {
        QuerySeries {
            labels: self.labels.clone(),
            points: copy_samples(self.points.as_slice()),
        }
    }
}

pub open spec fn query_views(s: Seq<QuerySeries>) -> Seq<(LabelPairs, Seq<Point>)> {
    s.map_values(|e: QuerySeries| (e.labels@, points(e.points@)))
}

impl Series {
    /// One (last) sample per step bucket.
    fn thin(&self, range: &QueryRange) -> (r: Vec<Sample>)
        ensures
            points(r@) == thinned(self@, range@),
    {
        let n = self.len();
        let ghost all = self@;
        let step: i64 = if range.step_ms < 1 {
            1
        } else {
            range.step_ms
        };
        let from: i64 = range.from.as_millis();
        let to: i64 = range.to.as_millis();
        let mut out: Vec<Sample> = Vec::new();
        assert(all.take(0) =~= seq![]);
        assert(points(out@) =~= seq![]);
        for i in 0..n
            invariant
                n == all.len(),
                all == self@,
                step == range@.step,
                step >= 1,
                from == range@.from,
                to == range@.to,
                0 <= from <= MAX_TIMESTAMP_MS,
                points(out@) == thinned(all.take(i as int), range@),
                forall|a: int| 0 <= a < out@.len() ==> from <= (#[trigger] out@[a]).ts@ <= to,
        {
            let s = self.at(i);
            let ghost t = points(out@);
            proof {
                assert(all.take(i + 1).drop_last() =~= all.take(i as int));
                assert(all.take(i + 1).last() == s@);
            }
            let ts: i64 = s.ts.as_millis();
            if from <= ts && ts <= to {
                let bucket: i64 = (ts - from) / step;
                let m = out.len();
                if m > 0 && (out[m - 1].ts.as_millis() - from) / step == bucket {
                    out.set(m - 1, s);
                    assert(points(out@) =~= t.drop_last().push(s@));
                } else {
                    out.push(s);
                    assert(points(out@) =~= t.push(s@));
                }
            }
        }
        assert(all.take(n as int) =~= all);
        out
    }
}

/// The key stands among the first `i` of a listing.
spec fn listed_before(all: Seq<(Key, Seq<Point>)>, i: int, k: Key) -> bool {
    exists|b: int| 0 <= b < i && (#[trigger] all[b]).0 == k
}

/// Whether the labels have all the labels that are asked for.
fn labels_meet(labels: &Labels, filters: &[(LabelName, LabelValue)]) -> (r: bool)
    ensures
        r == meets(labels@, crate::model::pair_views(filters@)),
{
    let ghost want = crate::model::pair_views(filters@);
    for i in 0..filters.len()
        invariant
            want == crate::model::pair_views(filters@),
            forall|j: int|
                0 <= j < i ==> map_of(labels@).dom().contains((#[trigger] want[j]).0) && map_of(
                    labels@,
                )[want[j].0] == want[j].1,
    {
        let (name, value) = &filters[i];
        assert(want[i as int] == (name@, value@));
        let same = match labels.get(name.as_str()) {
            Some(v) => str_eq(v.as_str(), value.as_str()),
            None => false,
        };
        if !same {
            return false;
        }
    }
    true
}

impl MetricStore {
    /// Range query with equality label filters. Points are downsampled to one
    /// (last) sample per step bucket.
    pub fn query(
        &self,
        metric: &MetricName,
        filters: &[(LabelName, LabelValue)],
        range: &QueryRange,
    ) -> (r: Vec<QuerySeries>)
        ensures
            is_sorted(keys_of(query_views(r@)), labels_order()),
            map_of(query_views(r@)) == found(
                self@.series,
                metric@,
                crate::model::pair_views(filters@),
                range@,
            ),
    {
        let ghost all = self.series.listing();
        let ghost series = self@.series;
        let ghost want = crate::model::pair_views(filters@);
        let ghost result = found(series, metric@, want, range@);
        let n = self.series.len();
        let mut out: Vec<QuerySeries> = Vec::new();
        proof {
            lemma_key_order();
            lemma_labels_order();
            lemma_map_of(all, key_order());
            assert(query_views(out@) =~= seq![]);
        }
        for i in 0..n
            invariant
                n == all.len(),
                all == self.series.listing(),
                is_sorted(keys_of(all), key_order()),
                is_strict_order(labels_order()),
                series == self@.series,
                want == crate::model::pair_views(filters@),
                result == found(series, metric@, want, range@),
                forall|a: int|
                    0 <= a < all.len() ==> series.dom().contains((#[trigger] all[a]).0)
                        && series[all[a].0] == all[a].1,
                is_sorted(keys_of(query_views(out@)), labels_order()),
                forall|a: int|
                    0 <= a < out@.len() ==> result.dom().contains(
                        (#[trigger] query_views(out@)[a]).0,
                    ) && result[query_views(out@)[a].0] == query_views(out@)[a].1,
                forall|a: int|
                    0 <= a < out@.len() ==> listed_before(
                        all,
                        i as int,
                        (metric@, (#[trigger] query_views(out@)[a]).0),
                    ),
                forall|b: int|
                    0 <= b < i && (#[trigger] all[b]).0.0 == metric@ && result.dom().contains(
                        all[b].0.1,
                    ) ==> keys_of(query_views(out@)).contains(all[b].0.1),
        {
            let key = self.series.key_at(i);
            let ghost before = query_views(out@);
            let ghost k = all[i as int].0;
            assert(k == key@);
            if str_eq(key.name.as_str(), metric.as_str()) && labels_meet(&key.labels, filters) {
                let thin = self.series.value_at(i).thin(range);
                assert(series[k] == all[i as int].1);
                assert(k == (metric@, k.1));
                if thin.len() > 0 {
                    let ghost entry = (k.1, points(thin@));
                    out.push(QuerySeries { labels: key.labels.clone(), points: thin });
                    proof {
                        let after = query_views(out@);
                        assert(after =~= before.push(entry));
                        assert(keys_of(after) =~= keys_of(before).push(k.1));
                        assert forall|a: int, b: int|
                            0 <= a < b < keys_of(after).len() implies labels_order()(
                            #[trigger] keys_of(after)[a],
                            #[trigger] keys_of(after)[b],
                        ) by {
                            if b < before.len() {
                                assert(labels_order()(keys_of(before)[a], keys_of(before)[b]));
                            } else {
                                assert(before[a].0 == keys_of(before)[a]);
                                assert(listed_before(all, i as int, (metric@, before[a].0)));
                                let c = choose|c: int|
                                    0 <= c < i && (#[trigger] all[c]).0 == (metric@, before[a].0);
                                let ks = keys_of(all);
                                assert(key_order()(ks[c], ks[i as int]));
                                lemma_text_order();
                                assert(!text_order()(metric@, metric@));
                            }
                        }
                        assert forall|a: int| 0 <= a < after.len() implies result.dom().contains(
                            (#[trigger] after[a]).0,
                        ) && result[after[a].0] == after[a].1 by {
                            if a < before.len() {
                                assert(after[a] == before[a]);
                            }
                        }
                    }
                }
            }
            proof {
                let after = query_views(out@);
                assert forall|a: int| 0 <= a < after.len() implies listed_before(
                    all,
                    i + 1,
                    (metric@, (#[trigger] after[a]).0),
                ) by {
                    if a < before.len() {
                        assert(after[a] == before[a]);
                        assert(listed_before(all, i as int, (metric@, before[a].0)));
                    } else {
                        assert(all[i as int].0 == (metric@, after[a].0));
                    }
                }
                assert forall|b: int|
                    0 <= b < i + 1 && (#[trigger] all[b]).0.0 == metric@ && result.dom().contains(
                        all[b].0.1,
                    ) implies keys_of(after).contains(all[b].0.1) by {
                    let l = all[b].0.1;
                    if b < i {
                        let a = choose|a: int|
                            0 <= a < keys_of(before).len() && keys_of(before)[a] == l;
                        assert(keys_of(after)[a] == l);
                    } else {
                        assert(all[b].0 == (metric@, l));
                        assert(keys_of(after)[before.len() as int] == l);
                    }
                }
            }
        }
        proof {
            let views = query_views(out@);
            lemma_map_of(views, labels_order());
            let have = map_of(views);
            assert forall|l: LabelPairs| have.dom().contains(l) <==> result.dom().contains(l) by {
                if have.dom().contains(l) {
                    let a = choose|a: int| 0 <= a < views.len() && (#[trigger] views[a]).0 == l;
                    assert(result.dom().contains(views[a].0));
                }
                if result.dom().contains(l) {
                    let b = choose|b: int|
                        0 <= b < all.len() && (#[trigger] all[b]).0 == (metric@, l);
                    assert(all[b].0.1 == l && all[b].0.0 == metric@);
                    assert(keys_of(views).contains(all[b].0.1));
                }
            }
            assert forall|l: LabelPairs| have.dom().contains(l) implies #[trigger] have[l]
                == result[l] by {
                let a = choose|a: int| 0 <= a < views.len() && (#[trigger] views[a]).0 == l;
                assert(result[views[a].0] == views[a].1);
            }
            assert(have =~= result);
        }
        out
    }
}

/// A full dump of the store, shared shape between storage and snapshot.
#[derive(Debug, PartialEq)]
pub struct StoreDump {
    pub series: Vec<(SeriesKey, Vec<Sample>)>,
    pub metas: Vec<(MetricName, MetricMeta)>,
}

/// The contents of a dump.
pub struct DumpSpec {
    pub series: Seq<(Key, Seq<Point>)>,
    pub metas: Seq<(Seq<char>, MetaSpec)>,
}

pub open spec fn series_views(s: Seq<(SeriesKey, Vec<Sample>)>) -> Seq<(Key, Seq<Point>)> {
    s.map_values(|e: (SeriesKey, Vec<Sample>)| (e.0@, points(e.1@)))
}

impl View for StoreDump {
    type V = DumpSpec;

    open spec fn view(&self) -> DumpSpec {
        DumpSpec { series: series_views(self.series@), metas: meta_views(self.metas@) }
    }
}

impl Clone for StoreDump {
    fn clone(&self) -> (r: Self)
        ensures
            r@ == self@,
    {
        let ghost all = self@.series;
        let ghost known = self@.metas;
        let mut series: Vec<(SeriesKey, Vec<Sample>)> = Vec::new();
        assert(series_views(series@) =~= all.take(0));
        for i in 0..self.series.len()
            invariant
                all == series_views(self.series@),
                series_views(series@) == all.take(i as int),
        {
            let ghost before = series_views(series@);
            let (key, samples) = &self.series[i];
            let entry = (key.clone(), copy_samples(samples.as_slice()));
            let ghost view = (entry.0@, points(entry.1@));
            series.push(entry);
            assert(series_views(series@) =~= before.push(view));
            assert(all.take(i + 1) =~= all.take(i as int).push(all[i as int]));
        }
        assert(all.take(self.series@.len() as int) =~= all);
        let mut metas: Vec<(MetricName, MetricMeta)> = Vec::new();
        assert(meta_views(metas@) =~= known.take(0));
        for i in 0..self.metas.len()
            invariant
                known == meta_views(self.metas@),
                meta_views(metas@) == known.take(i as int),
        {
            let ghost before = meta_views(metas@);
            let (name, meta) = &self.metas[i];
            let entry = (name.clone(), meta.clone());
            let ghost view = (entry.0@, entry.1@);
            metas.push(entry);
            assert(meta_views(metas@) =~= before.push(view));
            assert(known.take(i + 1) =~= known.take(i as int).push(known[i as int]));
        }
        assert(known.take(self.metas@.len() as int) =~= known);
        StoreDump { series, metas }
    }
}

/// The dump of a store that holds nothing.
pub open spec fn empty_dump() -> DumpSpec {
    DumpSpec { series: seq![], metas: seq![] }
}

impl Default for StoreDump {
    fn default() -> (r: Self)
        ensures
            r@ == empty_dump(),
    {
        let r = StoreDump { series: Vec::new(), metas: Vec::new() };
        assert(r@.series =~= seq![]);
        assert(r@.metas =~= seq![]);
        r
    }
}

/// The map that holds the listed pairs, of those with one key the last.
pub open spec fn collected<A, B>(s: Seq<(A, B)>) -> Map<A, B>
    decreases s.len(),
{
    if s.len() == 0 {
        Map::empty()
    } else {
        collected(s.drop_last()).insert(s.last().0, s.last().1)
    }
}

/// The dump lists the series and the metadata of the store, sorted by key.
pub open spec fn is_dump_of(dump: DumpSpec, store: StoreSpec) -> bool {
    &&& is_sorted(keys_of(dump.series), key_order())
    &&& map_of(dump.series) == store.series
    &&& is_sorted(keys_of(dump.metas), text_order())
    &&& map_of(dump.metas) == store.metas
}

/// What restoring a dump makes of a store.
pub open spec fn restored(store: StoreSpec, dump: DumpSpec) -> StoreSpec {
    StoreSpec { series: collected(dump.series), metas: collected(dump.metas), ..store }
}

impl Series {
    fn to_vec(&self) -> (r: Vec<Sample>)
        ensures
            points(r@) == self@,
    {
        let n = self.len();
        let mut out: Vec<Sample> = Vec::new();
        for i in 0..n
            invariant
                n == self@.len(),
                points(out@) == self@.take(i as int),
        {
            let ghost before = points(out@);
            let s = self.at(i);
            out.push(s);
            assert(points(out@) =~= before.push(s@));
            assert(self@.take(i + 1) =~= self@.take(i as int).push(self@[i as int]));
        }
        assert(self@.take(n as int) =~= self@);
        out
    }

    fn from_slice(s: &[Sample]) -> (r: Self)
        ensures
            r@ == points(s@),
    {
        let mut r = Series::new();
        let ghost all = points(s@);
        for i in 0..s.len()
            invariant
                all == points(s@),
                r@ == all.take(i as int),
        {
            let ghost before = r@;
            r.samples.push_back(s[i]);
            assert(r@ =~= before.push(s@[i as int]@));
            assert(all.take(i + 1) =~= all.take(i as int).push(all[i as int]));
        }
        assert(all.take(s@.len() as int) =~= all);
        r
    }
}

impl MetricStore {
    pub fn dump(&self) -> (r: StoreDump)
        ensures
            is_dump_of(r@, self@),
    {
        let ghost all = self.series.listing();
        let n = self.series.len();
        let mut series: Vec<(SeriesKey, Vec<Sample>)> = Vec::new();
        assert(series_views(series@) =~= all.take(0));
        for i in 0..n
            invariant
                n == all.len(),
                all == self.series.listing(),
                series_views(series@) == all.take(i as int),
        {
            let ghost before = series_views(series@);
            let key = self.series.key_at(i).clone();
            let samples = self.series.value_at(i).to_vec();
            let ghost entry = (key@, points(samples@));
            series.push((key, samples));
            assert(series_views(series@) =~= before.push(entry));
            assert(all.take(i + 1) =~= all.take(i as int).push(all[i as int]));
        }
        assert(all.take(n as int) =~= all);
        let ghost known = self.metas.listing();
        let m = self.metas.len();
        let mut metas: Vec<(MetricName, MetricMeta)> = Vec::new();
        assert(meta_views(metas@) =~= known.take(0));
        for i in 0..m
            invariant
                m == known.len(),
                known == self.metas.listing(),
                meta_views(metas@) == known.take(i as int),
        {
            let ghost before = meta_views(metas@);
            let name = self.metas.key_at(i).clone();
            let meta = self.metas.value_at(i).clone();
            let ghost entry = (name@, meta@);
            metas.push((name, meta));
            assert(meta_views(metas@) =~= before.push(entry));
            assert(known.take(i + 1) =~= known.take(i as int).push(known[i as int]));
        }
        assert(known.take(m as int) =~= known);
        StoreDump { series, metas }
    }

    /// Replace store contents from a snapshot dump (startup only).
    pub fn restore(&mut self, dump: StoreDump)
        ensures
            final(self)@ == restored(old(self)@, dump@),
    {
        let ghost all = dump@.series;
        let ghost known = dump@.metas;
        let mut series: SortedMap<SeriesKey, Series> = SortedMap::new();
        assert(all.take(0) =~= seq![]);
        for i in 0..dump.series.len()
            invariant
                all == series_views(dump.series@),
                series@ == collected(all.take(i as int)),
        {
            let (key, samples) = &dump.series[i];
            series.insert(key.clone(), Series::from_slice(samples.as_slice()));
            assert(all.take(i + 1).drop_last() =~= all.take(i as int));
            assert(all[i as int] == (key@, points(samples@)));
        }
        assert(all.take(dump.series@.len() as int) =~= all);
        let mut metas: SortedMap<MetricName, MetricMeta> = SortedMap::new();
        assert(known.take(0) =~= seq![]);
        for i in 0..dump.metas.len()
            invariant
                known == meta_views(dump.metas@),
                metas@ == collected(known.take(i as int)),
        {
            let (name, meta) = &dump.metas[i];
            metas.insert(name.clone(), meta.clone());
            assert(known.take(i + 1).drop_last() =~= known.take(i as int));
            assert(known[i as int] == (name@, meta@));
        }
        assert(known.take(dump.metas@.len() as int) =~= known);
        self.series = series;
        self.metas = metas;
    }
}

} // verus!
