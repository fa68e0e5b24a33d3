//! What a snapshot holds is read back, and a part of a snapshot is refused.

use vstd::arithmetic::power2::{lemma2_to64, lemma_pow2_adds, pow2};
use vstd::prelude::*;
use vstd::utf8::encode_utf8;

use crate::model::{
    is_label_name, is_label_set, is_metric_name, kind_text, law_kind_text, lemma_labels_of, Key,
    LabelPairs, MetaSpec, MetricKind, Point, MAX_TIMESTAMP_MS,
};
use crate::order::{lemma_text_order, text_order};
use crate::snapshot::{
    all_series_bytes, count_bytes, dump_bytes, le_bytes, le_value, magic, meta_bytes, metas_bytes,
    pairs_bytes, point_bytes, points_bytes, read_all_series, read_dump, read_header, read_label_set,
    read_limited, read_meta, read_metas, read_metric_name, read_pair, read_pairs, read_point,
    read_points, read_series, read_text, read_u32, series_bytes, take_bytes, text_bytes, Read,
    SnapshotErrorSpec, MAX_COUNT, MAX_STR_LEN, VERSION,
};
use crate::sorted::keys_of;
use crate::storage::{is_dump_of, pruned, restored, DumpSpec, StoreSpec};
use crate::store_laws::law_restore_of_dump;

verus! {

/// The text is short enough to be read back.
pub open spec fn text_fits(s: Seq<char>) -> bool {
    encode_utf8(s).len() <= MAX_STR_LEN
}

pub open spec fn meta_fits(m: (Seq<char>, MetaSpec)) -> bool {
    is_metric_name(m.0) && text_fits(m.0) && text_fits(m.1.help)
}

pub open spec fn pair_fits(p: (Seq<char>, Seq<char>)) -> bool {
    is_label_name(p.0) && text_fits(p.0) && text_fits(p.1)
}

pub open spec fn point_fits(p: Point) -> bool {
    0 <= p.ts <= MAX_TIMESTAMP_MS
}

pub open spec fn series_fits(e: (Key, Seq<Point>)) -> bool {
    &&& is_metric_name(e.0.0)
    &&& text_fits(e.0.0)
    &&& is_label_set(e.0.1)
    &&& e.0.1.len() <= MAX_COUNT
    &&& forall|i: int| 0 <= i < e.0.1.len() ==> pair_fits(#[trigger] e.0.1[i])
    &&& e.1.len() <= MAX_COUNT
    &&& forall|i: int| 0 <= i < e.1.len() ==> point_fits(#[trigger] e.1[i])
}

/// The dump holds valid names, label sets and timestamps, and keeps within the
/// limits on text lengths and record counts.
pub open spec fn dump_fits(d: DumpSpec) -> bool {
    &&& d.metas.len() <= MAX_COUNT
    &&& forall|i: int| 0 <= i < d.metas.len() ==> meta_fits(#[trigger] d.metas[i])
    &&& d.series.len() <= MAX_COUNT
    &&& forall|i: int| 0 <= i < d.series.len() ==> series_fits(#[trigger] d.series[i])
}

pub proof fn lemma_le(v: nat, width: nat)
    requires
        v < pow2(8 * width),
    ensures
        le_bytes(v, width).len() == width,
        le_value(le_bytes(v, width)) == v,
    decreases width,
{
    lemma2_to64();
    if width > 0 {
        let w = (width - 1) as nat;
        lemma_pow2_adds(8, 8 * w);
        let q = v / 256;
        assert(q < pow2(8 * w)) by {
            if q >= pow2(8 * w) {
                assert(v >= 256 * q);
            }
        }
        lemma_le(q, w);
        let s = le_bytes(v, width);
        assert(s.skip(1) =~= le_bytes(q, w));
        assert(s[0] as nat == v % 256);
    }
}

proof fn lemma_count(n: nat, max: nat, field: Seq<char>, tail: Seq<u8>)
    requires
        n <= max <= 0x100_0000,
    ensures
        read_limited(count_bytes(n) + tail, max, field) == Ok::<
            (nat, Seq<u8>),
            SnapshotErrorSpec,
        >((n, tail)),
{
    reveal(count_bytes);
    reveal(read_limited);
    lemma2_to64();
    let b = count_bytes(n);
    assert(n % 0x1_0000_0000 == n);
    lemma_le(n, 4);
    assert((b + tail).take(4) =~= b);
    assert((b + tail).skip(4) =~= tail);
}

proof fn lemma_text(s: Seq<char>, field: Seq<char>, tail: Seq<u8>)
    requires
        text_fits(s),
    ensures
        read_text(text_bytes(s) + tail, field) == Ok::<(Seq<char>, Seq<u8>), SnapshotErrorSpec>(
            (s, tail),
        ),
{
    reveal(text_bytes);
    reveal(read_text);
    let b = encode_utf8(s);
    lemma_count(b.len(), MAX_STR_LEN as nat, field, b + tail);
    assert(text_bytes(s) + tail =~= count_bytes(b.len()) + (b + tail));
    assert((b + tail).take(b.len() as int) =~= b);
    assert((b + tail).skip(b.len() as int) =~= tail);
    vstd::utf8::encode_utf8_valid_utf8(s);
    vstd::utf8::encode_utf8_decode_utf8(s);
}

proof fn lemma_encode_bound(s: Seq<char>)
    ensures
        encode_utf8(s).len() <= 4 * s.len(),
    decreases s.len(),
{
    if s.len() > 0 {
        lemma_encode_bound(s.drop_first());
    }
}

proof fn lemma_kind_fits(kind: MetricKind)
    ensures
        text_fits(kind_text(kind)),
{
    reveal_strlit("counter");
    reveal_strlit("gauge");
    reveal_strlit("histogram");
    reveal_strlit("summary");
    reveal_strlit("untyped");
    lemma_encode_bound(kind_text(kind));
}

proof fn lemma_meta(m: (Seq<char>, MetaSpec), tail: Seq<u8>)
    requires
        meta_fits(m),
    ensures
        read_meta(meta_bytes(m) + tail) == Ok::<
            ((Seq<char>, MetaSpec), Seq<u8>),
            SnapshotErrorSpec,
        >((m, tail)),
{
    reveal(meta_bytes);
    reveal(read_meta);
    reveal(read_metric_name);
    let (name, meta) = m;
    let word = kind_text(meta.kind);
    let t2 = text_bytes(meta.help) + tail;
    let t1 = text_bytes(word) + t2;
    lemma_text(name, "meta name"@, t1);
    lemma_kind_fits(meta.kind);
    lemma_text(word, "meta kind"@, t2);
    lemma_text(meta.help, "meta help"@, tail);
    law_kind_text(meta.kind, word);
    assert(meta_bytes(m) + tail =~= text_bytes(name) + t1);
}

proof fn lemma_metas(
    s: Seq<(Seq<char>, MetaSpec)>,
    tail: Seq<u8>,
    read: Seq<(Seq<char>, MetaSpec)>,
)
    requires
        forall|i: int| 0 <= i < s.len() ==> meta_fits(#[trigger] s[i]),
    ensures
        read_metas(metas_bytes(s) + tail, s.len(), read) == Ok::<
            (Seq<(Seq<char>, MetaSpec)>, Seq<u8>),
            SnapshotErrorSpec,
        >((read + s, tail)),
    decreases s.len(),
{
    if s.len() == 0 {
        assert(metas_bytes(s) + tail =~= tail);
        assert(read + s =~= read);
    } else {
        let rest = s.skip(1);
        assert(meta_fits(s[0]));
        assert forall|i: int| 0 <= i < rest.len() implies meta_fits(#[trigger] rest[i]) by {
            assert(rest[i] == s[i + 1]);
        }
        lemma_meta(s[0], metas_bytes(rest) + tail);
        lemma_metas(rest, tail, read.push(s[0]));
        assert(metas_bytes(s) + tail =~= meta_bytes(s[0]) + (metas_bytes(rest) + tail));
        assert(read.push(s[0]) + rest =~= read + s);
    }
}

proof fn lemma_pairs(s: LabelPairs, tail: Seq<u8>, read: LabelPairs)
    requires
        forall|i: int| 0 <= i < s.len() ==> pair_fits(#[trigger] s[i]),
    ensures
        read_pairs(pairs_bytes(s) + tail, s.len(), read) == Ok::<
            (LabelPairs, Seq<u8>),
            SnapshotErrorSpec,
        >((read + s, tail)),
    decreases s.len(),
{
    reveal(read_pair);
    if s.len() == 0 {
        assert(pairs_bytes(s) + tail =~= tail);
        assert(read + s =~= read);
    } else {
        let rest = s.skip(1);
        assert(pair_fits(s[0]));
        assert forall|i: int| 0 <= i < rest.len() implies pair_fits(#[trigger] rest[i]) by {
            assert(rest[i] == s[i + 1]);
        }
        let t2 = pairs_bytes(rest) + tail;
        let t1 = text_bytes(s[0].1) + t2;
        lemma_text(s[0].0, "label name"@, t1);
        lemma_text(s[0].1, "label value"@, t2);
        lemma_pairs(rest, tail, read.push(s[0]));
        assert(pairs_bytes(s) + tail =~= text_bytes(s[0].0) + t1);
        assert(read.push(s[0]) + rest =~= read + s);
    }
}

proof fn lemma_point(p: Point, tail: Seq<u8>)
    requires
        point_fits(p),
    ensures
        read_point(point_bytes(p) + tail) == Ok::<(Point, Seq<u8>), SnapshotErrorSpec>((p, tail)),
{
    reveal(point_bytes);
    reveal(read_point);
    lemma2_to64();
    let a = le_bytes(p.ts as nat, 8);
    let b = le_bytes(p.value as nat, 8);
    lemma_le(p.ts as nat, 8);
    lemma_le(p.value as nat, 8);
    let s = point_bytes(p) + tail;
    assert(s.take(8) =~= a);
    assert(s.skip(8) =~= b + tail);
    assert((b + tail).take(8) =~= b);
    assert((b + tail).skip(8) =~= tail);
}

proof fn lemma_points(s: Seq<Point>, tail: Seq<u8>, read: Seq<Point>)
    requires
        forall|i: int| 0 <= i < s.len() ==> point_fits(#[trigger] s[i]),
    ensures
        read_points(points_bytes(s) + tail, s.len(), read) == Ok::<
            (Seq<Point>, Seq<u8>),
            SnapshotErrorSpec,
        >((read + s, tail)),
    decreases s.len(),
{
    if s.len() == 0 {
        assert(points_bytes(s) + tail =~= tail);
        assert(read + s =~= read);
    } else {
        let rest = s.skip(1);
        assert(point_fits(s[0]));
        assert forall|i: int| 0 <= i < rest.len() implies point_fits(#[trigger] rest[i]) by {
            assert(rest[i] == s[i + 1]);
        }
        lemma_point(s[0], points_bytes(rest) + tail);
        lemma_points(rest, tail, read.push(s[0]));
        assert(points_bytes(s) + tail =~= point_bytes(s[0]) + (points_bytes(rest) + tail));
        assert(read.push(s[0]) + rest =~= read + s);
    }
}

proof fn lemma_series(e: (Key, Seq<Point>), tail: Seq<u8>)
    requires
        series_fits(e),
    ensures
        read_series(series_bytes(e) + tail) == Ok::<
            ((Key, Seq<Point>), Seq<u8>),
            SnapshotErrorSpec,
        >((e, tail)),
{
    reveal(series_bytes);
    reveal(read_series);
    reveal(read_metric_name);
    reveal(read_label_set);
    let ((name, labels), points) = e;
    let t4 = points_bytes(points) + tail;
    let t3 = count_bytes(points.len()) + t4;
    let t2 = pairs_bytes(labels) + t3;
    let t1 = count_bytes(labels.len()) + t2;
    lemma_text(name, "series name"@, t1);
    lemma_count(labels.len(), MAX_COUNT as nat, "label count"@, t2);
    lemma_pairs(labels, t3, seq![]);
    assert(Seq::<(Seq<char>, Seq<char>)>::empty() + labels =~= labels);
    lemma_text_order();
    assert forall|i: int, j: int| 0 <= i < j < labels.len() implies (#[trigger] labels[i]).0 != (
    #[trigger] labels[j]).0 by {
        let ks = keys_of(labels);
        assert(text_order()(ks[i], ks[j]));
    }
    lemma_labels_of(labels, labels);
    lemma_count(points.len(), MAX_COUNT as nat, "sample count"@, t4);
    lemma_points(points, tail, seq![]);
    assert(Seq::<Point>::empty() + points =~= points);
    assert(series_bytes(e) + tail =~= text_bytes(name) + t1);
}

proof fn lemma_all_series(
    s: Seq<(Key, Seq<Point>)>,
    tail: Seq<u8>,
    read: Seq<(Key, Seq<Point>)>,
)
    requires
        forall|i: int| 0 <= i < s.len() ==> series_fits(#[trigger] s[i]),
    ensures
        read_all_series(all_series_bytes(s) + tail, s.len(), read) == Ok::<
            (Seq<(Key, Seq<Point>)>, Seq<u8>),
            SnapshotErrorSpec,
        >((read + s, tail)),
    decreases s.len(),
{
    if s.len() == 0 {
        assert(all_series_bytes(s) + tail =~= tail);
        assert(read + s =~= read);
    } else {
        let rest = s.skip(1);
        assert(series_fits(s[0]));
        assert forall|i: int| 0 <= i < rest.len() implies series_fits(#[trigger] rest[i]) by {
            assert(rest[i] == s[i + 1]);
        }
        lemma_series(s[0], all_series_bytes(rest) + tail);
        lemma_all_series(rest, tail, read.push(s[0]));
        assert(all_series_bytes(s) + tail =~= series_bytes(s[0]) + (all_series_bytes(rest) + tail));
        assert(read.push(s[0]) + rest =~= read + s);
    }
}

/// The snapshot of a dump is read as that dump, whatever follows it.
pub proof fn law_snapshot_read_back(d: DumpSpec, tail: Seq<u8>)
    requires
        dump_fits(d),
    ensures
        read_dump(dump_bytes(d) + tail) == Ok::<(DumpSpec, Seq<u8>), SnapshotErrorSpec>((d, tail)),
        dump_bytes(d) + seq![] == dump_bytes(d),
{
    reveal(read_header);
    reveal(read_limited);
    let t5 = all_series_bytes(d.series) + tail;
    let t4 = count_bytes(d.series.len()) + t5;
    let t3 = metas_bytes(d.metas) + t4;
    let t2 = count_bytes(d.metas.len()) + t3;
    let t1 = count_bytes(VERSION as nat) + t2;
    let s = dump_bytes(d) + tail;
    assert(s =~= magic() + t1);
    assert(s.take(4) =~= magic());
    assert(s.skip(4) =~= t1);
    lemma_count(VERSION as nat, MAX_COUNT as nat, "version"@, t2);
    lemma_count(d.metas.len(), MAX_COUNT as nat, "meta count"@, t3);
    lemma_metas(d.metas, t4, seq![]);
    assert(Seq::<(Seq<char>, MetaSpec)>::empty() + d.metas =~= d.metas);
    lemma_count(d.series.len(), MAX_COUNT as nat, "series count"@, t5);
    lemma_all_series(d.series, tail, seq![]);
    assert(Seq::<(Key, Seq<Point>)>::empty() + d.series =~= d.series);
    assert(dump_bytes(d) + seq![] =~= dump_bytes(d));
}

/// What is kept survives a restart: a store that is restored from the snapshot
/// of another one has the same series and metadata, also after both have been
/// pruned.
pub proof fn law_store_survives_restart(
    store: StoreSpec,
    dump: DumpSpec,
    fresh: StoreSpec,
    now: int,
)
    requires
        is_dump_of(dump, store),
        dump_fits(dump),
    ensures
        read_dump(dump_bytes(dump)) matches Ok((read, _)) && ({
            let again = restored(fresh, read);
            &&& again.series == store.series
            &&& again.metas == store.metas
            &&& fresh.retention_ms == store.retention_ms ==> pruned(again, now).series == pruned(
                store,
                now,
            ).series
        }),
{
    law_snapshot_read_back(dump, seq![]);
    law_restore_of_dump(dump, store, fresh);
}

/// What is read of the first `k` bytes agrees with what is read of all: the same
/// value, or that bytes are missing if the value needs more.
spec fn agrees<T>(whole: Read<T>, part: Read<T>, s: Seq<u8>, k: int) -> bool {
    match whole {
        Ok((v, rest)) => {
            let c = s.len() - rest.len();
            &&& 0 <= c
            &&& rest == s.skip(c)
            &&& if k < c {
                part matches Err(SnapshotErrorSpec::Truncated(_))
            } else {
                part == Ok::<(T, Seq<u8>), SnapshotErrorSpec>((v, s.take(k).skip(c)))
            }
        },
        Err(_) => true,
    }
}

/// Slices of slices.
proof fn lemma_slices(s: Seq<u8>, k: int, c: int, d: int)
    requires
        0 <= c <= k <= s.len(),
        0 <= d <= s.len() - c,
    ensures
        s.take(k).skip(c) == s.skip(c).take(k - c),
        s.skip(c).skip(d) == s.skip(c + d),
        d <= k - c ==> s.skip(c).take(k - c).skip(d) == s.take(k).skip(c + d),
{
    assert(s.take(k).skip(c) =~= s.skip(c).take(k - c));
    assert(s.skip(c).skip(d) =~= s.skip(c + d));
    if d <= k - c {
        assert(s.skip(c).take(k - c).skip(d) =~= s.take(k).skip(c + d));
    }
}

proof fn lemma_cut_take(s: Seq<u8>, n: nat, field: Seq<char>, k: int)
    requires
        0 <= k <= s.len(),
    ensures
        agrees(take_bytes(s, n, field), take_bytes(s.take(k), n, field), s, k),
{
    if n <= k {
        assert(s.take(k).take(n as int) =~= s.take(n as int));
    }
}

proof fn lemma_cut_limited(s: Seq<u8>, max: nat, field: Seq<char>, k: int)
    requires
        0 <= k <= s.len(),
    ensures
        agrees(read_u32(s, field), read_u32(s.take(k), field), s, k),
        agrees(read_limited(s, max, field), read_limited(s.take(k), max, field), s, k),
{
    reveal(read_limited);
    lemma_cut_take(s, 4, field, k);
}

proof fn lemma_cut_text(s: Seq<u8>, field: Seq<char>, k: int)
    requires
        0 <= k <= s.len(),
    ensures
        agrees(read_text(s, field), read_text(s.take(k), field), s, k),
        agrees(read_metric_name(s, field), read_metric_name(s.take(k), field), s, k),
{
    reveal(read_text);
    reveal(read_metric_name);
    let max = MAX_STR_LEN as nat;
    lemma_cut_limited(s, max, field, k);
    if let Ok((n, rest)) = read_limited(s, max, field) {
        let c = s.len() - rest.len();
        if k >= c && n <= rest.len() {
            lemma_cut_take(rest, n, field, k - c);
            lemma_slices(s, k, c, n as int);
        }
        if n <= rest.len() {
            lemma_slices(s, s.len() as int, c, n as int);
        }
    }
}

proof fn lemma_cut_meta(s: Seq<u8>, k: int)
    requires
        0 <= k <= s.len(),
    ensures
        agrees(read_meta(s), read_meta(s.take(k)), s, k),
{
    reveal(read_meta);
    let (f1, f2, f3) = ("meta name"@, "meta kind"@, "meta help"@);
    lemma_cut_text(s, f1, k);
    if let Ok((name, r1)) = read_metric_name(s, f1) {
        let c1 = s.len() - r1.len();
        lemma_cut_text(r1, f2, if k >= c1 {
            k - c1
        } else {
            0
        });
        if let Ok((word, r2)) = read_text(r1, f2) {
            let c2 = r1.len() - r2.len();
            lemma_cut_text(r2, f3, if k >= c1 + c2 {
                k - c1 - c2
            } else {
                0
            });
            lemma_slices(s, s.len() as int, c1, c2);
            if k >= c1 {
                lemma_slices(s, k, c1, c2);
            }
            if let Ok((help, r3)) = read_text(r2, f3) {
                let c3 = r2.len() - r3.len();
                lemma_slices(s, s.len() as int, c1 + c2, c3);
                if k >= c1 + c2 {
                    lemma_slices(s, k, c1 + c2, c3);
                }
            }
        }
    }
}

proof fn lemma_cut_metas(s: Seq<u8>, n: nat, read: Seq<(Seq<char>, MetaSpec)>, k: int)
    requires
        0 <= k <= s.len(),
    ensures
        agrees(read_metas(s, n, read), read_metas(s.take(k), n, read), s, k),
    decreases n,
{
    if n == 0 {
        assert(s.skip(0) =~= s);
        assert(s.take(k).skip(0) =~= s.take(k));
    } else {
        lemma_cut_meta(s, k);
        if let Ok((m, r1)) = read_meta(s) {
            let c1 = s.len() - r1.len();
            let j = if k >= c1 {
                k - c1
            } else {
                0
            };
            lemma_cut_metas(r1, (n - 1) as nat, read.push(m), j);
            if let Ok((v, r2)) = read_metas(r1, (n - 1) as nat, read.push(m)) {
                let c2 = r1.len() - r2.len();
                lemma_slices(s, s.len() as int, c1, c2);
                if k >= c1 {
                    lemma_slices(s, k, c1, c2);
                }
            }
        }
    }
}

proof fn lemma_cut_pair(s: Seq<u8>, k: int)
    requires
        0 <= k <= s.len(),
    ensures
        agrees(read_pair(s), read_pair(s.take(k)), s, k),
{
    reveal(read_pair);
    let (f1, f2) = ("label name"@, "label value"@);
    lemma_cut_text(s, f1, k);
    if let Ok((name, r1)) = read_text(s, f1) {
        let c1 = s.len() - r1.len();
        lemma_cut_text(r1, f2, if k >= c1 {
            k - c1
        } else {
            0
        });
        if let Ok((value, r2)) = read_text(r1, f2) {
            let c2 = r1.len() - r2.len();
            lemma_slices(s, s.len() as int, c1, c2);
            if k >= c1 {
                lemma_slices(s, k, c1, c2);
            }
        }
    }
}

proof fn lemma_cut_pairs(s: Seq<u8>, n: nat, read: LabelPairs, k: int)
    requires
        0 <= k <= s.len(),
    ensures
        agrees(read_pairs(s, n, read), read_pairs(s.take(k), n, read), s, k),
    decreases n,
{
    if n == 0 {
        assert(s.skip(0) =~= s);
        assert(s.take(k).skip(0) =~= s.take(k));
    } else {
        lemma_cut_pair(s, k);
        if let Ok((m, r1)) = read_pair(s) {
            let c1 = s.len() - r1.len();
            let j = if k >= c1 {
                k - c1
            } else {
                0
            };
            lemma_cut_pairs(r1, (n - 1) as nat, read.push(m), j);
            if let Ok((v, r2)) = read_pairs(r1, (n - 1) as nat, read.push(m)) {
                let c2 = r1.len() - r2.len();
                lemma_slices(s, s.len() as int, c1, c2);
                if k >= c1 {
                    lemma_slices(s, k, c1, c2);
                }
            }
        }
    }
}

proof fn lemma_cut_point(s: Seq<u8>, k: int)
    requires
        0 <= k <= s.len(),
    ensures
        agrees(read_point(s), read_point(s.take(k)), s, k),
{
    reveal(read_point);
    let (f1, f2) = ("sample ts"@, "sample value"@);
    lemma_cut_take(s, 8, f1, k);
    if let Ok((a, r1)) = take_bytes(s, 8, f1) {
        let c1 = s.len() - r1.len();
        lemma_cut_take(r1, 8, f2, if k >= c1 {
            k - c1
        } else {
            0
        });
        if let Ok((b, r2)) = take_bytes(r1, 8, f2) {
            let c2 = r1.len() - r2.len();
            lemma_slices(s, s.len() as int, c1, c2);
            if k >= c1 {
                lemma_slices(s, k, c1, c2);
            }
        }
    }
}

proof fn lemma_cut_points(s: Seq<u8>, n: nat, read: Seq<Point>, k: int)
    requires
        0 <= k <= s.len(),
    ensures
        agrees(read_points(s, n, read), read_points(s.take(k), n, read), s, k),
    decreases n,
{
    if n == 0 {
        assert(s.skip(0) =~= s);
        assert(s.take(k).skip(0) =~= s.take(k));
    } else {
        lemma_cut_point(s, k);
        if let Ok((m, r1)) = read_point(s) {
            let c1 = s.len() - r1.len();
            let j = if k >= c1 {
                k - c1
            } else {
                0
            };
            lemma_cut_points(r1, (n - 1) as nat, read.push(m), j);
            if let Ok((v, r2)) = read_points(r1, (n - 1) as nat, read.push(m)) {
                let c2 = r1.len() - r2.len();
                lemma_slices(s, s.len() as int, c1, c2);
                if k >= c1 {
                    lemma_slices(s, k, c1, c2);
                }
            }
        }
    }
}

proof fn lemma_cut_label_set(s: Seq<u8>, k: int)
    requires
        0 <= k <= s.len(),
    ensures
        agrees(read_label_set(s), read_label_set(s.take(k)), s, k),
{
    reveal(read_label_set);
    let f = "label count"@;
    lemma_cut_limited(s, MAX_COUNT as nat, f, k);
    if let Ok((n, r1)) = read_limited(s, MAX_COUNT as nat, f) {
        let c1 = s.len() - r1.len();
        let j = if k >= c1 {
            k - c1
        } else {
            0
        };
        lemma_cut_pairs(r1, n, seq![], j);
        if let Ok((v, r2)) = read_pairs(r1, n, seq![]) {
            let c2 = r1.len() - r2.len();
            lemma_slices(s, s.len() as int, c1, c2);
            if k >= c1 {
                lemma_slices(s, k, c1, c2);
            }
        }
    }
}

proof fn lemma_cut_counted_points(s: Seq<u8>, k: int)
    requires
        0 <= k <= s.len(),
    ensures
        agrees(counted_points(s), counted_points(s.take(k)), s, k),
{
    let f = "sample count"@;
    lemma_cut_limited(s, MAX_COUNT as nat, f, k);
    if let Ok((n, r1)) = read_limited(s, MAX_COUNT as nat, f) {
        let c1 = s.len() - r1.len();
        let j = if k >= c1 {
            k - c1
        } else {
            0
        };
        lemma_cut_points(r1, n, seq![], j);
        if let Ok((v, r2)) = read_points(r1, n, seq![]) {
            let c2 = r1.len() - r2.len();
            lemma_slices(s, s.len() as int, c1, c2);
            if k >= c1 {
                lemma_slices(s, k, c1, c2);
            }
        }
    }
}

spec fn counted_points(s: Seq<u8>) -> Read<Seq<Point>> {
    match read_limited(s, MAX_COUNT as nat, "sample count"@) {
        Err(e) => Err(e),
        Ok((n, rest)) => read_points(rest, n, seq![]),
    }
}

proof fn lemma_cut_series(s: Seq<u8>, k: int)
    requires
        0 <= k <= s.len(),
    ensures
        agrees(read_series(s), read_series(s.take(k)), s, k),
{
    reveal(read_series);
    let f = "series name"@;
    lemma_cut_text(s, f, k);
    if let Ok((name, r1)) = read_metric_name(s, f) {
        let c1 = s.len() - r1.len();
        lemma_cut_label_set(r1, if k >= c1 {
            k - c1
        } else {
            0
        });
        if let Ok((labels, r2)) = read_label_set(r1) {
            let c2 = r1.len() - r2.len();
            lemma_slices(s, s.len() as int, c1, c2);
            if k >= c1 {
                lemma_slices(s, k, c1, c2);
            }
            lemma_cut_counted_points(r2, if k >= c1 + c2 {
                k - c1 - c2
            } else {
                0
            });
            if let Ok((v, r3)) = counted_points(r2) {
                let c3 = r2.len() - r3.len();
                lemma_slices(s, s.len() as int, c1 + c2, c3);
                if k >= c1 + c2 {
                    lemma_slices(s, k, c1 + c2, c3);
                }
            }
        }
    }
}

proof fn lemma_cut_all_series(s: Seq<u8>, n: nat, read: Seq<(Key, Seq<Point>)>, k: int)
    requires
        0 <= k <= s.len(),
    ensures
        agrees(read_all_series(s, n, read), read_all_series(s.take(k), n, read), s, k),
    decreases n,
{
    if n == 0 {
        assert(s.skip(0) =~= s);
        assert(s.take(k).skip(0) =~= s.take(k));
    } else {
        lemma_cut_series(s, k);
        if let Ok((m, r1)) = read_series(s) {
            let c1 = s.len() - r1.len();
            let j = if k >= c1 {
                k - c1
            } else {
                0
            };
            lemma_cut_all_series(r1, (n - 1) as nat, read.push(m), j);
            if let Ok((v, r2)) = read_all_series(r1, (n - 1) as nat, read.push(m)) {
                let c2 = r1.len() - r2.len();
                lemma_slices(s, s.len() as int, c1, c2);
                if k >= c1 {
                    lemma_slices(s, k, c1, c2);
                }
            }
        }
    }
}

spec fn counted_metas(s: Seq<u8>) -> Read<Seq<(Seq<char>, MetaSpec)>> {
    match read_limited(s, MAX_COUNT as nat, "meta count"@) {
        Err(e) => Err(e),
        Ok((n, rest)) => read_metas(rest, n, seq![]),
    }
}

spec fn counted_series(s: Seq<u8>) -> Read<Seq<(Key, Seq<Point>)>> {
    match read_limited(s, MAX_COUNT as nat, "series count"@) {
        Err(e) => Err(e),
        Ok((n, rest)) => read_all_series(rest, n, seq![]),
    }
}

proof fn lemma_cut_counted(s: Seq<u8>, k: int)
    requires
        0 <= k <= s.len(),
    ensures
        agrees(counted_metas(s), counted_metas(s.take(k)), s, k),
        agrees(counted_series(s), counted_series(s.take(k)), s, k),
{
    let (f1, f2) = ("meta count"@, "series count"@);
    lemma_cut_limited(s, MAX_COUNT as nat, f1, k);
    lemma_cut_limited(s, MAX_COUNT as nat, f2, k);
    if let Ok((n, r1)) = read_limited(s, MAX_COUNT as nat, f1) {
        let c1 = s.len() - r1.len();
        let j = if k >= c1 {
            k - c1
        } else {
            0
        };
        lemma_cut_metas(r1, n, seq![], j);
        if let Ok((v, r2)) = read_metas(r1, n, seq![]) {
            let c2 = r1.len() - r2.len();
            lemma_slices(s, s.len() as int, c1, c2);
            if k >= c1 {
                lemma_slices(s, k, c1, c2);
            }
        }
    }
    if let Ok((n, r1)) = read_limited(s, MAX_COUNT as nat, f2) {
        let c1 = s.len() - r1.len();
        let j = if k >= c1 {
            k - c1
        } else {
            0
        };
        lemma_cut_all_series(r1, n, seq![], j);
        if let Ok((v, r2)) = read_all_series(r1, n, seq![]) {
            let c2 = r1.len() - r2.len();
            lemma_slices(s, s.len() as int, c1, c2);
            if k >= c1 {
                lemma_slices(s, k, c1, c2);
            }
        }
    }
}

proof fn lemma_cut_header(s: Seq<u8>, k: int)
    requires
        0 <= k <= s.len(),
    ensures
        agrees(read_header(s), read_header(s.take(k)), s, k),
{
    reveal(read_header);
    let (f1, f2) = ("magic"@, "version"@);
    lemma_cut_take(s, 4, f1, k);
    if let Ok((b, r1)) = take_bytes(s, 4, f1) {
        let c1 = s.len() - r1.len();
        lemma_cut_limited(r1, 0, f2, if k >= c1 {
            k - c1
        } else {
            0
        });
        if let Ok((v, r2)) = read_u32(r1, f2) {
            let c2 = r1.len() - r2.len();
            lemma_slices(s, s.len() as int, c1, c2);
            if k >= c1 {
                lemma_slices(s, k, c1, c2);
            }
        }
    }
}

proof fn lemma_cut_dump(s: Seq<u8>, k: int)
    requires
        0 <= k <= s.len(),
    ensures
        agrees(read_dump(s), read_dump(s.take(k)), s, k),
{
    lemma_cut_header(s, k);
    if let Ok((_, r1)) = read_header(s) {
        let c1 = s.len() - r1.len();
        lemma_cut_counted(r1, if k >= c1 {
            k - c1
        } else {
            0
        });
        if let Ok((metas, r2)) = counted_metas(r1) {
            let c2 = r1.len() - r2.len();
            lemma_slices(s, s.len() as int, c1, c2);
            if k >= c1 {
                lemma_slices(s, k, c1, c2);
            }
            lemma_cut_counted(r2, if k >= c1 + c2 {
                k - c1 - c2
            } else {
                0
            });
            if let Ok((v, r3)) = counted_series(r2) {
                let c3 = r2.len() - r3.len();
                lemma_slices(s, s.len() as int, c1 + c2, c3);
                if k >= c1 + c2 {
                    lemma_slices(s, k, c1 + c2, c3);
                }
            }
        }
    }
}

/// Bytes that end within a snapshot are refused as truncated.
pub proof fn law_cut_snapshot_is_truncated(s: Seq<u8>, k: int)
    requires
        read_dump(s) matches Ok((d, rest)) && 0 <= k < s.len() - rest.len(),
    ensures
        read_dump(s.take(k)) matches Err(SnapshotErrorSpec::Truncated(_)),
{
    lemma_cut_dump(s, k);
}

} // verus!
