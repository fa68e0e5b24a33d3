//! Binary snapshots: `RMX1` + version, length-prefixed records.

use vstd::arithmetic::power2::{
    lemma2_to64, lemma2_to64_rest, lemma_pow2_adds, lemma_pow2_strictly_increases, pow2,
};
use vstd::prelude::*;
use vstd::slice::{slice_subrange, slice_to_vec};
use vstd::utf8::{decode_utf8, encode_utf8, valid_utf8};

use crate::model::{
    is_label_name, is_metric_name, kind_of, kind_text, labels_of, least_duplicate, lemma_labels_of,
    lemma_least_duplicate, names_distinct, pair_views, Key, LabelName, LabelPairs, LabelValue,
    Labels, MetaSpec, MetricKind, MetricMeta, MetricName, Point, Sample, SeriesKey, TimestampMs,
    MAX_TIMESTAMP_MS,
};
use crate::numeral::{as_signed, int_text, push_signed, push_unsigned, to_signed};
use crate::storage::{empty_dump, points, series_views, DumpSpec, StoreDump};
use crate::text::{debug_text, string_from_utf8, to_chars};
use crate::textfmt::meta_views;

verus! {

pub const VERSION: u32 = 1;

/// The longest text that is read, in bytes.
pub const MAX_STR_LEN: u32 = 0x10_0000;

/// The greatest number of records that is read.
pub const MAX_COUNT: u32 = 0x100_0000;

pub open spec fn magic() -> Seq<u8> {
    seq![0x52u8, 0x4du8, 0x58u8, 0x31u8]
}

/// The little-endian bytes of a number.
pub open spec fn le_bytes(v: nat, width: nat) -> Seq<u8>
    decreases width,
{
    if width == 0 {
        seq![]
    } else {
        seq![(v % 256) as u8] + le_bytes(v / 256, (width - 1) as nat)
    }
}

/// The number with the given little-endian bytes.
pub open spec fn le_value(s: Seq<u8>) -> nat
    decreases s.len(),
{
    if s.len() == 0 {
        0
    } else {
        s[0] as nat + 256 * le_value(s.skip(1))
    }
}

/// A length or count, in 32 bits.
#[verifier::opaque]
pub open spec fn count_bytes(n: nat) -> Seq<u8> {
    le_bytes(n % 0x1_0000_0000, 4)
}

#[verifier::opaque]
pub open spec fn text_bytes(s: Seq<char>) -> Seq<u8> {
    count_bytes(encode_utf8(s).len()) + encode_utf8(s)
}

#[verifier::opaque]
pub open spec fn meta_bytes(m: (Seq<char>, MetaSpec)) -> Seq<u8> {
    text_bytes(m.0) + text_bytes(kind_text(m.1.kind)) + text_bytes(m.1.help)
}

pub open spec fn metas_bytes(s: Seq<(Seq<char>, MetaSpec)>) -> Seq<u8>
    decreases s.len(),
{
    if s.len() == 0 {
        seq![]
    } else {
        meta_bytes(s[0]) + metas_bytes(s.skip(1))
    }
}

pub open spec fn pairs_bytes(s: LabelPairs) -> Seq<u8>
    decreases s.len(),
{
    if s.len() == 0 {
        seq![]
    } else {
        text_bytes(s[0].0) + text_bytes(s[0].1) + pairs_bytes(s.skip(1))
    }
}

#[verifier::opaque]
pub open spec fn point_bytes(p: Point) -> Seq<u8> {
    le_bytes(p.ts as nat, 8) + le_bytes(p.value as nat, 8)
}

pub open spec fn points_bytes(s: Seq<Point>) -> Seq<u8>
    decreases s.len(),
{
    if s.len() == 0 {
        seq![]
    } else {
        point_bytes(s[0]) + points_bytes(s.skip(1))
    }
}

#[verifier::opaque]
pub open spec fn series_bytes(e: (Key, Seq<Point>)) -> Seq<u8> {
    text_bytes(e.0.0) + count_bytes(e.0.1.len()) + pairs_bytes(e.0.1) + count_bytes(e.1.len())
        + points_bytes(e.1)
}

pub open spec fn all_series_bytes(s: Seq<(Key, Seq<Point>)>) -> Seq<u8>
    decreases s.len(),
{
    if s.len() == 0 {
        seq![]
    } else {
        series_bytes(s[0]) + all_series_bytes(s.skip(1))
    }
}

/// The snapshot of a dump.
pub open spec fn dump_bytes(d: DumpSpec) -> Seq<u8> {
    magic() + count_bytes(VERSION as nat) + count_bytes(d.metas.len()) + metas_bytes(d.metas)
        + count_bytes(d.series.len()) + all_series_bytes(d.series)
}

fn put_le(buf: &mut Vec<u8>, v: u64, width: u8)
    ensures
        final(buf)@ == old(buf)@ + le_bytes(v as nat, width as nat),
{
    let ghost start = buf@;
    let ghost whole = le_bytes(v as nat, width as nat);
    let mut rest: u64 = v;
    let mut i: u8 = 0;
    while i < width
        invariant
            i <= width,
            buf@ + le_bytes(rest as nat, (width - i) as nat) == start + whole,
        decreases width - i,
    {
        let ghost before = buf@;
        buf.push((rest % 256) as u8);
        assert(before + le_bytes(rest as nat, (width - i) as nat) =~= buf@ + le_bytes(
            rest as nat / 256,
            (width - i - 1) as nat,
        ));
        rest = rest / 256;
        i += 1;
    }
    assert(buf@ + le_bytes(rest as nat, 0) =~= buf@);
}

fn put_u32(buf: &mut Vec<u8>, v: u32)
    ensures
        final(buf)@ == old(buf)@ + le_bytes(v as nat, 4),
{
    put_le(buf, v as u64, 4);
}

fn put_count(buf: &mut Vec<u8>, n: usize)
    ensures
        final(buf)@ == old(buf)@ + count_bytes(n as nat),
{
    proof {
        reveal(count_bytes);
    }
    put_u32(buf, (n as u64 % 0x1_0000_0000) as u32);
}

fn put_bytes(buf: &mut Vec<u8>, s: &[u8])
    ensures
        final(buf)@ == old(buf)@ + s@,
{
    let ghost start = buf@;
    for i in 0..s.len()
        invariant
            buf@ == start + s@.take(i as int),
    {
        buf.push(s[i]);
        assert(s@.take(i + 1) =~= s@.take(i as int).push(s@[i as int]));
    }
    assert(s@.take(s@.len() as int) =~= s@);
}

fn put_str(buf: &mut Vec<u8>, s: &str)
    ensures
        final(buf)@ == old(buf)@ + text_bytes(s@),
{
    proof {
        reveal(text_bytes);
    }
    let ghost start = buf@;
    let bytes = s.as_bytes();
    put_count(buf, bytes.len());
    put_bytes(buf, bytes);
    assert(buf@ =~= start + text_bytes(s@));
}

fn put_metas(buf: &mut Vec<u8>, metas: &[(MetricName, MetricMeta)])
    ensures
        final(buf)@ == old(buf)@ + metas_bytes(meta_views(metas@)),
{
    let ghost start = buf@;
    let ghost all = meta_views(metas@);
    assert(all.skip(0) =~= all);
    for i in 0..metas.len()
        invariant
            all == meta_views(metas@),
            buf@ + metas_bytes(all.skip(i as int)) == start + metas_bytes(all),
    {
        let ghost before = buf@;
        let ghost rest = all.skip(i as int);
        let (name, meta) = &metas[i];
        assert(rest[0] == (name@, meta@));
        assert(rest.skip(1) =~= all.skip(i + 1));
        put_str(buf, name.as_str());
        put_str(buf, meta.kind.as_str());
        put_str(buf, meta.help.as_str());
        assert(buf@ + metas_bytes(rest.skip(1)) =~= before + metas_bytes(rest)) by {
            reveal(meta_bytes);
        }
    }
    assert(all.skip(metas@.len() as int) =~= seq![]);
    assert(buf@ + seq![] =~= buf@);
}

fn put_pairs(buf: &mut Vec<u8>, labels: &Labels)
    ensures
        final(buf)@ == old(buf)@ + pairs_bytes(labels@),
{
    let ghost start = buf@;
    let ghost all = labels@;
    let n = labels.len();
    assert(all.skip(0) =~= all);
    for i in 0..n
        invariant
            all == labels@,
            n == all.len(),
            buf@ + pairs_bytes(all.skip(i as int)) == start + pairs_bytes(all),
    {
        let ghost before = buf@;
        let ghost rest = all.skip(i as int);
        assert(rest.skip(1) =~= all.skip(i + 1));
        put_str(buf, labels.name_at(i).as_str());
        put_str(buf, labels.value_at(i).as_str());
        assert(buf@ + pairs_bytes(rest.skip(1)) =~= before + pairs_bytes(rest));
    }
    assert(all.skip(n as int) =~= seq![]);
    assert(buf@ + seq![] =~= buf@);
}

fn put_samples(buf: &mut Vec<u8>, samples: &[Sample])
    ensures
        final(buf)@ == old(buf)@ + points_bytes(points(samples@)),
{
    let ghost start = buf@;
    let ghost all = points(samples@);
    assert(all.skip(0) =~= all);
    for i in 0..samples.len()
        invariant
            all == points(samples@),
            buf@ + points_bytes(all.skip(i as int)) == start + points_bytes(all),
    {
        let ghost before = buf@;
        let ghost rest = all.skip(i as int);
        let s = samples[i];
        assert(rest[0] == s@);
        assert(rest.skip(1) =~= all.skip(i + 1));
        put_le(buf, s.ts.as_millis() as u64, 8);
        put_le(buf, s.value, 8);
        assert(buf@ + points_bytes(rest.skip(1)) =~= before + points_bytes(rest)) by {
            reveal(point_bytes);
        }
    }
    assert(all.skip(samples@.len() as int) =~= seq![]);
    assert(buf@ + seq![] =~= buf@);
}

pub fn encode(dump: &StoreDump) -> (r: Vec<u8>)
    ensures
        r@ == dump_bytes(dump@),
{
    proof {
        reveal(count_bytes);
    }
    let mut buf: Vec<u8> = Vec::new();
    buf.push(0x52);
    buf.push(0x4d);
    buf.push(0x58);
    buf.push(0x31);
    assert(buf@ =~= magic());
    put_u32(&mut buf, VERSION);
    put_count(&mut buf, dump.metas.len());
    put_metas(&mut buf, dump.metas.as_slice());
    put_count(&mut buf, dump.series.len());
    let ghost start = buf@;
    let ghost all = series_views(dump.series@);
    assert(all.skip(0) =~= all);
    for i in 0..dump.series.len()
        invariant
            all == series_views(dump.series@),
            buf@ + all_series_bytes(all.skip(i as int)) == start + all_series_bytes(all),
    {
        let ghost before = buf@;
        let ghost rest = all.skip(i as int);
        let (key, samples) = &dump.series[i];
        assert(rest[0] == (key@, points(samples@)));
        assert(rest.skip(1) =~= all.skip(i + 1));
        put_str(&mut buf, key.name.as_str());
        put_count(&mut buf, key.labels.len());
        put_pairs(&mut buf, &key.labels);
        put_count(&mut buf, samples.len());
        put_samples(&mut buf, samples.as_slice());
        assert(buf@ + all_series_bytes(rest.skip(1)) =~= before + all_series_bytes(rest)) by {
            reveal(series_bytes);
        }
    }
    assert(all.skip(dump.series@.len() as int) =~= seq![]);
    assert(buf@ + seq![] =~= buf@);
    assert(buf@ =~= dump_bytes(dump@));
    buf
}

/// Why bytes are no snapshot.
pub enum SnapshotErrorSpec {
    Io(Seq<char>),
    BadMagic,
    UnsupportedVersion(nat),
    Truncated(Seq<char>),
    FieldTooLarge(Seq<char>, nat),
    InvalidUtf8(Seq<char>),
    InvalidField(Seq<char>, Seq<char>),
}

/// A value read from the front of the bytes, and the bytes behind it.
pub type Read<T> = Result<(T, Seq<u8>), SnapshotErrorSpec>;

/// The first `n` bytes.
pub open spec fn take_bytes(s: Seq<u8>, n: nat, field: Seq<char>) -> Read<Seq<u8>> {
    if n > s.len() {
        Err(SnapshotErrorSpec::Truncated(field))
    } else {
        Ok((s.take(n as int), s.skip(n as int)))
    }
}

pub open spec fn read_u32(s: Seq<u8>, field: Seq<char>) -> Read<nat> {
    match take_bytes(s, 4, field) {
        Ok((b, rest)) => Ok((le_value(b), rest)),
        Err(e) => Err(e),
    }
}

#[verifier::opaque]
pub open spec fn read_limited(s: Seq<u8>, max: nat, field: Seq<char>) -> Read<nat> {
    match read_u32(s, field) {
        Ok((n, rest)) => if n > max {
            Err(SnapshotErrorSpec::FieldTooLarge(field, n))
        } else {
            Ok((n, rest))
        },
        Err(e) => Err(e),
    }
}

#[verifier::opaque]
pub open spec fn read_text(s: Seq<u8>, field: Seq<char>) -> Read<Seq<char>> {
    match read_limited(s, MAX_STR_LEN as nat, field) {
        Err(e) => Err(e),
        Ok((n, rest)) => match take_bytes(rest, n, field) {
            Err(e) => Err(e),
            Ok((b, rest)) => if valid_utf8(b) {
                Ok((decode_utf8(b), rest))
            } else {
                Err(SnapshotErrorSpec::InvalidUtf8(field))
            },
        },
    }
}

#[verifier::opaque]
pub open spec fn read_metric_name(s: Seq<u8>, field: Seq<char>) -> Read<Seq<char>> {
    match read_text(s, field) {
        Err(e) => Err(e),
        Ok((name, rest)) => if is_metric_name(name) {
            Ok((name, rest))
        } else {
            Err(SnapshotErrorSpec::InvalidField(field, name))
        },
    }
}

#[verifier::opaque]
pub open spec fn read_meta(s: Seq<u8>) -> Read<(Seq<char>, MetaSpec)> {
    match read_metric_name(s, "meta name"@) {
        Err(e) => Err(e),
        Ok((name, rest)) => match read_text(rest, "meta kind"@) {
            Err(e) => Err(e),
            Ok((word, rest)) => match kind_of(word) {
                None => Err(SnapshotErrorSpec::InvalidField("meta kind"@, word)),
                Some(kind) => match read_text(rest, "meta help"@) {
                    Err(e) => Err(e),
                    Ok((help, rest)) => Ok(((name, MetaSpec { kind, help }), rest)),
                },
            },
        },
    }
}

/// `n` metadata records, behind those already read.
pub open spec fn read_metas(s: Seq<u8>, n: nat, read: Seq<(Seq<char>, MetaSpec)>) -> Read<
    Seq<(Seq<char>, MetaSpec)>,
>
    decreases n,
{
    if n == 0 {
        Ok((read, s))
    } else {
        match read_meta(s) {
            Err(e) => Err(e),
            Ok((m, rest)) => read_metas(rest, (n - 1) as nat, read.push(m)),
        }
    }
}

#[verifier::opaque]
pub open spec fn read_pair(s: Seq<u8>) -> Read<(Seq<char>, Seq<char>)> {
    match read_text(s, "label name"@) {
        Err(e) => Err(e),
        Ok((name, rest)) => if !is_label_name(name) {
            Err(SnapshotErrorSpec::InvalidField("label name"@, name))
        } else {
            match read_text(rest, "label value"@) {
                Err(e) => Err(e),
                Ok((value, rest)) => Ok(((name, value), rest)),
            }
        },
    }
}

pub open spec fn read_pairs(s: Seq<u8>, n: nat, read: LabelPairs) -> Read<LabelPairs>
    decreases n,
{
    if n == 0 {
        Ok((read, s))
    } else {
        match read_pair(s) {
            Err(e) => Err(e),
            Ok((p, rest)) => read_pairs(rest, (n - 1) as nat, read.push(p)),
        }
    }
}

#[verifier::opaque]
pub open spec fn read_point(s: Seq<u8>) -> Read<Point> {
    match take_bytes(s, 8, "sample ts"@) {
        Err(e) => Err(e),
        Ok((a, rest)) => match take_bytes(rest, 8, "sample value"@) {
            Err(e) => Err(e),
            Ok((b, rest)) => {
                let ts = as_signed(le_value(a));
                if 0 <= ts <= MAX_TIMESTAMP_MS {
                    Ok((Point { ts, value: le_value(b) as u64 }, rest))
                } else {
                    Err(SnapshotErrorSpec::InvalidField("sample ts"@, int_text(ts)))
                }
            },
        },
    }
}

pub open spec fn read_points(s: Seq<u8>, n: nat, read: Seq<Point>) -> Read<Seq<Point>>
    decreases n,
{
    if n == 0 {
        Ok((read, s))
    } else {
        match read_point(s) {
            Err(e) => Err(e),
            Ok((p, rest)) => read_points(rest, (n - 1) as nat, read.push(p)),
        }
    }
}

#[verifier::opaque]
pub open spec fn read_label_set(s: Seq<u8>) -> Read<LabelPairs> {
    match read_limited(s, MAX_COUNT as nat, "label count"@) {
        Err(e) => Err(e),
        Ok((n, rest)) => match read_pairs(rest, n, seq![]) {
            Err(e) => Err(e),
            Ok((pairs, rest)) => if names_distinct(pairs) {
                Ok((labels_of(pairs), rest))
            } else {
                Err(
                    SnapshotErrorSpec::InvalidField(
                        "labels"@,
                        "Labels: duplicate label name "@ + debug_text(least_duplicate(pairs)),
                    ),
                )
            },
        },
    }
}

#[verifier::opaque]
pub open spec fn read_series(s: Seq<u8>) -> Read<(Key, Seq<Point>)> {
    match read_metric_name(s, "series name"@) {
        Err(e) => Err(e),
        Ok((name, rest)) => match read_label_set(rest) {
            Err(e) => Err(e),
            Ok((labels, rest)) => match read_limited(rest, MAX_COUNT as nat, "sample count"@) {
                Err(e) => Err(e),
                Ok((n, rest)) => match read_points(rest, n, seq![]) {
                    Err(e) => Err(e),
                    Ok((points, rest)) => Ok((((name, labels), points), rest)),
                },
            },
        },
    }
}

pub open spec fn read_all_series(s: Seq<u8>, n: nat, read: Seq<(Key, Seq<Point>)>) -> Read<
    Seq<(Key, Seq<Point>)>,
>
    decreases n,
{
    if n == 0 {
        Ok((read, s))
    } else {
        match read_series(s) {
            Err(e) => Err(e),
            Ok((e, rest)) => read_all_series(rest, (n - 1) as nat, read.push(e)),
        }
    }
}

#[verifier::opaque]
pub open spec fn read_header(s: Seq<u8>) -> Read<()> {
    match take_bytes(s, 4, "magic"@) {
        Err(e) => Err(e),
        Ok((b, rest)) => if b != magic() {
            Err(SnapshotErrorSpec::BadMagic)
        } else {
            match read_u32(rest, "version"@) {
                Err(e) => Err(e),
                Ok((v, rest)) => if v != VERSION {
                    Err(SnapshotErrorSpec::UnsupportedVersion(v))
                } else {
                    Ok(((), rest))
                },
            }
        },
    }
}

/// The dump at the front of the bytes, and what follows it.
pub open spec fn read_dump(s: Seq<u8>) -> Read<DumpSpec> {
    match read_header(s) {
        Err(e) => Err(e),
        Ok((_, rest)) => match read_limited(rest, MAX_COUNT as nat, "meta count"@) {
            Err(e) => Err(e),
            Ok((m, rest)) => match read_metas(rest, m, seq![]) {
                Err(e) => Err(e),
                Ok((metas, rest)) => match read_limited(
                    rest,
                    MAX_COUNT as nat,
                    "series count"@,
                ) {
                    Err(e) => Err(e),
                    Ok((n, rest)) => match read_all_series(rest, n, seq![]) {
                        Err(e) => Err(e),
                        Ok((series, rest)) => Ok((DumpSpec { series, metas }, rest)),
                    },
                },
            },
        },
    }
}

/// Why a snapshot cannot be read or written.
#[derive(Debug)]
pub enum SnapshotError {
    Io(String),
    BadMagic,
    UnsupportedVersion(u32),
    Truncated(&'static str),
    FieldTooLarge(&'static str, u32),
    InvalidUtf8(&'static str),
    InvalidField(&'static str, String),
}

impl View for SnapshotError {
    type V = SnapshotErrorSpec;

    open spec fn view(&self) -> SnapshotErrorSpec {
        match self {
            SnapshotError::Io(s) => SnapshotErrorSpec::Io(s@),
            SnapshotError::BadMagic => SnapshotErrorSpec::BadMagic,
            SnapshotError::UnsupportedVersion(v) => SnapshotErrorSpec::UnsupportedVersion(
                *v as nat,
            ),
            SnapshotError::Truncated(f) => SnapshotErrorSpec::Truncated(f@),
            SnapshotError::FieldTooLarge(f, n) => SnapshotErrorSpec::FieldTooLarge(f@, *n as nat),
            SnapshotError::InvalidUtf8(f) => SnapshotErrorSpec::InvalidUtf8(f@),
            SnapshotError::InvalidField(f, v) => SnapshotErrorSpec::InvalidField(f@, v@),
        }
    }
}

/// The text of an error.
pub open spec fn snapshot_error_text(e: SnapshotErrorSpec) -> Seq<char> {
    match e {
        SnapshotErrorSpec::Io(s) => "snapshot: io error: "@ + s,
        SnapshotErrorSpec::BadMagic => "snapshot: bad magic header"@,
        SnapshotErrorSpec::UnsupportedVersion(v) => "snapshot: unsupported version "@ + int_text(
            v as int,
        ),
        SnapshotErrorSpec::Truncated(f) => "snapshot: truncated while reading "@ + f,
        SnapshotErrorSpec::FieldTooLarge(f, n) => "snapshot: field "@ + f + " too large ("@
            + int_text(n as int) + ")"@,
        SnapshotErrorSpec::InvalidUtf8(f) => "snapshot: field "@ + f + " is not valid UTF-8"@,
        SnapshotErrorSpec::InvalidField(f, v) => "snapshot: field "@ + f + " invalid: "@ + v,
    }
}

impl SnapshotError {
    pub fn message(&self) -> (r: String)
        ensures
            r@ == snapshot_error_text(self@),
    {
        let mut out = String::new();
        match self {
            SnapshotError::Io(s) => {
                out.append("snapshot: io error: ");
                out.append(s.as_str());
            },
            SnapshotError::BadMagic => {
                out.append("snapshot: bad magic header");
            },
            SnapshotError::UnsupportedVersion(v) => {
                out.append("snapshot: unsupported version ");
                push_unsigned(&mut out, *v as u64);
            },
            SnapshotError::Truncated(f) => {
                out.append("snapshot: truncated while reading ");
                out.append(f);
            },
            SnapshotError::FieldTooLarge(f, n) => {
                out.append("snapshot: field ");
                out.append(f);
                out.append(" too large (");
                push_unsigned(&mut out, *n as u64);
                out.append(")");
            },
            SnapshotError::InvalidUtf8(f) => {
                out.append("snapshot: field ");
                out.append(f);
                out.append(" is not valid UTF-8");
            },
            SnapshotError::InvalidField(f, v) => {
                out.append("snapshot: field ");
                out.append(f);
                out.append(" invalid: ");
                out.append(v.as_str());
            },
        }
        assert(out@ =~= snapshot_error_text(self@));
        out
    }
}

pub proof fn lemma_le_value_bound(s: Seq<u8>)
    ensures
        le_value(s) < pow2(8 * s.len()),
    decreases s.len(),
{
    lemma2_to64();
    if s.len() > 0 {
        lemma_le_value_bound(s.skip(1));
        lemma_pow2_adds(8, (8 * (s.len() - 1)) as nat);
    }
}

/// The number with the given little-endian bytes.
fn le_number(s: &[u8]) -> (r: u64)
    requires
        s@.len() <= 8,
    ensures
        r == le_value(s@),
{
    let mut v: u64 = 0;
    let mut i: usize = s.len();
    assert(s@.skip(i as int) =~= seq![]);
    while i > 0
        invariant
            i <= s@.len() <= 8,
            v == le_value(s@.skip(i as int)),
        decreases i,
    {
        i -= 1;
        proof {
            let t = s@.skip(i as int);
            assert(t.skip(1) =~= s@.skip(i + 1));
            assert(t[0] == s@[i as int]);
            lemma_le_value_bound(t);
            lemma2_to64();
            lemma2_to64_rest();
            if t.len() < 8 {
                lemma_pow2_strictly_increases(8 * t.len(), 64);
            }
        }
        v = v * 256 + s[i] as u64;
    }
    assert(s@.skip(0) =~= s@);
    v
}

fn take<'a>(s: &'a [u8], n: usize, field: &'static str) -> (r: Result<
    (&'a [u8], &'a [u8]),
    SnapshotError,
>)
    ensures
        match take_bytes(s@, n as nat, field@) {
            Ok((b, rest)) => r matches Ok((x, t)) && x@ == b && t@ == rest,
            Err(e) => r matches Err(x) && x@ == e,
        },
{
    if n > s.len() {
        return Err(SnapshotError::Truncated(field));
    }
    assert(s@.subrange(0, n as int) =~= s@.take(n as int));
    assert(s@.subrange(n as int, s@.len() as int) =~= s@.skip(n as int));
    Ok((slice_subrange(s, 0, n), slice_subrange(s, n, s.len())))
}

fn take_u32<'a>(s: &'a [u8], field: &'static str) -> (r: Result<(u32, &'a [u8]), SnapshotError>)
    ensures
        match read_u32(s@, field@) {
            Ok((v, rest)) => r matches Ok((x, t)) && x == v && t@ == rest,
            Err(e) => r matches Err(x) && x@ == e,
        },
{
    let (b, rest) = match take(s, 4, field) {
        Ok(p) => p,
        Err(e) => {
            return Err(e);
        },
    };
    proof {
        lemma_le_value_bound(b@);
        lemma2_to64();
    }
    Ok((le_number(b) as u32, rest))
}

fn take_limited<'a>(s: &'a [u8], max: u32, field: &'static str) -> (r: Result<
    (u32, &'a [u8]),
    SnapshotError,
>)
    ensures
        match read_limited(s@, max as nat, field@) {
            Ok((v, rest)) => r matches Ok((x, t)) && x == v && t@ == rest,
            Err(e) => r matches Err(x) && x@ == e,
        },
{
    proof {
        reveal(read_limited);
    }
    let (n, rest) = match take_u32(s, field) {
        Ok(p) => p,
        Err(e) => {
            return Err(e);
        },
    };
    if n > max {
        Err(SnapshotError::FieldTooLarge(field, n))
    } else {
        Ok((n, rest))
    }
}

fn take_text<'a>(s: &'a [u8], field: &'static str) -> (r: Result<
    (String, &'a [u8]),
    SnapshotError,
>)
    ensures
        match read_text(s@, field@) {
            Ok((v, rest)) => r matches Ok((x, t)) && x@ == v && t@ == rest,
            Err(e) => r matches Err(x) && x@ == e,
        },
{
    proof {
        reveal(read_text);
    }
    let (n, rest) = match take_limited(s, MAX_STR_LEN, field) {
        Ok(p) => p,
        Err(e) => {
            return Err(e);
        },
    };
    let (b, rest) = match take(rest, n as usize, field) {
        Ok(p) => p,
        Err(e) => {
            return Err(e);
        },
    };
    match string_from_utf8(slice_to_vec(b)) {
        Some(text) => Ok((text, rest)),
        None => Err(SnapshotError::InvalidUtf8(field)),
    }
}

fn take_metric_name<'a>(s: &'a [u8], field: &'static str) -> (r: Result<
    (MetricName, &'a [u8]),
    SnapshotError,
>)
    ensures
        match read_metric_name(s@, field@) {
            Ok((v, rest)) => r matches Ok((x, t)) && x@ == v && t@ == rest,
            Err(e) => r matches Err(x) && x@ == e,
        },
{
    proof {
        reveal(read_metric_name);
    }
    let (text, rest) = match take_text(s, field) {
        Ok(p) => p,
        Err(e) => {
            return Err(e);
        },
    };
    match MetricName::parse(text.as_str()) {
        Ok(name) => Ok((name, rest)),
        Err(_) => Err(SnapshotError::InvalidField(field, text)),
    }
}

fn take_meta<'a>(s: &'a [u8]) -> (r: Result<
    ((MetricName, MetricMeta), &'a [u8]),
    SnapshotError,
>)
    ensures
        match read_meta(s@) {
            Ok((v, rest)) => r matches Ok((x, t)) && (x.0@, x.1@) == v && t@ == rest,
            Err(e) => r matches Err(x) && x@ == e,
        },
{
    proof {
        reveal(read_meta);
    }
    let (name, rest) = match take_metric_name(s, "meta name") {
        Ok(p) => p,
        Err(e) => {
            return Err(e);
        },
    };
    let (word, rest) = match take_text(rest, "meta kind") {
        Ok(p) => p,
        Err(e) => {
            return Err(e);
        },
    };
    let kind = match MetricKind::parse(word.as_str()) {
        Ok(kind) => kind,
        Err(_) => {
            return Err(SnapshotError::InvalidField("meta kind", word));
        },
    };
    let (help, rest) = match take_text(rest, "meta help") {
        Ok(p) => p,
        Err(e) => {
            return Err(e);
        },
    };
    Ok(((name, MetricMeta { kind, help }), rest))
}

fn take_metas<'a>(s: &'a [u8], n: u32) -> (r: Result<
    (Vec<(MetricName, MetricMeta)>, &'a [u8]),
    SnapshotError,
>)
    ensures
        match read_metas(s@, n as nat, seq![]) {
            Ok((v, rest)) => r matches Ok((x, t)) && meta_views(x@) == v && t@ == rest,
            Err(e) => r matches Err(x) && x@ == e,
        },
{
    let mut out: Vec<(MetricName, MetricMeta)> = Vec::new();
    let mut at: &[u8] = s;
    let mut left: u32 = n;
    assert(meta_views(out@) =~= seq![]);
    while left > 0
        invariant
            read_metas(s@, n as nat, seq![]) == read_metas(at@, left as nat, meta_views(out@)),
        decreases left,
    {
        let ghost before = meta_views(out@);
        let (m, rest) = match take_meta(at) {
            Ok(p) => p,
            Err(e) => {
                return Err(e);
            },
        };
        let ghost view = (m.0@, m.1@);
        out.push(m);
        assert(meta_views(out@) =~= before.push(view));
        at = rest;
        left -= 1;
    }
    Ok((out, at))
}

fn take_pair<'a>(s: &'a [u8]) -> (r: Result<((LabelName, LabelValue), &'a [u8]), SnapshotError>)
    ensures
        match read_pair(s@) {
            Ok((v, rest)) => r matches Ok((x, t)) && (x.0@, x.1@) == v && t@ == rest,
            Err(e) => r matches Err(x) && x@ == e,
        },
{
    proof {
        reveal(read_pair);
    }
    let (text, rest) = match take_text(s, "label name") {
        Ok(p) => p,
        Err(e) => {
            return Err(e);
        },
    };
    let name = match LabelName::parse(text.as_str()) {
        Ok(name) => name,
        Err(_) => {
            return Err(SnapshotError::InvalidField("label name", text));
        },
    };
    let (value, rest) = match take_text(rest, "label value") {
        Ok(p) => p,
        Err(e) => {
            return Err(e);
        },
    };
    Ok(((name, LabelValue::new(value.as_str())), rest))
}

fn take_labels<'a>(s: &'a [u8]) -> (r: Result<(Labels, &'a [u8]), SnapshotError>)
    ensures
        match read_label_set(s@) {
            Ok((v, rest)) => r matches Ok((x, t)) && x@ == v && t@ == rest,
            Err(e) => r matches Err(x) && x@ == e,
        },
{
    proof {
        reveal(read_label_set);
    }
    let (n, start) = match take_limited(s, MAX_COUNT, "label count") {
        Ok(p) => p,
        Err(e) => {
            return Err(e);
        },
    };
    let mut pairs: Vec<(LabelName, LabelValue)> = Vec::new();
    let mut at: &[u8] = start;
    let mut left: u32 = n;
    assert(pair_views(pairs@) =~= seq![]);
    while left > 0
        invariant
            read_limited(s@, MAX_COUNT as nat, "label count"@) matches Ok((k, rest)) && k == n
                && rest == start@,
            read_pairs(start@, n as nat, seq![]) == read_pairs(
                at@,
                left as nat,
                pair_views(pairs@),
            ),
        decreases left,
    {
        let ghost before = pair_views(pairs@);
        let (p, rest) = match take_pair(at) {
            Ok(p) => p,
            Err(e) => {
                proof {
                    reveal(read_label_set);
                }
                return Err(e);
            },
        };
        let ghost view = (p.0@, p.1@);
        pairs.push(p);
        assert(pair_views(pairs@) =~= before.push(view));
        at = rest;
        left -= 1;
    }
    let ghost views = pair_views(pairs@);
    match Labels::new(pairs) {
        Ok(labels) => {
            proof {
                lemma_labels_of(labels@, views);
            }
            Ok((labels, at))
        },
        Err(e) => {
            proof {
                lemma_least_duplicate(views, e->DuplicateLabel_0@);
            }
            Err(SnapshotError::InvalidField("labels", e.message()))
        },
    }
}

fn take_sample<'a>(s: &'a [u8]) -> (r: Result<(Sample, &'a [u8]), SnapshotError>)
    ensures
        match read_point(s@) {
            Ok((v, rest)) => r matches Ok((x, t)) && x@ == v && t@ == rest,
            Err(e) => r matches Err(x) && x@ == e,
        },
{
    proof {
        reveal(read_point);
    }
    let (a, rest) = match take(s, 8, "sample ts") {
        Ok(p) => p,
        Err(e) => {
            return Err(e);
        },
    };
    let (b, rest) = match take(rest, 8, "sample value") {
        Ok(p) => p,
        Err(e) => {
            return Err(e);
        },
    };
    let ms: i64 = to_signed(le_number(a));
    let value: u64 = le_number(b);
    match TimestampMs::new(ms) {
        Ok(ts) => Ok((Sample { ts, value }, rest)),
        Err(_) => {
            let mut text = String::new();
            push_signed(&mut text, ms);
            assert(text@ =~= int_text(ms as int));
            Err(SnapshotError::InvalidField("sample ts", text))
        },
    }
}

fn take_samples<'a>(s: &'a [u8], n: u32) -> (r: Result<(Vec<Sample>, &'a [u8]), SnapshotError>)
    ensures
        match read_points(s@, n as nat, seq![]) {
            Ok((v, rest)) => r matches Ok((x, t)) && points(x@) == v && t@ == rest,
            Err(e) => r matches Err(x) && x@ == e,
        },
{
    let mut out: Vec<Sample> = Vec::new();
    let mut at: &[u8] = s;
    let mut left: u32 = n;
    assert(points(out@) =~= seq![]);
    while left > 0
        invariant
            read_points(s@, n as nat, seq![]) == read_points(at@, left as nat, points(out@)),
        decreases left,
    {
        let ghost before = points(out@);
        let (p, rest) = match take_sample(at) {
            Ok(p) => p,
            Err(e) => {
                return Err(e);
            },
        };
        out.push(p);
        assert(points(out@) =~= before.push(p@));
        at = rest;
        left -= 1;
    }
    Ok((out, at))
}

fn take_series<'a>(s: &'a [u8]) -> (r: Result<
    ((SeriesKey, Vec<Sample>), &'a [u8]),
    SnapshotError,
>)
    ensures
        match read_series(s@) {
            Ok((v, rest)) => r matches Ok((x, t)) && (x.0@, points(x.1@)) == v && t@ == rest,
            Err(e) => r matches Err(x) && x@ == e,
        },
{
    proof {
        reveal(read_series);
    }
    let (name, rest) = match take_metric_name(s, "series name") {
        Ok(p) => p,
        Err(e) => {
            return Err(e);
        },
    };
    let (labels, rest) = match take_labels(rest) {
        Ok(p) => p,
        Err(e) => {
            return Err(e);
        },
    };
    let (n, rest) = match take_limited(rest, MAX_COUNT, "sample count") {
        Ok(p) => p,
        Err(e) => {
            return Err(e);
        },
    };
    let (samples, rest) = match take_samples(rest, n) {
        Ok(p) => p,
        Err(e) => {
            return Err(e);
        },
    };
    Ok(((SeriesKey { name, labels }, samples), rest))
}

fn take_all_series<'a>(s: &'a [u8], n: u32) -> (r: Result<
    (Vec<(SeriesKey, Vec<Sample>)>, &'a [u8]),
    SnapshotError,
>)
    ensures
        match read_all_series(s@, n as nat, seq![]) {
            Ok((v, rest)) => r matches Ok((x, t)) && series_views(x@) == v && t@ == rest,
            Err(e) => r matches Err(x) && x@ == e,
        },
{
    let mut out: Vec<(SeriesKey, Vec<Sample>)> = Vec::new();
    let mut at: &[u8] = s;
    let mut left: u32 = n;
    assert(series_views(out@) =~= seq![]);
    while left > 0
        invariant
            read_all_series(s@, n as nat, seq![]) == read_all_series(
                at@,
                left as nat,
                series_views(out@),
            ),
        decreases left,
    {
        let ghost before = series_views(out@);
        let (e, rest) = match take_series(at) {
            Ok(p) => p,
            Err(e) => {
                return Err(e);
            },
        };
        let ghost view = (e.0@, points(e.1@));
        out.push(e);
        assert(series_views(out@) =~= before.push(view));
        at = rest;
        left -= 1;
    }
    Ok((out, at))
}

fn take_header<'a>(s: &'a [u8]) -> (r: Result<&'a [u8], SnapshotError>)
    ensures
        match read_header(s@) {
            Ok((_, rest)) => r matches Ok(t) && t@ == rest,
            Err(e) => r matches Err(x) && x@ == e,
        },
{
    proof {
        reveal(read_header);
    }
    let (b, rest) = match take(s, 4, "magic") {
        Ok(p) => p,
        Err(e) => {
            return Err(e);
        },
    };
    if !(b[0] == 0x52 && b[1] == 0x4d && b[2] == 0x58 && b[3] == 0x31) {
        assert(b@ != magic());
        return Err(SnapshotError::BadMagic);
    }
    assert(b@ =~= magic());
    let (version, rest) = match take_u32(rest, "version") {
        Ok(p) => p,
        Err(e) => {
            return Err(e);
        },
    };
    if version != VERSION {
        Err(SnapshotError::UnsupportedVersion(version))
    } else {
        Ok(rest)
    }
}

pub fn decode(bytes: &[u8]) -> (r: Result<StoreDump, SnapshotError>)
    ensures
        match read_dump(bytes@) {
            Ok((d, _)) => r matches Ok(x) && x@ == d,
            Err(e) => r matches Err(x) && x@ == e,
        },
{
    let rest = match take_header(bytes) {
        Ok(t) => t,
        Err(e) => {
            return Err(e);
        },
    };
    let (m, rest) = match take_limited(rest, MAX_COUNT, "meta count") {
        Ok(p) => p,
        Err(e) => {
            return Err(e);
        },
    };
    let (metas, rest) = match take_metas(rest, m) {
        Ok(p) => p,
        Err(e) => {
            return Err(e);
        },
    };
    let (n, rest) = match take_limited(rest, MAX_COUNT, "series count") {
        Ok(p) => p,
        Err(e) => {
            return Err(e);
        },
    };
    let (series, _) = match take_all_series(rest, n) {
        Ok(p) => p,
        Err(e) => {
            return Err(e);
        },
    };
    Ok(StoreDump { series, metas })
}

/// The path of the snapshot file in a data directory.
pub open spec fn snapshot_file(dir: Seq<char>) -> Seq<char> {
    if dir.len() > 0 && dir.last() != '/' {
        dir + "/snapshot.rmx"@
    } else {
        dir + "snapshot.rmx"@
    }
}

pub fn snapshot_path(data_dir: &str) -> (r: String)
    ensures
        r@ == snapshot_file(data_dir@),
{
    let chars = to_chars(data_dir);
    let mut out = data_dir.to_owned();
    if chars.len() > 0 && chars[chars.len() - 1] != '/' {
        out.append("/snapshot.rmx");
    } else {
        out.append("snapshot.rmx");
    }
    out
}

/// What was found at the path of a snapshot.
#[derive(Debug)]
pub enum SnapshotFile {
    Missing,
    Unreadable(String),
    Contents(Vec<u8>),
}

/// What to start with, what to warn of, and whether to move the file aside.
#[derive(Debug)]
pub struct Loaded {
    pub dump: StoreDump,
    pub warning: Option<String>,
    pub quarantine: bool,
}

/// The dump that a start finds in a snapshot file.
pub open spec fn loaded_dump(file: SnapshotFile) -> DumpSpec {
    match file {
        SnapshotFile::Contents(bytes) => match read_dump(bytes@) {
            Ok((d, _)) => d,
            Err(_) => empty_dump(),
        },
        _ => empty_dump(),
    }
}

/// The file is to be moved aside: it holds no snapshot.
pub open spec fn is_corrupt(file: SnapshotFile) -> bool {
    file matches SnapshotFile::Contents(bytes) && read_dump(bytes@) is Err
}

/// What a start finds in a snapshot file. A missing file gives the empty dump,
/// and so does one that cannot be read or holds no snapshot, with a warning; the
/// latter is to be moved aside.
pub fn load(path: &str, file: SnapshotFile) -> (r: Loaded)
    ensures
        match file {
            SnapshotFile::Missing => r.dump@ == empty_dump() && r.warning is None && !r.quarantine,
            SnapshotFile::Unreadable(e) => r.dump@ == empty_dump() && (r.warning matches Some(w)
                && w@ == "cannot read snapshot "@ + path@ + ": "@ + e@) && !r.quarantine,
            SnapshotFile::Contents(bytes) => match read_dump(bytes@) {
                Ok((d, _)) => r.dump@ == d && r.warning is None && !r.quarantine,
                Err(e) => r.dump@ == empty_dump() && (r.warning matches Some(w) && w@
                    == snapshot_error_text(e) + "; starting fresh"@) && r.quarantine,
            },
        },
        r.dump@ == loaded_dump(file),
        r.quarantine == is_corrupt(file),
{
    match file {
        SnapshotFile::Missing => Loaded {
            dump: StoreDump::default(),
            warning: None,
            quarantine: false,
        },
        SnapshotFile::Unreadable(e) => {
            let mut text = "cannot read snapshot ".to_owned();
            text.append(path);
            text.append(": ");
            text.append(e.as_str());
            Loaded { dump: StoreDump::default(), warning: Some(text), quarantine: false }
        },
        SnapshotFile::Contents(bytes) => match decode(bytes.as_slice()) {
            Ok(dump) => Loaded { dump, warning: None, quarantine: false },
            Err(e) => {
                let mut text = e.message();
                text.append("; starting fresh");
                Loaded { dump: StoreDump::default(), warning: Some(text), quarantine: true }
            },
        },
    }
}

} // verus!
