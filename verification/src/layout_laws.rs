//! Laws of the bytes of a snapshot: where what stands, and what is refused.

use vstd::arithmetic::power2::lemma2_to64;
use vstd::prelude::*;
use vstd::utf8::{decode_utf8, encode_utf8, valid_utf8};

use crate::model::{
    is_label_name, is_metric_name, kind_text, Key, LabelPairs, MetaSpec, MetricKind, Point,
};
use crate::snapshot::{
    all_series_bytes, count_bytes, dump_bytes, is_corrupt, le_bytes, le_value, loaded_dump, magic,
    meta_bytes, metas_bytes, pairs_bytes, point_bytes, points_bytes, read_dump, read_header,
    read_limited, read_meta, read_metric_name, read_pair, read_point, read_text, series_bytes,
    text_bytes, SnapshotErrorSpec, SnapshotFile, MAX_COUNT,
};
use crate::snapshot_laws::{dump_fits, law_snapshot_read_back, lemma_le, text_fits};
use crate::storage::DumpSpec;

verus! {

/// The four bytes of a number, the lowest first.
pub open spec fn four_bytes(n: nat) -> Seq<u8> {
    seq![
        (n % 256) as u8,
        (n / 256 % 256) as u8,
        (n / 65536 % 256) as u8,
        (n / 16777216 % 256) as u8,
    ]
}

/// The eight bytes of a number, the lowest first.
pub open spec fn eight_bytes(n: nat) -> Seq<u8> {
    four_bytes(n) + four_bytes(n / 4294967296)
}

/// The parts one behind the other.
pub open spec fn in_a_row(parts: Seq<Seq<u8>>) -> Seq<u8>
    decreases parts.len(),
{
    if parts.len() == 0 {
        seq![]
    } else {
        parts[0] + in_a_row(parts.skip(1))
    }
}

proof fn lemma_four(n: nat)
    requires
        n < 4294967296,
    ensures
        le_bytes(n, 4) == four_bytes(n),
        count_bytes(n) == four_bytes(n),
        le_value(four_bytes(n)) == n,
{
    reveal(count_bytes);
    lemma2_to64();
    lemma_low_four(n, seq![], 0);
    assert(le_bytes(n, 4) =~= four_bytes(n));
    lemma_le(n, 4);
    assert(n % 0x1_0000_0000 == n);
}

proof fn lemma_low_four(n: nat, more: Seq<u8>, width: nat)
    requires
        le_bytes(n / 4294967296, width) == more,
    ensures
        le_bytes(n, width + 4) == four_bytes(n) + more,
{
    let (a, b, c, d) = (n / 256, n / 65536, n / 16777216, n / 4294967296);
    assert(a / 256 == b && b / 256 == c && c / 256 == d);
    let t1 = le_bytes(c, width + 1);
    let t2 = le_bytes(b, width + 2);
    let t3 = le_bytes(a, width + 3);
    assert(t1 == seq![(c % 256) as u8] + more);
    assert(t2 == seq![(b % 256) as u8] + t1);
    assert(t3 == seq![(a % 256) as u8] + t2);
    assert(le_bytes(n, width + 4) == seq![(n % 256) as u8] + t3);
    assert(le_bytes(n, width + 4) =~= four_bytes(n) + more);
}

proof fn lemma_eight(n: nat)
    ensures
        le_bytes(n, 8) == eight_bytes(n),
{
    let h = n / 4294967296;
    lemma_low_four(h, seq![], 0);
    assert(le_bytes(h, 4) =~= four_bytes(h));
    lemma_low_four(n, four_bytes(h), 4);
}

/// A text: its length in bytes, and its bytes.
pub open spec fn text_record(s: Seq<char>) -> Seq<u8> {
    four_bytes(encode_utf8(s).len()) + encode_utf8(s)
}

/// A label: its name and its value.
pub open spec fn label_record(p: (Seq<char>, Seq<char>)) -> Seq<u8> {
    text_record(p.0) + text_record(p.1)
}

/// A sample: its timestamp and the bits of its value.
pub open spec fn sample_record(p: Point) -> Seq<u8> {
    eight_bytes(p.ts as nat) + eight_bytes(p.value as nat)
}

/// The metadata of a metric: its name, kind and help text.
pub open spec fn meta_record(m: (Seq<char>, MetaSpec)) -> Seq<u8> {
    text_record(m.0) + text_record(kind_text(m.1.kind)) + text_record(m.1.help)
}

/// A series: its name, the number of its labels and the labels, the number of
/// its samples and the samples.
pub open spec fn series_record(e: (Key, Seq<Point>)) -> Seq<u8> {
    text_record(e.0.0) + four_bytes(e.0.1.len()) + in_a_row(
        e.0.1.map_values(|p: (Seq<char>, Seq<char>)| label_record(p)),
    ) + four_bytes(e.1.len()) + in_a_row(e.1.map_values(|p: Point| sample_record(p)))
}

/// The length is a number of 32 bits.
pub open spec fn is_short(s: Seq<char>) -> bool {
    encode_utf8(s).len() < 4294967296
}

pub open spec fn is_short_series(e: (Key, Seq<Point>)) -> bool {
    &&& is_short(e.0.0)
    &&& e.0.1.len() < 4294967296
    &&& forall|i: int|
        0 <= i < e.0.1.len() ==> is_short((#[trigger] e.0.1[i]).0) && is_short(e.0.1[i].1)
    &&& e.1.len() < 4294967296
}

proof fn lemma_text_record(s: Seq<char>)
    requires
        is_short(s),
    ensures
        text_bytes(s) == text_record(s),
{
    reveal(text_bytes);
    lemma_four(encode_utf8(s).len());
}

proof fn lemma_labels(s: LabelPairs)
    requires
        forall|i: int| 0 <= i < s.len() ==> is_short((#[trigger] s[i]).0) && is_short(s[i].1),
    ensures
        pairs_bytes(s) == in_a_row(s.map_values(|p: (Seq<char>, Seq<char>)| label_record(p))),
    decreases s.len(),
{
    let f = |p: (Seq<char>, Seq<char>)| label_record(p);
    if s.len() > 0 {
        let t = s.skip(1);
        assert forall|i: int| 0 <= i < t.len() implies is_short((#[trigger] t[i]).0) && is_short(
            t[i].1,
        ) by {
            assert(t[i] == s[i + 1]);
        }
        lemma_labels(t);
        assert(is_short(s[0].0) && is_short(s[0].1));
        lemma_text_record(s[0].0);
        lemma_text_record(s[0].1);
        assert(s.map_values(f).skip(1) =~= t.map_values(f));
    }
}

proof fn lemma_samples(s: Seq<Point>)
    ensures
        points_bytes(s) == in_a_row(s.map_values(|p: Point| sample_record(p))),
    decreases s.len(),
{
    let f = |p: Point| sample_record(p);
    if s.len() > 0 {
        reveal(point_bytes);
        lemma_samples(s.skip(1));
        lemma_eight(s[0].ts as nat);
        lemma_eight(s[0].value as nat);
        assert(s.map_values(f).skip(1) =~= s.skip(1).map_values(f));
    }
}

proof fn lemma_metas(s: Seq<(Seq<char>, MetaSpec)>)
    requires
        forall|i: int|
            0 <= i < s.len() ==> is_short((#[trigger] s[i]).0) && is_short(s[i].1.help),
    ensures
        metas_bytes(s) == in_a_row(s.map_values(|m: (Seq<char>, MetaSpec)| meta_record(m))),
    decreases s.len(),
{
    let f = |m: (Seq<char>, MetaSpec)| meta_record(m);
    if s.len() > 0 {
        let t = s.skip(1);
        assert forall|i: int| 0 <= i < t.len() implies is_short((#[trigger] t[i]).0) && is_short(
            t[i].1.help,
        ) by {
            assert(t[i] == s[i + 1]);
        }
        lemma_metas(t);
        reveal(meta_bytes);
        assert(is_short(s[0].0) && is_short(s[0].1.help));
        lemma_text_record(s[0].0);
        lemma_short_kind(s[0].1.kind);
        lemma_text_record(kind_text(s[0].1.kind));
        lemma_text_record(s[0].1.help);
        assert(s.map_values(f).skip(1) =~= t.map_values(f));
    }
}

proof fn lemma_short_kind(kind: MetricKind)
    ensures
        is_short(kind_text(kind)),
{
    reveal_strlit("counter");
    reveal_strlit("gauge");
    reveal_strlit("histogram");
    reveal_strlit("summary");
    reveal_strlit("untyped");
    let s = kind_text(kind);
    assert forall|i: int| 0 <= i < s.len() implies '\0' <= #[trigger] s[i] <= '\u{7f}' by {
        crate::text::lemma_char_range(s[i]);
    }
    vstd::utf8::is_ascii_chars_encode_utf8(s);
}

proof fn lemma_all_series(s: Seq<(Key, Seq<Point>)>)
    requires
        forall|i: int| 0 <= i < s.len() ==> is_short_series(#[trigger] s[i]),
    ensures
        all_series_bytes(s) == in_a_row(s.map_values(|e: (Key, Seq<Point>)| series_record(e))),
    decreases s.len(),
{
    let f = |e: (Key, Seq<Point>)| series_record(e);
    if s.len() > 0 {
        let t = s.skip(1);
        assert forall|i: int| 0 <= i < t.len() implies is_short_series(#[trigger] t[i]) by {
            assert(t[i] == s[i + 1]);
        }
        lemma_all_series(t);
        reveal(series_bytes);
        let e = s[0];
        assert(is_short_series(e));
        lemma_text_record(e.0.0);
        lemma_four(e.0.1.len());
        lemma_labels(e.0.1);
        lemma_four(e.1.len());
        lemma_samples(e.1);
        assert(s.map_values(f).skip(1) =~= t.map_values(f));
    }
}

/// A snapshot is the letters `RMX1`, the version 1, the number of the metadata
/// records and the records, and the number of the series and the series, all
/// numbers with their lowest byte first.
pub proof fn law_snapshot_layout(d: DumpSpec)
    requires
        d.metas.len() < 4294967296,
        forall|i: int|
            0 <= i < d.metas.len() ==> is_short((#[trigger] d.metas[i]).0) && is_short(
                d.metas[i].1.help,
            ),
        d.series.len() < 4294967296,
        forall|i: int| 0 <= i < d.series.len() ==> is_short_series(#[trigger] d.series[i]),
    ensures
        dump_bytes(d) == encode_utf8("RMX1"@) + seq![1u8, 0u8, 0u8, 0u8] + four_bytes(d.metas.len())
            + in_a_row(d.metas.map_values(|m: (Seq<char>, MetaSpec)| meta_record(m))) + four_bytes(
            d.series.len(),
        ) + in_a_row(d.series.map_values(|e: (Key, Seq<Point>)| series_record(e))),
{
    lemma_letters();
    lemma_four(1);
    lemma_one();
    lemma_four(d.metas.len());
    lemma_four(d.series.len());
    lemma_metas(d.metas);
    lemma_all_series(d.series);
}

proof fn lemma_one()
    ensures
        four_bytes(1) == seq![1u8, 0u8, 0u8, 0u8],
{
    assert(four_bytes(1) =~= seq![1u8, 0u8, 0u8, 0u8]);
}

proof fn lemma_letters()
    ensures
        encode_utf8("RMX1"@) == magic(),
{
    reveal_strlit("RMX1");
    let s = "RMX1"@;
    assert forall|i: int| 0 <= i < s.len() implies '\0' <= #[trigger] s[i] <= '\u{7f}' by {
        crate::text::lemma_char_range(s[i]);
    }
    vstd::utf8::is_ascii_chars_encode_utf8(s);
    assert(s.len() == 4);
    let b = encode_utf8(s);
    assert(b[0] == s[0] as u8 && b[1] == s[1] as u8 && b[2] == s[2] as u8 && b[3] == s[3] as u8);
    assert(b =~= magic());
}

/// Only bytes that begin with the letters `RMX1` and the version 1 are read;
/// other letters and other versions are refused as such.
pub proof fn law_snapshot_header(letters: Seq<u8>, version: nat, rest: Seq<u8>)
    requires
        letters.len() == 4,
        version < 4294967296,
    ensures
        letters != encode_utf8("RMX1"@) ==> read_dump(letters + rest) == Err::<
            (DumpSpec, Seq<u8>),
            SnapshotErrorSpec,
        >(SnapshotErrorSpec::BadMagic),
        letters == encode_utf8("RMX1"@) && version != 1 ==> read_dump(
            letters + four_bytes(version) + rest,
        ) == Err::<(DumpSpec, Seq<u8>), SnapshotErrorSpec>(
            SnapshotErrorSpec::UnsupportedVersion(version),
        ),
{
    reveal(read_header);
    lemma_letters();
    lemma_four(version);
    let s = letters + four_bytes(version) + rest;
    let t = four_bytes(version) + rest;
    assert((letters + rest).take(4) =~= letters);
    assert(s.take(4) =~= letters);
    assert(s.skip(4) =~= t);
    assert(t.take(4) =~= four_bytes(version));
}

/// A text of at most a mebibyte is read, if it is UTF-8; a longer one is refused.
pub proof fn law_text_record(n: nat, b: Seq<u8>, rest: Seq<u8>, field: Seq<char>)
    requires
        n < 4294967296,
    ensures
        n > 1048576 ==> read_text(four_bytes(n) + rest, field) == Err::<
            (Seq<char>, Seq<u8>),
            SnapshotErrorSpec,
        >(SnapshotErrorSpec::FieldTooLarge(field, n)),
        n <= 1048576 && b.len() == n ==> read_text(four_bytes(n) + b + rest, field) == if valid_utf8(
            b,
        ) {
            Ok::<(Seq<char>, Seq<u8>), SnapshotErrorSpec>((decode_utf8(b), rest))
        } else {
            Err(SnapshotErrorSpec::InvalidUtf8(field))
        },
        n <= 1048576 && b.len() < n ==> read_text(four_bytes(n) + b, field) == Err::<
            (Seq<char>, Seq<u8>),
            SnapshotErrorSpec,
        >(SnapshotErrorSpec::Truncated(field)),
{
    reveal(read_text);
    reveal(read_limited);
    lemma_four(n);
    let f = four_bytes(n);
    assert((f + rest).take(4) =~= f);
    assert((f + b + rest).take(4) =~= f);
    assert((f + b + rest).skip(4) =~= b + rest);
    assert((f + b).take(4) =~= f);
    assert((f + b).skip(4) =~= b);
    if b.len() == n {
        assert((b + rest).take(n as int) =~= b);
        assert((b + rest).skip(n as int) =~= rest);
    }
}

/// A count of at most 16777216 is read, and a greater one is refused.
pub proof fn law_count_record(n: nat, rest: Seq<u8>, field: Seq<char>)
    requires
        n < 4294967296,
    ensures
        read_limited(four_bytes(n) + rest, MAX_COUNT as nat, field) == if n > 16777216 {
            Err::<(nat, Seq<u8>), SnapshotErrorSpec>(SnapshotErrorSpec::FieldTooLarge(field, n))
        } else {
            Ok((n, rest))
        },
{
    reveal(read_limited);
    lemma_four(n);
    let f = four_bytes(n);
    assert((f + rest).take(4) =~= f);
    assert((f + rest).skip(4) =~= rest);
}

/// The texts that are written and read back are those of at most a mebibyte, and
/// up to 16777216 records of each sort are.
pub proof fn law_snapshot_limits(s: Seq<char>, d: DumpSpec)
    ensures
        text_fits(s) <==> encode_utf8(s).len() <= 1048576,
        dump_fits(d) ==> d.metas.len() <= 16777216 && d.series.len() <= 16777216,
        d.metas.len() <= 16777216 && d.series.len() == 0 && (forall|i: int|
            0 <= i < d.metas.len() ==> is_metric_name((#[trigger] d.metas[i]).0) && encode_utf8(
                d.metas[i].0,
            ).len() <= 1048576 && encode_utf8(d.metas[i].1.help).len() <= 1048576) ==> dump_fits(d),
{
}

/// A name that is none, a kind that is none and a timestamp out of range are
/// refused where they are read, with what was read.
pub proof fn law_invalid_records(word: Seq<char>, other: Seq<char>, ts: nat, rest: Seq<u8>)
    requires
        encode_utf8(word).len() <= 1048576,
        encode_utf8(other).len() <= 1048576,
        ts < 0x1_0000_0000_0000_0000,
    ensures
        !is_metric_name(word) ==> read_meta(text_record(word) + rest) == Err::<
            ((Seq<char>, MetaSpec), Seq<u8>),
            SnapshotErrorSpec,
        >(SnapshotErrorSpec::InvalidField("meta name"@, word)),
        is_metric_name(word) && (forall|k: MetricKind| other != #[trigger] kind_text(k))
            ==> read_meta(text_record(word) + (text_record(other) + rest)) == Err::<
            ((Seq<char>, MetaSpec), Seq<u8>),
            SnapshotErrorSpec,
        >(SnapshotErrorSpec::InvalidField("meta kind"@, other)),
        !is_label_name(word) ==> read_pair(text_record(word) + rest) == Err::<
            ((Seq<char>, Seq<char>), Seq<u8>),
            SnapshotErrorSpec,
        >(SnapshotErrorSpec::InvalidField("label name"@, word)),
        ts > 253402300799000 && rest.len() >= 8 ==> (read_point(eight_bytes(ts) + rest) matches Err(
            SnapshotErrorSpec::InvalidField(field, _),
        ) && field == "sample ts"@),
{
    reveal(read_meta);
    reveal(read_metric_name);
    reveal(read_pair);
    reveal(read_point);
    lemma_reads(word, rest, "meta name"@);
    lemma_reads(word, text_record(other) + rest, "meta name"@);
    lemma_reads(other, rest, "meta kind"@);
    lemma_reads(word, rest, "label name"@);
    if let Some(k) = crate::model::kind_of(other) {
        crate::model::law_kind_text(k, other);
    }
    lemma2_to64();
    lemma_eight(ts);
    lemma_le(ts, 8);
    let s = eight_bytes(ts) + rest;
    assert(s.take(8) =~= eight_bytes(ts));
    assert(s.skip(8) =~= rest);
}

proof fn lemma_reads(word: Seq<char>, rest: Seq<u8>, field: Seq<char>)
    requires
        encode_utf8(word).len() <= 1048576,
    ensures
        read_text(text_record(word) + rest, field) == Ok::<
            (Seq<char>, Seq<u8>),
            SnapshotErrorSpec,
        >((word, rest)),
{
    let b = encode_utf8(word);
    law_text_record(b.len(), b, rest, field);
    vstd::utf8::encode_utf8_valid_utf8(word);
    vstd::utf8::encode_utf8_decode_utf8(word);
}

/// A start takes over what the snapshot holds, and begins with nothing where
/// there is none; only a file that holds no snapshot is moved aside.
pub proof fn law_start(file: SnapshotFile, d: DumpSpec, tail: Seq<u8>)
    requires
        dump_fits(d),
    ensures
        file matches SnapshotFile::Contents(b) ==> (b@ == dump_bytes(d) + tail ==> loaded_dump(file)
            == d && !is_corrupt(file)),
        file matches SnapshotFile::Contents(b) ==> (b@.len() >= 4 && b@.take(4) != encode_utf8(
            "RMX1"@,
        ) ==> is_corrupt(file)),
        is_corrupt(file) || !(file is Contents) ==> loaded_dump(file).series.len() == 0
            && loaded_dump(file).metas.len() == 0,
        !(file is Contents) ==> !is_corrupt(file),
{
    law_snapshot_read_back(d, tail);
    if let SnapshotFile::Contents(b) = file {
        if b@.len() >= 4 {
            law_snapshot_header(b@.take(4), 1, b@.skip(4));
            assert(b@.take(4) + b@.skip(4) =~= b@);
        }
    }
}

} // verus!
