use rustmetrics::model::{
    LabelName, LabelValue, Labels, MetricKind, MetricMeta, MetricName, ScrapedSample, SeriesKey,
    TimestampMs,
};
use rustmetrics::snapshot::{decode, encode, load, snapshot_path, SnapshotError, SnapshotFile};
use rustmetrics::storage::{MetricStore, StoreDump};

fn make_dump() -> StoreDump {
    let mut store = MetricStore::new(i64::MAX / 2, 1000);
    let name = MetricName::parse("http_requests_total").unwrap();
    let labels = Labels::new(vec![(
        LabelName::parse("code").unwrap(),
        LabelValue::new("2\"00\n\\"),
    )])
    .unwrap();
    store.ingest(
        vec![
            ScrapedSample {
                key: SeriesKey {
                    name: name.clone(),
                    labels,
                },
                value: 12.5f64.to_bits(),
                ts: Some(TimestampMs::new(1000).unwrap()),
            },
            ScrapedSample {
                key: SeriesKey {
                    name: MetricName::parse("nan_metric").unwrap(),
                    labels: Labels::empty(),
                },
                value: f64::NAN.to_bits(),
                ts: Some(TimestampMs::new(2000).unwrap()),
            },
        ],
        vec![(
            name,
            MetricMeta {
                kind: MetricKind::Counter,
                help: "Total requests".to_string(),
            },
        )],
        TimestampMs::new(2000).unwrap(),
    );
    store.dump()
}

/// The dump without the series whose value is not equal to itself.
fn plain_dump() -> StoreDump {
    let mut dump = make_dump();
    dump.series.retain(|(k, _)| k.name.as_str() != "nan_metric");
    dump
}

#[test]
fn encode_decode_round_trip() {
    let dump = make_dump();
    let decoded = decode(&encode(&dump)).unwrap();
    // NaN != NaN, so compare piecewise
    assert_eq!(decoded.metas, dump.metas);
    assert_eq!(decoded.series.len(), dump.series.len());
    for ((k1, s1), (k2, s2)) in decoded.series.iter().zip(dump.series.iter()) {
        assert_eq!(k1, k2);
        assert_eq!(s1.len(), s2.len());
        for (a, b) in s1.iter().zip(s2.iter()) {
            assert_eq!(a.ts, b.ts);
            let (x, y) = (f64::from_bits(a.value), f64::from_bits(b.value));
            assert!(x == y || (x.is_nan() && y.is_nan()));
        }
    }
}

#[test]
fn rejects_bad_magic_and_version() {
    assert!(matches!(decode(b"NOPE"), Err(SnapshotError::BadMagic)));
    let mut bytes = encode(&StoreDump::default());
    bytes[4] = 99;
    assert!(matches!(
        decode(&bytes),
        Err(SnapshotError::UnsupportedVersion(99))
    ));
}

#[test]
fn rejects_truncated() {
    let bytes = encode(&make_dump());
    let e = decode(&bytes[..bytes.len() - 4]).unwrap_err();
    assert!(matches!(e, SnapshotError::Truncated(_)), "{e:?}");
}

#[test]
fn every_cut_is_truncated() {
    let bytes = encode(&make_dump());
    for k in 0..bytes.len() {
        let e = decode(&bytes[..k]).unwrap_err();
        assert!(matches!(e, SnapshotError::Truncated(_)), "{k}: {e:?}");
    }
    let mut longer = encode(&plain_dump());
    longer.extend_from_slice(b"rest");
    assert_eq!(decode(&longer).unwrap(), plain_dump());
}

#[test]
fn exact_bytes_of_a_small_dump() {
    let dump = StoreDump {
        series: vec![(
            SeriesKey { name: MetricName::parse("m").unwrap(), labels: Labels::empty() },
            vec![rustmetrics::model::Sample {
                ts: TimestampMs::new(0x0102_0304).unwrap(),
                value: 1.0f64.to_bits(),
            }],
        )],
        metas: vec![],
    };
    let mut want: Vec<u8> = Vec::new();
    want.extend_from_slice(b"RMX1");
    want.extend_from_slice(&1u32.to_le_bytes());
    want.extend_from_slice(&0u32.to_le_bytes());
    want.extend_from_slice(&1u32.to_le_bytes());
    want.extend_from_slice(&1u32.to_le_bytes());
    want.extend_from_slice(b"m");
    want.extend_from_slice(&0u32.to_le_bytes());
    want.extend_from_slice(&1u32.to_le_bytes());
    want.extend_from_slice(&0x0102_0304i64.to_le_bytes());
    want.extend_from_slice(&1.0f64.to_le_bytes());
    assert_eq!(encode(&dump), want);
    assert_eq!(decode(&want).unwrap(), dump);
}

fn header() -> Vec<u8> {
    let mut bytes = b"RMX1".to_vec();
    bytes.extend_from_slice(&1u32.to_le_bytes());
    bytes
}

fn put_str(bytes: &mut Vec<u8>, s: &[u8]) {
    bytes.extend_from_slice(&(s.len() as u32).to_le_bytes());
    bytes.extend_from_slice(s);
}

#[test]
fn each_decode_error() {
    let mut bytes = header();
    bytes.extend_from_slice(&(16_777_217u32).to_le_bytes());
    let e = decode(&bytes).unwrap_err();
    assert!(matches!(e, SnapshotError::FieldTooLarge("meta count", 16_777_217)));
    assert_eq!(e.message(), "snapshot: field meta count too large (16777217)");

    let mut bytes = header();
    bytes.extend_from_slice(&1u32.to_le_bytes());
    bytes.extend_from_slice(&(1_048_577u32).to_le_bytes());
    assert!(matches!(
        decode(&bytes),
        Err(SnapshotError::FieldTooLarge("meta name", 1_048_577))
    ));

    let mut bytes = header();
    bytes.extend_from_slice(&1u32.to_le_bytes());
    put_str(&mut bytes, &[0xff, 0xfe]);
    let e = decode(&bytes).unwrap_err();
    assert!(matches!(e, SnapshotError::InvalidUtf8("meta name")));
    assert_eq!(e.message(), "snapshot: field meta name is not valid UTF-8");

    let mut bytes = header();
    bytes.extend_from_slice(&1u32.to_le_bytes());
    put_str(&mut bytes, b"9m");
    let e = decode(&bytes).unwrap_err();
    assert_eq!(e.message(), "snapshot: field meta name invalid: 9m");

    let mut bytes = header();
    bytes.extend_from_slice(&1u32.to_le_bytes());
    put_str(&mut bytes, b"m");
    put_str(&mut bytes, b"color");
    let e = decode(&bytes).unwrap_err();
    assert_eq!(e.message(), "snapshot: field meta kind invalid: color");
}

#[test]
fn series_decode_errors() {
    let mut start = header();
    start.extend_from_slice(&0u32.to_le_bytes());
    start.extend_from_slice(&1u32.to_le_bytes());
    put_str(&mut start, b"m");

    let mut bytes = start.clone();
    bytes.extend_from_slice(&2u32.to_le_bytes());
    for v in [b"1", b"2"] {
        put_str(&mut bytes, b"a");
        put_str(&mut bytes, v);
    }
    let e = decode(&bytes).unwrap_err();
    assert_eq!(
        e.message(),
        "snapshot: field labels invalid: Labels: duplicate label name \"a\""
    );

    let mut bytes = start.clone();
    bytes.extend_from_slice(&0u32.to_le_bytes());
    bytes.extend_from_slice(&1u32.to_le_bytes());
    bytes.extend_from_slice(&(-7i64).to_le_bytes());
    bytes.extend_from_slice(&0u64.to_le_bytes());
    let e = decode(&bytes).unwrap_err();
    assert_eq!(e.message(), "snapshot: field sample ts invalid: -7");
    assert_eq!(
        SnapshotError::Io("disk".to_string()).message(),
        "snapshot: io error: disk"
    );
    assert_eq!(SnapshotError::BadMagic.message(), "snapshot: bad magic header");
    assert_eq!(
        SnapshotError::Truncated("magic").message(),
        "snapshot: truncated while reading magic"
    );
}

#[test]
fn snapshot_file_in_directory() {
    assert_eq!(snapshot_path("./data"), "./data/snapshot.rmx");
    assert_eq!(snapshot_path("/tmp/"), "/tmp/snapshot.rmx");
    assert_eq!(snapshot_path(""), "snapshot.rmx");
}

#[test]
fn load_never_refuses_to_start() {
    let loaded = load("d/snapshot.rmx", SnapshotFile::Missing);
    assert_eq!(loaded.dump, StoreDump::default());
    assert_eq!(loaded.warning, None);
    assert!(!loaded.quarantine);

    let loaded = load("d/snapshot.rmx", SnapshotFile::Unreadable("denied".to_string()));
    assert_eq!(loaded.dump, StoreDump::default());
    assert_eq!(
        loaded.warning,
        Some("cannot read snapshot d/snapshot.rmx: denied".to_string())
    );
    assert!(!loaded.quarantine);

    let dump = plain_dump();
    let loaded = load("d/snapshot.rmx", SnapshotFile::Contents(encode(&dump)));
    assert_eq!(loaded.dump, dump);
    assert_eq!(loaded.warning, None);
    assert!(!loaded.quarantine);

    let loaded = load("d/snapshot.rmx", SnapshotFile::Contents(b"garbage".to_vec()));
    assert_eq!(loaded.dump, StoreDump::default());
    assert_eq!(
        loaded.warning,
        Some("snapshot: bad magic header; starting fresh".to_string())
    );
    assert!(loaded.quarantine);
}

#[test]
fn store_survives_a_restart() {
    let mut store = MetricStore::new(60_000, 1000);
    store.restore(plain_dump());
    let mut again = MetricStore::new(60_000, 10);
    again.restore(decode(&encode(&store.dump())).unwrap());
    assert_eq!(again.dump(), plain_dump());
}
