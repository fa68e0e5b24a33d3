use rustmetrics::model::{
    LabelName, LabelValue, Labels, MAX_TIMESTAMP_MS, MetricKind, MetricMeta, MetricName, ModelError, Sample, ScrapedSample, SeriesKey, TimestampMs,
};

#[test]
fn metric_name_accepts_valid() {
    for s in ["a", "http_requests_total", "_x", "ns:sub:metric", "A9_z"] {
        assert!(MetricName::parse(s).is_ok(), "{s}");
    }
}

#[test]
fn metric_name_rejects_invalid() {
    for s in ["", "9abc", "with-dash", "with space", "é"] {
        assert!(MetricName::parse(s).is_err(), "{s}");
    }
}

#[test]
fn label_name_accepts_and_rejects() {
    assert!(LabelName::parse("instance").is_ok());
    assert!(LabelName::parse("_priv").is_ok());
    assert!(LabelName::parse("le").is_ok());
    assert!(LabelName::parse("9x").is_err());
    assert!(LabelName::parse("a:b").is_err());
    assert!(LabelName::parse("").is_err());
}

#[test]
fn labels_sorted_and_unique() {
    let l = Labels::new(vec![
        (LabelName::parse("b").unwrap(), LabelValue::new("2")),
        (LabelName::parse("a").unwrap(), LabelValue::new("1")),
    ])
    .unwrap();
    let names: Vec<&str> = l.iter().map(|(n, _)| n.as_str()).collect();
    assert_eq!(names, vec!["a", "b"]);

    let dup = Labels::new(vec![
        (LabelName::parse("a").unwrap(), LabelValue::new("1")),
        (LabelName::parse("a").unwrap(), LabelValue::new("2")),
    ]);
    assert_eq!(dup, Err(ModelError::DuplicateLabel("a".to_string())));
}

#[test]
fn labels_identity_is_order_independent() {
    let a = Labels::new(vec![
        (LabelName::parse("x").unwrap(), LabelValue::new("1")),
        (LabelName::parse("y").unwrap(), LabelValue::new("2")),
    ])
    .unwrap();
    let b = Labels::new(vec![
        (LabelName::parse("y").unwrap(), LabelValue::new("2")),
        (LabelName::parse("x").unwrap(), LabelValue::new("1")),
    ])
    .unwrap();
    assert_eq!(a, b);
}

#[test]
fn timestamp_bounds() {
    assert!(TimestampMs::new(0).is_ok());
    assert!(TimestampMs::new(-1).is_err());
    assert!(TimestampMs::new(i64::MAX).is_err());
    assert!(TimestampMs::now().as_millis() > 1_600_000_000_000);
}

#[test]
fn metric_kind_parse() {
    assert_eq!(MetricKind::parse("gauge"), Ok(MetricKind::Gauge));
    assert!(MetricKind::parse("Gauge").is_err());
}

#[test]
fn kind_words_read_back() {
    for kind in [
        MetricKind::Counter,
        MetricKind::Gauge,
        MetricKind::Histogram,
        MetricKind::Summary,
        MetricKind::Untyped,
    ] {
        assert_eq!(MetricKind::parse(kind.as_str()), Ok(kind));
    }
    assert_eq!(
        MetricKind::parse("x\"y").unwrap_err().message(),
        "MetricKind: unknown kind \"x\\\"y\""
    );
}

#[test]
fn error_messages() {
    assert_eq!(
        MetricName::parse("9 a").unwrap_err().message(),
        "MetricName: invalid name \"9 a\""
    );
    assert_eq!(
        LabelName::parse("a\nb").unwrap_err().message(),
        "LabelName: invalid name \"a\\nb\""
    );
    assert_eq!(
        TimestampMs::new(-5).unwrap_err().message(),
        "TimestampMs: value -5 out of range"
    );
    assert_eq!(
        ModelError::DuplicateLabel("a".to_string()).message(),
        "Labels: duplicate label name \"a\""
    );
}

#[test]
fn least_duplicate_is_reported() {
    let pair = |n: &str, v: &str| (LabelName::parse(n).unwrap(), LabelValue::new(v));
    let dup = Labels::new(vec![
        pair("c", "1"),
        pair("b", "1"),
        pair("c", "2"),
        pair("a", "1"),
        pair("b", "2"),
    ]);
    assert_eq!(dup, Err(ModelError::DuplicateLabel("b".to_string())));
}

#[test]
fn labels_lookup_and_clone() {
    let l = Labels::new(vec![
        (LabelName::parse("job").unwrap(), LabelValue::new("api")),
        (LabelName::parse("code").unwrap(), LabelValue::new("200")),
    ])
    .unwrap();
    assert_eq!(l.len(), 2);
    assert!(!l.is_empty());
    assert!(Labels::empty().is_empty());
    assert_eq!(Labels::default(), Labels::empty());
    assert_eq!(l.get("code").map(|v| v.as_str()), Some("200"));
    assert_eq!(l.get("nope"), None);
    assert_eq!(l.clone(), l);
}

#[test]
fn timestamp_arithmetic_stays_in_range() {
    let t = TimestampMs::new(10_000).unwrap();
    assert_eq!(t.saturating_sub_millis(4_000).as_millis(), 6_000);
    assert_eq!(t.saturating_sub_millis(i64::MAX).as_millis(), 0);
    assert_eq!(t.saturating_sub_millis(i64::MIN).as_millis(), MAX_TIMESTAMP_MS);
    assert_eq!(TimestampMs::new(MAX_TIMESTAMP_MS).unwrap().as_millis(), 253_402_300_799_000);
    assert_eq!(
        TimestampMs::new(MAX_TIMESTAMP_MS + 1),
        Err(ModelError::TimestampOutOfRange(253_402_300_799_001))
    );
    assert_eq!(TimestampMs::from_clock(None).as_millis(), 0);
    assert_eq!(TimestampMs::from_clock(Some(77)).as_millis(), 77);
    assert_eq!(TimestampMs::from_clock(Some(u128::MAX)).as_millis(), MAX_TIMESTAMP_MS);
}

#[test]
fn default_meta_is_untyped() {
    let meta = MetricMeta::default();
    assert_eq!(meta.kind, MetricKind::Untyped);
    assert_eq!(meta.help, "");
}

#[test]
fn samples_compare_as_numbers() {
    let sample = |ms: i64, v: f64| Sample {
        ts: TimestampMs::new(ms).unwrap(),
        value: v.to_bits(),
    };
    assert_eq!(sample(1, 2.5), sample(1, 2.5));
    assert_ne!(sample(1, 2.5), sample(2, 2.5));
    assert_ne!(sample(1, 2.5), sample(1, -2.5));
    assert_eq!(sample(1, 0.0), sample(1, -0.0));
    assert_ne!(sample(1, f64::NAN), sample(1, f64::NAN));
    assert_eq!(sample(1, f64::INFINITY), sample(1, f64::INFINITY));
    assert_ne!(sample(1, f64::INFINITY), sample(1, f64::NEG_INFINITY));
    assert_ne!(vec![sample(1, f64::NAN)], vec![sample(1, f64::NAN)]);

    let scraped = |name: &str, v: f64, ts: Option<i64>| ScrapedSample {
        key: SeriesKey {
            name: MetricName::parse(name).unwrap(),
            labels: Labels::empty(),
        },
        value: v.to_bits(),
        ts: ts.map(|ms| TimestampMs::new(ms).unwrap()),
    };
    assert_eq!(scraped("a", 1.0, Some(5)), scraped("a", 1.0, Some(5)));
    assert_eq!(scraped("a", 0.0, None), scraped("a", -0.0, None));
    assert_ne!(scraped("a", 1.0, None), scraped("b", 1.0, None));
    assert_ne!(scraped("a", 1.0, None), scraped("a", 1.0, Some(5)));
    assert_ne!(scraped("a", f64::NAN, None), scraped("a", f64::NAN, None));
}
