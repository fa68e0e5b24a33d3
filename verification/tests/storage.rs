use rustmetrics::model::{
    LabelName, LabelValue, Labels, MetricKind, MetricMeta, MetricName, Sample, ScrapedSample,
    SeriesKey, TimestampMs,
};
use rustmetrics::storage::{MetricStore, QueryRange, StoreDump};

fn name(s: &str) -> MetricName {
    MetricName::parse(s).unwrap()
}

fn labels(pairs: &[(&str, &str)]) -> Labels {
    Labels::new(
        pairs
            .iter()
            .map(|(n, v)| (LabelName::parse(n).unwrap(), LabelValue::new(*v)))
            .collect(),
    )
    .unwrap()
}

fn sample(metric: &str, lbls: &[(&str, &str)], ts: i64, value: f64) -> ScrapedSample {
    ScrapedSample {
        key: SeriesKey {
            name: name(metric),
            labels: labels(lbls),
        },
        value: value.to_bits(),
        ts: Some(TimestampMs::new(ts).unwrap()),
    }
}

fn ts(ms: i64) -> TimestampMs {
    TimestampMs::new(ms).unwrap()
}

fn value(s: &Sample) -> f64 {
    f64::from_bits(s.value)
}

#[test]
fn ingest_and_query_basic() {
    let mut store = MetricStore::new(1_000_000, 100);
    store.ingest(
        vec![
            sample("m", &[("a", "1")], 1000, 1.0),
            sample("m", &[("a", "1")], 2000, 2.0),
            sample("m", &[("a", "2")], 1500, 9.0),
        ],
        vec![],
        ts(2000),
    );
    let range = QueryRange {
        from: ts(0),
        to: ts(5000),
        step_ms: 1,
    };
    let result = store.query(&name("m"), &[], &range);
    assert_eq!(result.len(), 2);
    assert_eq!(result[0].labels, labels(&[("a", "1")]));
    assert_eq!(result[0].points.len(), 2);
    assert_eq!(value(&result[1].points[0]), 9.0);
}

#[test]
fn label_filter_narrows_query() {
    let mut store = MetricStore::new(1_000_000, 100);
    store.ingest(
        vec![
            sample("m", &[("a", "1")], 1000, 1.0),
            sample("m", &[("a", "2")], 1000, 2.0),
        ],
        vec![],
        ts(1000),
    );
    let range = QueryRange {
        from: ts(0),
        to: ts(5000),
        step_ms: 1,
    };
    let result = store.query(
        &name("m"),
        &[(LabelName::parse("a").unwrap(), LabelValue::new("2"))],
        &range,
    );
    assert_eq!(result.len(), 1);
    assert_eq!(value(&result[0].points[0]), 2.0);
}

#[test]
fn out_of_order_samples_dropped() {
    let mut store = MetricStore::new(1_000_000, 100);
    store.ingest(
        vec![sample("m", &[], 2000, 1.0), sample("m", &[], 1000, 0.5)],
        vec![],
        ts(2000),
    );
    let stats = store.stats();
    assert_eq!(stats.ingested_total, 1);
    assert_eq!(stats.dropped_total, 1);
}

#[test]
fn ring_buffer_caps_points() {
    let mut store = MetricStore::new(i64::MAX / 2, 3);
    let samples = (1..=5)
        .map(|i| sample("m", &[], i * 1000, i as f64))
        .collect();
    store.ingest(samples, vec![], ts(5000));
    let range = QueryRange {
        from: ts(0),
        to: ts(10_000),
        step_ms: 1,
    };
    let result = store.query(&name("m"), &[], &range);
    assert_eq!(result[0].points.len(), 3);
    assert_eq!(value(&result[0].points[0]), 3.0);
}

#[test]
fn retention_prunes_old_samples() {
    let mut store = MetricStore::new(10_000, 100);
    store.ingest(vec![sample("m", &[], 1000, 1.0)], vec![], ts(1000));
    store.ingest(vec![sample("m", &[], 20_000, 2.0)], vec![], ts(20_000));
    let range = QueryRange {
        from: ts(0),
        to: ts(30_000),
        step_ms: 1,
    };
    let result = store.query(&name("m"), &[], &range);
    assert_eq!(result[0].points.len(), 1);
    assert_eq!(value(&result[0].points[0]), 2.0);

    store.prune(ts(100_000));
    assert_eq!(store.stats().series_count, 0);
}

#[test]
fn too_old_incoming_sample_dropped() {
    let mut store = MetricStore::new(10_000, 100);
    store.ingest(vec![sample("m", &[], 1000, 1.0)], vec![], ts(50_000));
    assert_eq!(store.stats().dropped_total, 1);
    assert_eq!(store.stats().series_count, 0);
}

#[test]
fn step_bucketing_keeps_last_per_bucket() {
    let mut store = MetricStore::new(1_000_000, 100);
    let samples = (0..10)
        .map(|i| sample("m", &[], i * 100, i as f64))
        .collect();
    store.ingest(samples, vec![], ts(1000));
    let range = QueryRange {
        from: ts(0),
        to: ts(1000),
        step_ms: 500,
    };
    let result = store.query(&name("m"), &[], &range);
    // buckets [0,500) and [500,1000): last of each = 4.0 and 9.0
    let values: Vec<f64> = result[0].points.iter().map(value).collect();
    assert_eq!(values, vec![4.0, 9.0]);
}

#[test]
fn metas_merge_and_list() {
    let mut store = MetricStore::new(1_000_000, 100);
    store.ingest(
        vec![sample("m", &[], 1000, 1.0)],
        vec![(
            name("m"),
            MetricMeta {
                kind: MetricKind::Counter,
                help: "helpful".to_string(),
            },
        )],
        ts(1000),
    );
    let list = store.list_metrics();
    assert_eq!(list.len(), 1);
    assert_eq!(list[0].meta.kind, MetricKind::Counter);
    assert_eq!(list[0].meta.help, "helpful");
    assert_eq!(list[0].series_count, 1);
}

#[test]
fn dump_restore_round_trip() {
    let mut store = MetricStore::new(1_000_000, 100);
    store.ingest(
        vec![
            sample("m", &[("a", "1")], 1000, 1.0),
            sample("n", &[], 2000, 2.0),
        ],
        vec![],
        ts(2000),
    );
    let dump = store.dump();
    let mut store2 = MetricStore::new(1_000_000, 100);
    store2.restore(dump.clone());
    assert_eq!(store2.dump(), dump);
}

#[test]
fn label_values_collects() {
    let mut store = MetricStore::new(1_000_000, 100);
    store.ingest(
        vec![
            sample("m", &[("a", "1"), ("b", "x")], 1000, 1.0),
            sample("m", &[("a", "2")], 1000, 1.0),
        ],
        vec![],
        ts(1000),
    );
    let lv = store.label_values(&name("m"));
    assert_eq!(lv.len(), 2);
    assert_eq!(lv.get(&LabelName::parse("a").unwrap()).unwrap().len(), 2);
}

#[test]
fn label_values_are_sorted_sets_of_one_metric() {
    let mut store = MetricStore::new(1_000_000, 100);
    store.ingest(
        vec![
            sample("m", &[("b", "y"), ("a", "2")], 1000, 1.0),
            sample("m", &[("a", "1"), ("b", "y")], 1000, 1.0),
            sample("other", &[("a", "9")], 1000, 1.0),
        ],
        vec![],
        ts(1000),
    );
    let lv = store.label_values(&name("m"));
    let listed: Vec<(&str, Vec<&str>)> = lv
        .entries()
        .iter()
        .map(|(n, vs)| (n.as_str(), (0..vs.len()).map(|i| vs.item_at(i).as_str()).collect()))
        .collect();
    assert_eq!(listed, vec![("a", vec!["1", "2"]), ("b", vec!["y"])]);
    assert_eq!(store.label_values(&name("none")).len(), 0);
}

#[test]
fn metrics_are_listed_by_name_with_counts() {
    let mut store = MetricStore::new(1_000_000, 100);
    store.ingest(
        vec![
            sample("z", &[], 1000, 1.0),
            sample("a", &[("k", "1")], 1000, 1.0),
            sample("a", &[("k", "2")], 1000, 1.0),
            sample("m", &[], 1000, 1.0),
        ],
        vec![],
        ts(1000),
    );
    let listed: Vec<(String, usize)> = store
        .list_metrics()
        .iter()
        .map(|i| (i.name.as_str().to_string(), i.series_count))
        .collect();
    assert_eq!(
        listed,
        vec![("a".to_string(), 2), ("m".to_string(), 1), ("z".to_string(), 1)]
    );
    let stats = store.stats();
    assert_eq!(stats.series_count, 4);
    assert_eq!(stats.metric_count, 3);
}

#[test]
fn unstamped_samples_get_now_and_equal_times_are_kept() {
    let mut store = MetricStore::new(1_000_000, 100);
    let mut s = sample("m", &[], 0, 3.0);
    s.ts = None;
    store.ingest(vec![s, sample("m", &[], 5000, 4.0)], vec![], ts(5000));
    let dump = store.dump();
    let seen: Vec<(i64, f64)> =
        dump.series[0].1.iter().map(|p| (p.ts.as_millis(), value(p))).collect();
    assert_eq!(seen, vec![(5000, 3.0), (5000, 4.0)]);
}

#[test]
fn written_sample_is_read_and_others_stay() {
    let mut store = MetricStore::new(1_000_000, 100);
    store.ingest(vec![sample("m", &[("a", "1")], 1000, 1.0)], vec![], ts(1000));
    let before = store.dump();
    store.ingest(vec![sample("m", &[("a", "2")], 2000, 7.0)], vec![], ts(2000));
    let range = QueryRange { from: ts(2000), to: ts(2000), step_ms: 60_000 };
    let filter = [(LabelName::parse("a").unwrap(), LabelValue::new("2"))];
    let result = store.query(&name("m"), &filter, &range);
    assert_eq!(result.len(), 1);
    assert_eq!(value(result[0].points.last().unwrap()), 7.0);
    assert_eq!(store.dump().series[0], before.series[0]);
}

#[test]
fn refused_samples_change_nothing() {
    let mut store = MetricStore::new(10_000, 100);
    store.ingest(vec![sample("m", &[], 20_000, 1.0)], vec![], ts(20_000));
    let before = store.dump();
    store.ingest(
        vec![sample("m", &[], 19_999, 2.0), sample("n", &[], 9_999, 3.0)],
        vec![],
        ts(20_000),
    );
    assert_eq!(store.dump(), before);
    assert_eq!(store.stats().ingested_total + store.stats().dropped_total, 3);
}

#[test]
fn pruning_is_idempotent_and_keeps_recent_samples() {
    let mut store = MetricStore::new(10_000, 100);
    store.ingest(
        vec![
            sample("m", &[], 1000, 1.0),
            sample("m", &[], 9000, 2.0),
            sample("old", &[], 1000, 3.0),
        ],
        vec![],
        ts(9000),
    );
    store.prune(ts(15_000));
    let once = store.dump();
    assert_eq!(once.series.len(), 1);
    assert_eq!(once.series[0].1.len(), 1);
    assert_eq!(value(&once.series[0].1[0]), 2.0);
    store.prune(ts(15_000));
    assert_eq!(store.dump(), once);
}

#[test]
fn store_without_room_keeps_an_empty_series() {
    let mut store = MetricStore::new(10_000, 0);
    store.ingest(vec![sample("m", &[], 1000, 1.0)], vec![], ts(1000));
    assert_eq!(store.stats().series_count, 1);
    assert_eq!(store.stats().ingested_total, 1);
    assert!(store.dump().series[0].1.is_empty());
    let range = QueryRange { from: ts(0), to: ts(5000), step_ms: 0 };
    assert!(store.query(&name("m"), &[], &range).is_empty());
}

#[test]
fn help_survives_an_empty_update() {
    let mut store = MetricStore::new(1_000_000, 100);
    let meta = |kind, help: &str| vec![(name("m"), MetricMeta { kind, help: help.to_string() })];
    store.ingest(vec![], meta(MetricKind::Counter, "text"), ts(0));
    store.ingest(vec![], meta(MetricKind::Gauge, ""), ts(0));
    let metas = store.dump().metas;
    assert_eq!(metas[0].1.kind, MetricKind::Gauge);
    assert_eq!(metas[0].1.help, "text");
}

#[test]
fn restore_takes_the_last_of_duplicates() {
    let key = SeriesKey { name: name("m"), labels: labels(&[]) };
    let point = |ms: i64, v: f64| Sample { ts: ts(ms), value: v.to_bits() };
    let mut store = MetricStore::new(1_000_000, 100);
    store.restore(StoreDump {
        series: vec![(key.clone(), vec![point(1, 1.0)]), (key.clone(), vec![point(2, 2.0)])],
        metas: vec![],
    });
    let dump = store.dump();
    assert_eq!(dump.series, vec![(key, vec![point(2, 2.0)])]);
    assert_eq!(store.stats().ingested_total, 0);
}

#[test]
fn kept_samples_are_the_latest() {
    let mut store = MetricStore::new(1_000, 3);
    let times = [100, 200, 150, 300, 300, 900, 1_000];
    let batch = times.iter().map(|t| sample("m", &[], *t, *t as f64)).collect();
    store.ingest(batch, vec![], ts(1_000));
    let kept: Vec<i64> = store.dump().series[0].1.iter().map(|s| s.ts.as_millis()).collect();
    assert_eq!(kept, vec![300, 900, 1_000]);
}
