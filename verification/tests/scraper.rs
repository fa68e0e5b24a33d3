use rustmetrics::model::{MetricKind, MetricName, TimestampMs};
use rustmetrics::scraper::{check_status, record_scrape};
use rustmetrics::storage::{MetricStore, QueryRange, DEFAULT_MAX_POINTS};

const TARGET: &str = "http://127.0.0.1:9100/metrics";

fn query_value(store: &MetricStore, metric: &str) -> Option<f64> {
    let range = QueryRange {
        from: TimestampMs::new(0).unwrap(),
        to: TimestampMs::now(),
        step_ms: 1,
    };
    store
        .query(&MetricName::parse(metric).unwrap(), &[], &range)
        .first()
        .and_then(|s| s.points.last().map(|p| f64::from_bits(p.value)))
}

fn scrape(store: &mut MetricStore, fetched: Result<String, String>) -> Option<String> {
    record_scrape(store, TARGET, fetched, 0.25f64.to_bits(), TimestampMs::now())
}

#[test]
fn successful_scrape_ingests_and_marks_up() {
    let mut store = MetricStore::new(i64::MAX / 2, DEFAULT_MAX_POINTS);
    let failure = scrape(&mut store, Ok("# TYPE t gauge\nt 42\n".to_string()));
    assert_eq!(failure, None);
    assert_eq!(query_value(&store, "t"), Some(42.0));
    assert_eq!(query_value(&store, "up"), Some(1.0));
    assert!(query_value(&store, "scrape_duration_seconds").is_some());
}

#[test]
fn failed_scrape_marks_down() {
    let mut store = MetricStore::new(i64::MAX / 2, DEFAULT_MAX_POINTS);
    let failure = scrape(&mut store, Err("connection refused".to_string()));
    assert_eq!(failure, Some("connection refused".to_string()));
    assert_eq!(query_value(&store, "up"), Some(0.0));
}

#[test]
fn unparseable_body_marks_down() {
    let mut store = MetricStore::new(i64::MAX / 2, DEFAULT_MAX_POINTS);
    let failure = scrape(&mut store, Ok("!!! not metrics !!!\n".to_string())).unwrap();
    assert_eq!(
        failure,
        "parse failed: text format line 1: invalid metric name \"!!!\""
    );
    assert_eq!(query_value(&store, "up"), Some(0.0));
}

#[test]
fn own_series_carry_the_instance() {
    let mut store = MetricStore::new(i64::MAX / 2, DEFAULT_MAX_POINTS);
    scrape(&mut store, Ok(String::new()));
    let dump = store.dump();
    assert_eq!(dump.series.len(), 2);
    for (key, samples) in &dump.series {
        assert_eq!(key.labels.get("instance").unwrap().as_str(), TARGET);
        assert_eq!(samples.len(), 1);
    }
    assert_eq!(query_value(&store, "scrape_duration_seconds"), Some(0.25));
    assert!(dump.metas.iter().all(|(_, m)| m.kind == MetricKind::Gauge));
    assert_eq!(dump.metas[1].1.help, "1 if the last scrape of the target succeeded.");
}

#[test]
fn status_codes() {
    assert_eq!(check_status(200), Ok(()));
    assert_eq!(check_status(299), Ok(()));
    assert_eq!(check_status(199), Err("target returned HTTP 199".to_string()));
    assert_eq!(check_status(503), Err("target returned HTTP 503".to_string()));
}
