use rustmetrics::api::{handle, handle_at, route, AppState, Route};
use rustmetrics::http::client::{read_reply, ScrapeUrl};
use rustmetrics::http::server::{parse_request, write_response};
use rustmetrics::http::{Method, QueryParams, Request, Response};
use rustmetrics::model::TimestampMs;
use rustmetrics::storage::{MetricStore, DEFAULT_MAX_POINTS};
use rustmetrics::textfmt::parse;

fn state() -> AppState {
    AppState::new(MetricStore::new(i64::MAX / 2, DEFAULT_MAX_POINTS))
}

fn get(path_query: &str) -> Request {
    let (path, query) = match path_query.split_once('?') {
        Some((p, q)) => (p.to_string(), QueryParams::parse(q).unwrap()),
        None => (path_query.to_string(), QueryParams::default()),
    };
    Request {
        method: Method::Get,
        path,
        query,
        body: Vec::new(),
    }
}

fn post(path: &str, body: &str) -> Request {
    Request {
        method: Method::Post,
        path: path.to_string(),
        query: QueryParams::default(),
        body: body.as_bytes().to_vec(),
    }
}

fn body_str(r: &Response) -> String {
    String::from_utf8(r.body.clone()).unwrap()
}

#[test]
fn push_then_list_and_query() {
    let mut st = state();
    let now_ms = TimestampMs::now().as_millis();
    let push_body = format!(
        "# TYPE reqs counter\nreqs{{job=\"api\"}} 7 {now_ms}\nreqs{{job=\"web\"}} 3 {now_ms}\n"
    );
    let r = handle(&mut st, post("/api/push", &push_body));
    assert_eq!(r.status, 204, "{}", body_str(&r));

    let r = handle(&mut st, get("/api/metrics"));
    assert_eq!(r.status, 200);
    let b = body_str(&r);
    assert!(b.contains(r#""name":"reqs""#), "{b}");
    assert!(b.contains(r#""kind":"counter""#), "{b}");
    assert!(b.contains(r#""series":2"#), "{b}");

    let r = handle(&mut st, get("/api/query?metric=reqs&label.job=api"));
    assert_eq!(r.status, 200);
    let b = body_str(&r);
    assert!(b.contains(r#""labels":{"job":"api"}"#), "{b}");
    assert!(b.contains(&format!("[{now_ms},7]")), "{b}");
    assert!(!b.contains(r#""job":"web""#), "{b}");
}

#[test]
fn push_error_includes_line() {
    let mut st = state();
    let r = handle(&mut st, post("/api/push", "ok 1\n9bad 2\n"));
    assert_eq!(r.status, 400);
    assert!(body_str(&r).contains("line 2"), "{}", body_str(&r));
}

#[test]
fn labels_endpoint() {
    let mut st = state();
    handle(
        &mut st,
        post("/api/push", "m{a=\"1\",b=\"x\"} 1\nm{a=\"2\"} 1\n"),
    );
    let r = handle(&mut st, get("/api/labels?metric=m"));
    assert_eq!(r.status, 200);
    let b = body_str(&r);
    assert!(b.contains(r#""a":["1","2"]"#), "{b}");
    assert!(b.contains(r#""b":["x"]"#), "{b}");
}

#[test]
fn query_param_validation() {
    let mut st = state();
    assert_eq!(handle(&mut st, get("/api/query")).status, 400);
    assert_eq!(handle(&mut st, get("/api/query?metric=9bad")).status, 400);
    assert_eq!(handle(&mut st, get("/api/query?metric=m&from=abc")).status, 400);
    assert_eq!(handle(&mut st, get("/api/query?metric=m&step=0")).status, 400);
    assert_eq!(
        handle(&mut st, get("/api/query?metric=m&from=2000&to=1000")).status,
        400
    );
    assert_eq!(
        handle(&mut st, get("/api/query?metric=m&label.9x=1")).status,
        400
    );
}

#[test]
fn self_metrics_and_dashboard() {
    let mut st = state();
    handle(&mut st, post("/api/push", "m 1\n"));
    let r = handle(&mut st, get("/metrics"));
    assert_eq!(r.status, 200);
    let b = body_str(&r);
    assert!(b.contains("rustmetrics_ingested_samples_total 1"), "{b}");
    assert!(b.contains("# TYPE rustmetrics_series gauge"), "{b}");

    let r = handle(&mut st, get("/"));
    assert_eq!(r.status, 200);
    assert!(body_str(&r).contains("<html"));
}

#[test]
fn unknown_route_and_wrong_method() {
    let mut st = state();
    assert_eq!(handle(&mut st, get("/nope")).status, 404);
    assert_eq!(handle(&mut st, post("/api/query", "")).status, 405);
    assert_eq!(handle(&mut st, get("/api/push")).status, 405);
}

fn exchange(st: &mut AppState, raw: &str) -> String {
    let response = handle(st, parse_request(raw.as_bytes()).unwrap());
    let mut out = Vec::new();
    write_response(&mut out, &response);
    String::from_utf8(out).unwrap()
}

#[test]
fn push_query_dashboard_end_to_end() {
    let mut st = AppState::new(MetricStore::new(86_400_000, DEFAULT_MAX_POINTS));
    let now = TimestampMs::now().as_millis();

    // push
    let payload = format!(
        "# HELP temp Room temperature.\n# TYPE temp gauge\n\
         temp{{room=\"lab\"}} 21.5 {now}\ntemp{{room=\"hall\"}} 19 {now}\n"
    );
    let resp = exchange(
        &mut st,
        &format!(
            "POST /api/push HTTP/1.1\r\nContent-Length: {}\r\n\r\n{payload}",
            payload.len()
        ),
    );
    assert!(resp.starts_with("HTTP/1.1 204 "));

    // list
    let body = exchange(&mut st, "GET /api/metrics HTTP/1.1\r\n\r\n");
    assert!(body.starts_with("HTTP/1.1 200 "));
    assert!(body.contains(r#""name":"temp""#), "{body}");
    assert!(body.contains(r#""kind":"gauge""#), "{body}");
    assert!(body.contains(r#""help":"Room temperature.""#), "{body}");
    assert!(body.contains(r#""series":2"#), "{body}");

    // labels
    let body = exchange(&mut st, "GET /api/labels?metric=temp HTTP/1.1\r\n\r\n");
    assert!(body.contains(r#""room":["hall","lab"]"#), "{body}");

    // query with label filter
    let body = exchange(
        &mut st,
        "GET /api/query?metric=temp&label.room=lab HTTP/1.1\r\n\r\n",
    );
    assert!(body.starts_with("HTTP/1.1 200 "));
    assert!(body.contains(r#""labels":{"room":"lab"}"#), "{body}");
    assert!(body.contains(&format!("[{now},21.5]")), "{body}");
    assert!(!body.contains(r#""room":"hall""#), "{body}");

    // bad push reports the line
    let body = exchange(
        &mut st,
        "POST /api/push HTTP/1.1\r\nContent-Length: 12\r\n\r\nok 1\nbad{ 2\n",
    );
    assert!(body.starts_with("HTTP/1.1 400 "));
    assert!(body.contains("line 2"), "{body}");

    // dashboard
    let body = exchange(&mut st, "GET / HTTP/1.1\r\n\r\n");
    assert!(body.starts_with("HTTP/1.1 200 "));
    assert!(body.contains("<html"), "{body}");
    assert!(body.contains("rustmetrics"), "{body}");

    // self exposition
    let body = exchange(&mut st, "GET /metrics HTTP/1.1\r\n\r\n");
    assert!(body.starts_with("HTTP/1.1 200 "));
    assert!(
        body.contains("rustmetrics_ingested_samples_total 2"),
        "{body}"
    );
    assert!(body.contains("rustmetrics_http_requests_total"), "{body}");

    // unknown route
    let body = exchange(&mut st, "GET /definitely-missing HTTP/1.1\r\n\r\n");
    assert!(body.starts_with("HTTP/1.1 404 "));
}

#[test]
fn exact_query_body() {
    let mut st = state();
    let now = TimestampMs::new(10_000).unwrap();
    let push = post("/api/push", "m{b=\"x\",a=\"\\\"\"} 1.5 9000\nm 2\nm{a=\"1\"} NaN 9500\n");
    assert_eq!(handle_at(&mut st, push, now).status, 204);
    let r = handle_at(&mut st, get("/api/query?metric=m&from=8000&to=&step=100"), now);
    assert_eq!(
        body_str(&r),
        "{\"metric\":\"m\",\"from\":8000,\"to\":10000,\"step\":100,\"series\":[\
         {\"labels\":{},\"points\":[[10000,2]]},\
         {\"labels\":{\"a\":\"\\\"\",\"b\":\"x\"},\"points\":[[9000,1.5]]},\
         {\"labels\":{\"a\":\"1\"},\"points\":[[9500,null]]}]}"
    );
    let r = handle_at(&mut st, get("/api/query?metric=none"), TimestampMs::new(7_200_000).unwrap());
    assert_eq!(
        body_str(&r),
        "{\"metric\":\"none\",\"from\":3600000,\"to\":7200000,\"step\":12000,\"series\":[]}"
    );
}

#[test]
fn exact_refusals_leave_the_store() {
    let mut st = state();
    let now = TimestampMs::new(10_000).unwrap();
    handle_at(&mut st, post("/api/push", "m 1\n"), now);
    let before = st.store.dump();
    let mut refused = |req: Request| body_str(&handle_at(&mut st, req, now));
    assert_eq!(refused(get("/api/query")), r#"{"error":"query: missing metric param"}"#);
    assert_eq!(
        refused(get("/api/labels?metric=9")),
        r#"{"error":"query: invalid metric name \"9\""}"#
    );
    assert_eq!(
        refused(get("/api/query?metric=m&to=x")),
        r#"{"error":"query: invalid to timestamp \"x\""}"#
    );
    assert_eq!(
        refused(get("/api/query?metric=m&from=20000")),
        r#"{"error":"query: from is after to"}"#
    );
    assert_eq!(
        refused(get("/api/query?metric=m&step=-1")),
        r#"{"error":"query: invalid step \"-1\""}"#
    );
    assert_eq!(
        refused(get("/api/query?metric=m&label.9x=1")),
        r#"{"error":"query: invalid label name \"9x\""}"#
    );
    assert_eq!(refused(get("/api/push")), r#"{"error":"use POST"}"#);
    assert_eq!(refused(post("/", "")), r#"{"error":"method not allowed"}"#);
    assert_eq!(refused(post("/x", "")), r#"{"error":"not found"}"#);
    let mut bad = post("/api/push", "");
    bad.body = vec![0xff];
    assert_eq!(refused(bad), r#"{"error":"push body is not valid UTF-8"}"#);
    assert_eq!(
        refused(post("/api/push", "m 1\nm x\n")),
        r#"{"error":"text format line 2: invalid sample value \"x\""}"#
    );
    assert_eq!(st.store.dump(), before);
    assert_eq!(st.http_requests_total, 12);
}

#[test]
fn exact_self_metrics() {
    let mut st = state();
    let now = TimestampMs::new(10_000).unwrap();
    handle_at(&mut st, post("/api/push", "m 1\nm 2 5\n"), now);
    let r = handle_at(&mut st, get("/metrics"), now);
    assert_eq!(r.content_type, "text/plain; charset=utf-8");
    assert_eq!(
        body_str(&r),
        "# HELP rustmetrics_ingested_samples_total Samples accepted into the store.\n\
         # TYPE rustmetrics_ingested_samples_total counter\n\
         rustmetrics_ingested_samples_total 1\n\
         # HELP rustmetrics_dropped_samples_total Samples dropped (out of order or older than retention).\n\
         # TYPE rustmetrics_dropped_samples_total counter\n\
         rustmetrics_dropped_samples_total 1\n\
         # HELP rustmetrics_series Live time series count.\n\
         # TYPE rustmetrics_series gauge\n\
         rustmetrics_series 1\n\
         # HELP rustmetrics_metrics Distinct metric names.\n\
         # TYPE rustmetrics_metrics gauge\n\
         rustmetrics_metrics 1\n\
         # HELP rustmetrics_http_requests_total HTTP requests handled.\n\
         # TYPE rustmetrics_http_requests_total counter\n\
         rustmetrics_http_requests_total 2\n"
    );
}

#[test]
fn large_counters_round_to_the_nearest_number() {
    let mut st = state();
    st.http_requests_total = u64::MAX - 1;
    let b = body_str(&handle(&mut st, get("/metrics")));
    let want = format!("rustmetrics_http_requests_total {}\n", u64::MAX as f64);
    assert!(b.ends_with(&want), "{b}");
    let b = body_str(&handle(&mut st, get("/metrics")));
    assert!(b.ends_with("rustmetrics_http_requests_total 0\n"), "{b}");
}

#[test]
fn routes() {
    assert_eq!(route(Method::Get, "/"), Route::Dashboard);
    assert_eq!(route(Method::Post, "/api/push"), Route::Push);
    assert_eq!(route(Method::Get, "/metrics"), Route::SelfMetrics);
    assert_eq!(route(Method::Post, "/metrics"), Route::GetOnly);
    assert_eq!(route(Method::Get, "/api/push"), Route::PostOnly);
    assert_eq!(route(Method::Get, "/api/metrics/"), Route::Unknown);
}

#[test]
fn the_system_scrapes_itself() {
    let mut st = state();
    handle(&mut st, post("/api/push", "m 1\nn 2\n"));
    let url = ScrapeUrl::parse("http://localhost:9090/metrics").unwrap();
    let request = parse_request(url.request().as_bytes()).unwrap();
    assert_eq!(request, get("/metrics"));
    let mut bytes = Vec::new();
    write_response(&mut bytes, &handle(&mut st, request));
    let read = parse(&read_reply(&bytes).unwrap()).unwrap();
    let shown: Vec<(&str, f64)> = read
        .samples
        .iter()
        .map(|s| (s.key.name.as_str(), f64::from_bits(s.value)))
        .collect();
    assert_eq!(
        shown,
        vec![
            ("rustmetrics_ingested_samples_total", 2.0),
            ("rustmetrics_dropped_samples_total", 0.0),
            ("rustmetrics_series", 2.0),
            ("rustmetrics_metrics", 2.0),
            ("rustmetrics_http_requests_total", 2.0),
        ]
    );
    assert_eq!(read.metas.len(), 5);
}

#[test]
fn last_sample_of_a_pushed_series_is_shown() {
    let mut st = state();
    let now = TimestampMs::new(10_000).unwrap();
    let body = "m 1 9000\nn 5 9000\nm 2 9500\nm 3 9100\n";
    assert_eq!(handle_at(&mut st, post("/api/push", body), now).status, 204);
    let b = body_str(&handle_at(&mut st, get("/api/query?metric=m&step=1"), now));
    assert!(b.ends_with("\"points\":[[9000,1],[9500,2]]}]}"), "{b}");
    let b = body_str(&handle_at(&mut st, get("/api/query?metric=n&step=1"), now));
    assert!(b.ends_with("\"points\":[[9000,5]]}]}"), "{b}");
}
