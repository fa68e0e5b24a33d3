use rustmetrics::model::{
    LabelName, LabelValue, Labels, MetricKind, MetricMeta, MetricName, SeriesKey, TimestampMs,
};
use rustmetrics::textfmt::{encode_meta, encode_sample, parse, TextParseErrorKind};

fn key(name: &str, labels: &[(&str, &str)]) -> SeriesKey {
    SeriesKey {
        name: MetricName::parse(name).unwrap(),
        labels: Labels::new(
            labels
                .iter()
                .map(|(n, v)| (LabelName::parse(n).unwrap(), LabelValue::new(*v)))
                .collect(),
        )
        .unwrap(),
    }
}

fn value(bits: u64) -> f64 {
    f64::from_bits(bits)
}

#[test]
fn parses_bare_sample() {
    let p = parse("up 1\n").unwrap();
    assert_eq!(p.samples.len(), 1);
    assert_eq!(p.samples[0].key, key("up", &[]));
    assert_eq!(value(p.samples[0].value), 1.0);
    assert_eq!(p.samples[0].ts, None);
}

#[test]
fn parses_labels_value_timestamp() {
    let p = parse("http_requests_total{method=\"post\",code=\"200\"} 1027 1395066363000\n").unwrap();
    let s = &p.samples[0];
    assert_eq!(
        s.key,
        key(
            "http_requests_total",
            &[("code", "200"), ("method", "post")]
        )
    );
    assert_eq!(value(s.value), 1027.0);
    assert_eq!(s.ts.unwrap().as_millis(), 1_395_066_363_000);
}

#[test]
fn parses_escapes_in_label_values() {
    let p = parse(r#"msg{path="C:\\dir",text="a\"b\nc"} 1"#).unwrap();
    let s = &p.samples[0];
    assert_eq!(s.key.labels.get("path").unwrap().as_str(), "C:\\dir");
    assert_eq!(s.key.labels.get("text").unwrap().as_str(), "a\"b\nc");
}

#[test]
fn parses_special_values() {
    let p = parse("a NaN\nb +Inf\nc -Inf\nd 3.5e-2\n").unwrap();
    assert!(value(p.samples[0].value).is_nan());
    assert_eq!(value(p.samples[1].value), f64::INFINITY);
    assert_eq!(value(p.samples[2].value), f64::NEG_INFINITY);
    assert_eq!(value(p.samples[3].value), 0.035);
}

#[test]
fn parses_help_and_type() {
    let p = parse(
        "# HELP http_requests_total Total requests.\n# TYPE http_requests_total counter\nhttp_requests_total 5\n",
    )
    .unwrap();
    assert_eq!(p.metas.len(), 1);
    let (name, meta) = &p.metas[0];
    assert_eq!(name.as_str(), "http_requests_total");
    assert_eq!(meta.kind, MetricKind::Counter);
    assert_eq!(meta.help, "Total requests.");
}

#[test]
fn ignores_plain_comments_and_blank_lines() {
    let p = parse("# just a comment\n\n  \nup 1\n").unwrap();
    assert_eq!(p.samples.len(), 1);
    assert!(p.metas.is_empty());
}

#[test]
fn errors_name_line_numbers() {
    let e = parse("up 1\n9bad 2\n").unwrap_err();
    assert_eq!(e.line, 2);
    assert_eq!(
        e.kind,
        TextParseErrorKind::InvalidMetricName("9bad".to_string())
    );
}

#[test]
fn errors_on_missing_value_and_bad_value() {
    assert_eq!(
        parse("up\n").unwrap_err().kind,
        TextParseErrorKind::MissingValue
    );
    assert_eq!(
        parse("up abc\n").unwrap_err().kind,
        TextParseErrorKind::InvalidValue("abc".to_string())
    );
}

#[test]
fn errors_on_unterminated_labels() {
    assert_eq!(
        parse("up{a=\"1\" 1\n").unwrap_err().kind,
        TextParseErrorKind::UnterminatedLabels
    );
}

#[test]
fn errors_on_duplicate_label() {
    assert_eq!(
        parse("up{a=\"1\",a=\"2\"} 1\n").unwrap_err().kind,
        TextParseErrorKind::DuplicateLabel("a".to_string())
    );
}

#[test]
fn histogram_series_ingest_as_plain_samples() {
    let p = parse("h_bucket{le=\"0.5\"} 3\nh_bucket{le=\"+Inf\"} 5\nh_sum 12.5\nh_count 5\n").unwrap();
    assert_eq!(p.samples.len(), 4);
    assert_eq!(p.samples[0].key.labels.get("le").unwrap().as_str(), "0.5");
}

#[test]
fn encode_parse_round_trip() {
    let k = key("weird", &[("a", "x\\y\"z\nw"), ("b", "plain")]);
    let mut out = String::new();
    encode_meta(
        &mut out,
        &k.name,
        &MetricMeta {
            kind: MetricKind::Gauge,
            help: "multi\nline \\help".to_string(),
        },
    );
    encode_sample(&mut out, &k, 42.5f64.to_bits(), Some(TimestampMs::new(1000).unwrap()));
    encode_sample(&mut out, &key("inf_val", &[]), f64::INFINITY.to_bits(), None);

    let p = parse(&out).unwrap();
    assert_eq!(p.samples[0].key, k);
    assert_eq!(value(p.samples[0].value), 42.5);
    assert_eq!(p.samples[0].ts.unwrap().as_millis(), 1000);
    assert_eq!(value(p.samples[1].value), f64::INFINITY);
    assert_eq!(p.metas[0].1.help, "multi\nline \\help");
    assert_eq!(p.metas[0].1.kind, MetricKind::Gauge);
}

#[test]
fn encoded_text() {
    let mut out = String::new();
    let k = key("m", &[("b", "q\"\\\n"), ("a", "1")]);
    encode_meta(
        &mut out,
        &k.name,
        &MetricMeta { kind: MetricKind::Counter, help: "a\\b\nc".to_string() },
    );
    encode_sample(&mut out, &k, 0.5f64.to_bits(), Some(TimestampMs::new(7).unwrap()));
    encode_sample(&mut out, &key("n", &[]), f64::NEG_INFINITY.to_bits(), None);
    encode_sample(&mut out, &key("n", &[]), f64::NAN.to_bits(), None);
    assert_eq!(
        out,
        "# HELP m a\\\\b\\nc\n# TYPE m counter\nm{a=\"1\",b=\"q\\\"\\\\\\n\"} 0.5 7\nn -Inf\nn NaN\n"
    );
    let mut bare = String::new();
    encode_meta(&mut bare, &k.name, &MetricMeta::default());
    assert_eq!(bare, "# TYPE m untyped\n");
}

#[test]
fn each_error_kind() {
    let kind = |s: &str| parse(s).unwrap_err().kind;
    assert_eq!(
        kind("m{1x=\"a\"} 1"),
        TextParseErrorKind::InvalidLabelName("1x".to_string())
    );
    assert_eq!(kind("m{a=\"\\x\"} 1"), TextParseErrorKind::BadEscape('x'));
    assert_eq!(kind("m{a=\"\\"), TextParseErrorKind::UnterminatedLabels);
    assert_eq!(kind("m{a=b} 1"), TextParseErrorKind::UnterminatedLabels);
    assert_eq!(
        kind("m 1 -5"),
        TextParseErrorKind::InvalidTimestamp("-5".to_string())
    );
    assert_eq!(
        kind("m 1 soon"),
        TextParseErrorKind::InvalidTimestamp("soon".to_string())
    );
    assert_eq!(
        kind("m 1 2 3"),
        TextParseErrorKind::Malformed("trailing tokens after timestamp".to_string())
    );
    assert_eq!(
        kind("# TYPE m color"),
        TextParseErrorKind::InvalidType("color".to_string())
    );
    assert_eq!(kind("# TYPE m"), TextParseErrorKind::InvalidType("".to_string()));
    assert_eq!(
        kind("#HELP 9m text"),
        TextParseErrorKind::InvalidMetricName("9m".to_string())
    );
}

#[test]
fn error_messages_name_the_line() {
    assert_eq!(
        parse("\n\nm{a=\"\\q\"} 1").unwrap_err().message(),
        "text format line 3: bad escape sequence \\q"
    );
    assert_eq!(
        parse("up").unwrap_err().message(),
        "text format line 1: missing sample value"
    );
    assert_eq!(
        parse("up x\"").unwrap_err().message(),
        "text format line 1: invalid sample value \"x\\\"\""
    );
    assert_eq!(
        parse("up 1 2 3").unwrap_err().message(),
        "text format line 1: malformed line: trailing tokens after timestamp"
    );
}

#[test]
fn spacing_and_carriage_returns() {
    let p = parse("#\tTYPE\tm\tgauge\r\n  m { , a = \"1\" , } \t 2  9 \r\n").unwrap_err();
    assert_eq!(p.kind, TextParseErrorKind::InvalidValue("{".to_string()));
    let p = parse("# TYPE\tm\tgauge\r\n  m{ , a =  \"1\" , } \t 2  9 \r\n").unwrap();
    assert_eq!(p.metas[0].1.kind, MetricKind::Gauge);
    assert_eq!(p.samples[0].key, key("m", &[("a", "1")]));
    assert_eq!(value(p.samples[0].value), 2.0);
    assert_eq!(p.samples[0].ts.unwrap().as_millis(), 9);
}

#[test]
fn metas_are_sorted_and_merged() {
    let p = parse("# TYPE z gauge\n# HELP a first\\\\\\n\\t\n# TYPE a summary\n# HELP z\n").unwrap();
    let listed: Vec<(&str, MetricKind, &str)> =
        p.metas.iter().map(|(n, m)| (n.as_str(), m.kind, m.help.as_str())).collect();
    assert_eq!(
        listed,
        vec![("a", MetricKind::Summary, "first\\\n\\t"), ("z", MetricKind::Gauge, "")]
    );
}

#[test]
fn label_sets_end_with_their_brace() {
    for tail in [" 1", " 1 5", "} 1", "x 1", ""] {
        let line = format!("m{{a=\"}}\", b=\"2\",}}{tail}\n");
        match parse(&line) {
            Ok(p) => {
                assert_eq!(p.samples[0].key, key("m", &[("a", "}"), ("b", "2")]));
                assert!(tail.starts_with(" 1"));
            }
            Err(e) => assert!(!tail.starts_with(" 1"), "{e:?}"),
        }
    }
}

#[test]
fn payloads_in_a_row() {
    let a = "# HELP m x\nm 1\n\n";
    let b = "# TYPE m gauge\nn 2";
    let whole = parse(&format!("{a}{b}")).unwrap();
    let (x, y) = (parse(a).unwrap(), parse(b).unwrap());
    assert_eq!(whole.samples[..1], x.samples[..]);
    assert_eq!(whole.samples[1..], y.samples[..]);
    assert_eq!(whole.metas.len(), 1);
    assert_eq!(whole.metas[0].1.help, "x");
    assert_eq!(whole.metas[0].1.kind, MetricKind::Gauge);

    let bad = parse("ok 1\n9 2\n").unwrap_err();
    assert_eq!(parse(&format!("{a}ok 1\n9 2\n")).unwrap_err().line, bad.line + 3);
    for rest in ["", "more 1\n", "9 9 9\n"] {
        assert_eq!(parse(&format!("ok 1\n9 2\n{rest}")).unwrap_err(), bad);
    }
}
