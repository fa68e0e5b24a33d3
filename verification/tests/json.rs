use rustmetrics::json::{escape_str, number, JsonWriter};

#[test]
fn escapes_strings() {
    let mut out = String::new();
    escape_str(&mut out, "a\"b\\c\nd\te\u{1}");
    assert_eq!(out, r#""a\"b\\c\nd\te\u0001""#);
}

#[test]
fn non_finite_numbers_are_null() {
    let mut out = String::new();
    number(&mut out, f64::NAN.to_bits());
    out.push(' ');
    number(&mut out, f64::INFINITY.to_bits());
    out.push(' ');
    number(&mut out, 1.5f64.to_bits());
    assert_eq!(out, "null null 1.5");
}

#[test]
fn writer_builds_nested_structures() {
    let mut w = JsonWriter::new();
    w.begin_object();
    w.key("name").string("m");
    w.key("count").integer(3);
    w.key("points").begin_array();
    w.begin_array().integer(1000).number(1.5f64.to_bits()).end_array();
    w.begin_array().integer(2000).number(f64::NAN.to_bits()).end_array();
    w.end_array();
    w.key("empty").begin_object().end_object();
    w.end_object();
    assert_eq!(
        w.finish(),
        r#"{"name":"m","count":3,"points":[[1000,1.5],[2000,null]],"empty":{}}"#
    );
}

#[test]
fn all_control_characters_are_escaped() {
    for c in 0u32..0x20 {
        let ch = char::from_u32(c).unwrap();
        let mut out = String::new();
        escape_str(&mut out, &ch.to_string());
        let want = match ch {
            '\n' => "\"\\n\"".to_string(),
            '\r' => "\"\\r\"".to_string(),
            '\t' => "\"\\t\"".to_string(),
            _ => format!("\"\\u{c:04x}\""),
        };
        assert_eq!(out, want);
        assert!(out.chars().all(|x| x >= ' '));
    }
}

#[test]
fn writer_survives_unbalanced_brackets() {
    let mut w = JsonWriter::default();
    w.integer(1).integer(-2);
    w.end_array().end_object().integer(3).integer(4);
    assert_eq!(w.finish(), "1,-2]}34");
}
