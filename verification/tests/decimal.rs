use rustmetrics::decimal::{finite, push_number, read_number};
use rustmetrics::numeral::{push_signed, push_unsigned, read_signed, read_unsigned};
use rustmetrics::text::trim_chars;

fn read(s: &str) -> Option<u64> {
    let chars: Vec<char> = s.chars().collect();
    read_number(&chars)
}

fn show(v: f64) -> String {
    let mut out = String::new();
    push_number(&mut out, v.to_bits());
    out
}

#[test]
fn reads_what_std_reads() {
    for s in [
        "0", "-0", "+1", "1.", ".5", "1.5e3", "1E-2", "3.14159265358979323846264338327950288",
        "1e400", "-1e400", "1e-400", "4.9e-324", "2.4703282292062327e-324",
        "2.4703282292062328e-324", "1.7976931348623157e308", "1.7976931348623159e308",
        "9007199254740993", "9007199254740992.999999999999999999999", "2.2250738585072011e-308",
        "179769313486231580793728971405301e276", "000000000000000000001e0", "0e999999999999999999",
        "0.000000000000000000000000000001e30", "123456789012345678901234567890e-10", "1e23",
        "8.5e22", "inf", "-INF", "+Infinity", "infinity",
    ] {
        let want = s.parse::<f64>().unwrap().to_bits();
        assert_eq!(read(s), Some(want), "{s}");
    }
    assert_eq!(read("nan"), Some(0x7ff8_0000_0000_0000));
    assert_eq!(read("-NaN"), Some(0xfff8_0000_0000_0000));
}

#[test]
fn refuses_what_std_refuses() {
    for s in [
        "", "+", "-", ".", "e5", "1e", "1e+", "1e1.5", "1_000", "0x10", " 1", "1 ", "--1", "+-1",
        "1..2", "1.2.3", "infin", "nanx", "1f", "in", "١",
    ] {
        assert!(s.parse::<f64>().is_err(), "{s}");
        assert_eq!(read(s), None, "{s}");
    }
}

#[test]
fn shows_what_std_shows() {
    for v in [
        0.0, -0.0, 1.0, -1.5, 0.1, 0.3, 100.0, 1e21, 1e22, 1e23, 1e-7, 123456.789, 5e-324,
        2.2250738585072014e-308, f64::MAX, f64::MIN_POSITIVE, f64::EPSILON, 9007199254740993.0,
        524288.00048828125, 4503599627370496.5, 4503599627370497.5, 0.035, 42.5, 1e300, 1.0 / 3.0,
        9.5367431640625e-7, 2f64.powi(-1074), 2f64.powi(-1022), 2f64.powi(1023), 2f64.powi(60),
    ] {
        assert_eq!(show(v), format!("{v}"));
    }
}

#[test]
fn shows_and_reads_many_patterns() {
    let mut x: u64 = 0x9e37_79b9_7f4a_7c15;
    for _ in 0..400 {
        x ^= x << 13;
        x ^= x >> 7;
        x ^= x << 17;
        if !finite(x) {
            continue;
        }
        let v = f64::from_bits(x);
        let text = show(v);
        assert_eq!(text, format!("{v}"));
        assert_eq!(read(&text), Some(x));
    }
}

#[test]
fn shows_powers_of_two_and_neighbours() {
    let mut e = 0u64;
    while e < 2047 {
        for b in [(e << 52).wrapping_sub(1), e << 52, (e << 52) + 1] {
            if finite(b) {
                let v = f64::from_bits(b);
                assert_eq!(show(v), format!("{v}"), "{b:x}");
            }
        }
        e += 41;
    }
}

#[test]
fn integers_read_back() {
    for n in [0, 1, -1, 10, -10, i64::MAX, i64::MIN, 1_395_066_363_000] {
        let mut s = String::from("x");
        push_signed(&mut s, n);
        assert_eq!(s, format!("x{n}"));
        let chars: Vec<char> = s.chars().skip(1).collect();
        assert_eq!(read_signed(&chars), Some(n));
    }
    let mut s = String::new();
    push_unsigned(&mut s, u64::MAX);
    assert_eq!(s, "18446744073709551615");
}

#[test]
fn integer_syntax() {
    let signed = |s: &str| read_signed(&s.chars().collect::<Vec<char>>());
    let unsigned = |s: &str, max| read_unsigned(&s.chars().collect::<Vec<char>>(), max);
    for s in ["", "+", "-", "1a", "9223372036854775808", "-9223372036854775809", "--1", " 1"] {
        assert_eq!(signed(s), None, "{s}");
    }
    assert_eq!(signed("+7"), Some(7));
    assert_eq!(signed("-0"), Some(0));
    assert_eq!(unsigned("+65535", 65535), Some(65535));
    assert_eq!(unsigned("65536", 65535), None);
    assert_eq!(unsigned("-1", 65535), None);
    assert_eq!(unsigned("00000000000000000000000000001", 65535), Some(1));
}

#[test]
fn white_space_is_that_of_std() {
    for c in (0u32..0x3100).filter_map(char::from_u32) {
        let s: Vec<char> = vec![c, 'x', c];
        assert_eq!(trim_chars(&s).len() == 1, c.is_whitespace(), "{c:?}");
    }
}

#[test]
fn shows_ties_between_two_closest() {
    for j in (1..400).step_by(2) {
        let v = 524288.0 + j as f64 * 2f64.powi(-11);
        assert_eq!(show(v), format!("{v}"));
    }
    for j in (1..400).step_by(2) {
        let v = (j as f64) * 2f64.powi(-1074);
        assert_eq!(show(v), format!("{v}"));
    }
    for j in 0..200 {
        let v = 9007199254740992.0 * 8.0 + (j * 16) as f64;
        assert_eq!(show(v), format!("{v}"));
    }
}
