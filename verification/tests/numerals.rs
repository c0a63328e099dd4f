use cgrade::{format_grade, parse_grade};

fn read(text: &str) -> Option<(bool, String)> {
    parse_grade(text).map(|n| (n.negative, String::from_utf8(n.canonical).unwrap()))
}

#[test]
fn dot_or_comma() {
    assert_eq!(read("6,0"), Some((false, "6.0".to_string())));
    assert_eq!(read("6.0"), Some((false, "6.0".to_string())));
    assert_eq!(read(" \t5,25\n"), Some((false, "5.25".to_string())));
    assert_eq!(read("-1,5"), Some((true, "1.5".to_string())));
    assert_eq!(read("+2"), Some((false, "2".to_string())));
    assert_eq!(read("5."), Some((false, "5.".to_string())));
    assert_eq!(read(",5"), Some((false, ".5".to_string())));
}

#[test]
fn strict_rejections() {
    assert_eq!(read(""), None);
    assert_eq!(read("   "), None);
    assert_eq!(read("-"), None);
    assert_eq!(read("+"), None);
    assert_eq!(read("."), None);
    assert_eq!(read(","), None);
    assert_eq!(read("1.2.3"), None);
    assert_eq!(read("1,2.3"), None);
    assert_eq!(read("6 0"), None);
    assert_eq!(read("6.0x"), None);
    assert_eq!(read("1e5"), None);
    assert_eq!(read("-+5"), None);
    assert_eq!(read("--5"), None);
    assert_eq!(read("inf"), None);
    assert_eq!(read("NaN"), None);
    assert_eq!(read("６"), None);
    assert_eq!(read("\u{a0}6"), None);
}

#[test]
fn format_always_uses_a_dot() {
    assert_eq!(format_grade(6000, 1).as_deref(), Some("6.0"));
    assert_eq!(format_grade(5550, 1).as_deref(), Some("5.6"));
    assert_eq!(format_grade(5549, 1).as_deref(), Some("5.5"));
    assert_eq!(format_grade(1500, 0).as_deref(), Some("2"));
    assert_eq!(format_grade(-1500, 0).as_deref(), Some("-2"));
    assert_eq!(format_grade(123, 3).as_deref(), Some("0.123"));
    assert_eq!(format_grade(5, 2).as_deref(), Some("0.01"));
    assert_eq!(format_grade(4, 2).as_deref(), Some("0.00"));
    assert_eq!(format_grade(-40, 1).as_deref(), Some("-0.0"));
    assert_eq!(format_grade(0, 0).as_deref(), Some("0"));
    assert_eq!(format_grade(999_999, 2).as_deref(), Some("1000.00"));
    assert_eq!(format_grade(i64::MIN, 3).as_deref(), Some("-9223372036854775.808"));
    assert_eq!(format_grade(6000, 4), None);
    assert_eq!(format_grade(6000, u32::MAX), None);
}

#[test]
fn format_then_parse_reads_back() {
    for t in [-123_456, -40, 0, 5, 999, 5550, 6000, 20_000] {
        for d in 0..=3 {
            let text = format_grade(t, d).unwrap();
            let (negative, digits) = read(&text).unwrap();
            assert_eq!(negative, t < 0);
            assert_eq!(digits, text.trim_start_matches('-'));
        }
    }
}
