use traffic_dvr::text::{
    chars_equal, chars_of, ends_with, escape_sql, join_strings, parse_u16, push_decimal_i64,
    push_decimal_u64, starts_with, strip_dashes,
};

#[test]
fn escape_sql_doubles_quotes() {
    assert_eq!(escape_sql("O'Brien"), "O''Brien");
    assert_eq!(escape_sql("''"), "''''");
    assert_eq!(escape_sql("plain"), "plain");
    assert_eq!(escape_sql(""), "");
}

#[test]
fn strip_dashes_removes_every_dash() {
    assert_eq!(strip_dashes("a-b--c-"), "abc");
    assert_eq!(strip_dashes("----"), "");
    assert_eq!(strip_dashes("no dashes"), "no dashes");
}

#[test]
fn parse_u16_follows_str_parse() {
    assert_eq!(parse_u16("1935"), Some(1935));
    assert_eq!(parse_u16("+80"), Some(80));
    assert_eq!(parse_u16("0065535"), Some(65535));
    assert_eq!(parse_u16("0"), Some(0));
    assert_eq!(parse_u16("65536"), None);
    assert_eq!(parse_u16("99999999999999999999"), None);
    assert_eq!(parse_u16("-1"), None);
    assert_eq!(parse_u16("-0"), None);
    assert_eq!(parse_u16(""), None);
    assert_eq!(parse_u16("+"), None);
    assert_eq!(parse_u16(" 1"), None);
    assert_eq!(parse_u16("12a"), None);
    for s in ["1935", "+80", "0065535", "65536", "-1", "", "+", "7x"] {
        assert_eq!(parse_u16(s), s.parse::<u16>().ok(), "input {:?}", s);
    }
}

#[test]
fn parse_u16_reads_back_decimal_text() {
    for n in [0u16, 7, 10, 99, 1935, 65535] {
        let mut s = String::new();
        push_decimal_u64(&mut s, n as u64);
        assert_eq!(parse_u16(&s), Some(n));
    }
}

#[test]
fn decimal_text_of_integers() {
    let mut s = String::new();
    push_decimal_i64(&mut s, -42);
    push_decimal_i64(&mut s, 0);
    push_decimal_i64(&mut s, 1234567);
    assert_eq!(s, "-4201234567");
    let mut m = String::new();
    push_decimal_i64(&mut m, i64::MIN);
    assert_eq!(m, i64::MIN.to_string());
    let mut x = String::new();
    push_decimal_u64(&mut x, u64::MAX);
    assert_eq!(x, u64::MAX.to_string());
}

#[test]
fn join_strings_puts_separator_between() {
    let parts = vec!["a".to_string(), "b".to_string(), "c".to_string()];
    assert_eq!(join_strings(&parts, ", "), "a, b, c");
    assert_eq!(join_strings(&vec!["only".to_string()], ", "), "only");
    assert_eq!(join_strings(&Vec::new(), ", "), "");
}

#[test]
fn char_sequence_tests() {
    let v = chars_of("segment.ts");
    assert!(ends_with(&v, &chars_of(".ts")));
    assert!(!ends_with(&v, &chars_of(".jpg")));
    assert!(starts_with(&v, &chars_of("seg")));
    assert!(!starts_with(&chars_of("se"), &chars_of("seg")));
    assert!(chars_equal(&chars_of("héllo"), &chars_of("héllo")));
    assert!(!chars_equal(&chars_of("a"), &chars_of("b")));
}
