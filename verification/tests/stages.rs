use json_parser::lexical::{
    escapable, hex_digit, normal, parse_hex, parse_str, quoted, skip_whitespace, starts_with,
};
use json_parser::number::{checked_number, read_number, starts_number};
use json_parser::parser::{array, boolean, key, null, num, object, string, value};
use json_parser::value::upsert;
use json_parser::{Context, JsonValue};

#[test]
fn white_space_is_space_tab_and_line_ends() {
    assert_eq!(skip_whitespace(b" \t\r\n x", 0), 5);
    assert_eq!(skip_whitespace(b" \t\r\nx", 2), 4);
    assert_eq!(skip_whitespace(b"x  ", 0), 0);
    assert_eq!(skip_whitespace(b"   ", 1), 3);
    assert_eq!(skip_whitespace(b"\x0b ", 0), 0);
    assert_eq!(skip_whitespace(b"  ", 9), 9);
}

#[test]
fn words_are_matched_byte_by_byte() {
    assert!(starts_with(b"xtruey", 1, b"true"));
    assert!(!starts_with(b"xtruey", 0, b"true"));
    assert!(!starts_with(b"tru", 0, b"true"));
    assert!(!starts_with(b"true", 9, b"true"));
    assert!(starts_with(b"abc", 3, b""));
}

#[test]
fn normal_run_stops_at_quote_backslash_and_control() {
    assert_eq!(normal(b"abc\"d", 0), 3);
    assert_eq!(normal(b"ab\\c", 0), 2);
    assert_eq!(normal(b"ab\nc", 0), 2);
    assert_eq!(normal(b"ab\x7fc", 0), 2);
    assert_eq!(normal("h\u{e9}!".as_bytes(), 0), 4);
    assert_eq!(normal(b"abc", 1), 3);
    assert_eq!(normal(b"\"", 0), 0);
}

#[test]
fn hex_escape_needs_four_digits() {
    assert!(parse_hex(b"u00e9", 0));
    assert!(parse_hex(b"uABCD!", 0));
    assert!(parse_hex(b"\\u0a1F", 1));
    assert!(!parse_hex(b"u00g9", 0));
    assert!(!parse_hex(b"u00e", 0));
    assert!(!parse_hex(b"x00e9", 0));
    assert!(!parse_hex(b"uuuuu", 0));
    assert!(!parse_hex(b"u00e9", 3));
    assert!(hex_digit(b'0') && hex_digit(b'9') && hex_digit(b'a') && hex_digit(b'F'));
    assert!(!hex_digit(b'g') && !hex_digit(b'/') && !hex_digit(b':') && !hex_digit(b'@'));
}

#[test]
fn escape_indicators() {
    for b in [b'"', b'\\', b'/', b'b', b'f', b'n', b'r', b't'] {
        assert_eq!(escapable(&[b], 0), Some(1));
    }
    assert_eq!(escapable(b"u1234", 0), Some(5));
    assert_eq!(escapable(b"u123", 0), None);
    assert_eq!(escapable(b"x", 0), None);
    assert_eq!(escapable(b"a", 0), None);
    assert_eq!(escapable(b"", 0), None);
    assert_eq!(escapable(b"n", 4), None);
}

#[test]
fn string_body_alternates_runs_and_escapes() {
    assert_eq!(parse_str(b"a\\nb\"c", 0), 4);
    assert_eq!(parse_str(b"\\u00e9\\\\x\"", 0), 9);
    assert_eq!(parse_str(b"ab\\q\"", 0), 2);
    assert_eq!(parse_str(b"ab", 0), 2);
    assert_eq!(parse_str(b"\"", 0), 0);
    assert_eq!(parse_str(b"ab\\", 0), 2);
}

#[test]
fn quoted_string_at_an_offset() {
    let (body, end) = quoted("x \"hi\\n\" y", 2, Context::String).unwrap();
    assert_eq!(body, "hi\\n");
    assert_eq!(end, 8);
    let (body, end) = key("\"k\":1", 0).unwrap();
    assert_eq!(body, "k");
    assert_eq!(end, 3);
    let (v, end) = string("\"\u{e9}\u{2713}\"", 0).unwrap();
    assert!(matches!(v, JsonValue::Str(s) if s == "\u{e9}\u{2713}"));
    assert_eq!(end, 7);
}

#[test]
fn number_at_an_offset() {
    let (bits, end) = read_number(b"x-12.5e1,", 1).unwrap();
    assert_eq!(f64::from_bits(bits), -125.0);
    assert_eq!(end, 8);
    assert!(read_number(b"x", 0).is_none());
    assert!(read_number(b"12", 2).is_none());
    assert!(read_number(b"12", 3).is_none());
    let (v, end) = num("123K-01", 0).unwrap();
    assert!(matches!(v, JsonValue::Num(bits) if f64::from_bits(bits) == 123.0));
    assert_eq!(end, 3);
}

#[test]
fn the_word_infinity_is_read_as_far_as_inf() {
    let (bits, end) = read_number(b"infinity", 0).unwrap();
    assert_eq!(f64::from_bits(bits), f64::INFINITY);
    assert_eq!(end, 3);
}

#[test]
fn literals_are_case_sensitive() {
    assert!(matches!(boolean("true", 0), Ok((JsonValue::Boolean(true), 4))));
    assert!(matches!(boolean("xfalse", 1), Ok((JsonValue::Boolean(false), 6))));
    assert!(boolean("True", 0).is_err());
    assert!(boolean("tru", 0).is_err());
    assert!(matches!(null("null,", 0), Ok((JsonValue::Null, 4))));
    assert!(null("Null", 0).is_err());
    assert!(null("nul", 0).is_err());
    assert!(matches!(boolean("truex", 0), Ok((JsonValue::Boolean(true), 4))));
}

#[test]
fn value_takes_the_white_space_around_it() {
    let (v, end) = value("  12  ,", 0).unwrap();
    assert!(matches!(v, JsonValue::Num(bits) if f64::from_bits(bits) == 12.0));
    assert_eq!(end, 6);
    let (v, end) = value(": \"s\" }", 1).unwrap();
    assert!(matches!(v, JsonValue::Str(s) if s == "s"));
    assert_eq!(end, 6);
    let (v, end) = value("null", 0).unwrap();
    assert!(matches!(v, JsonValue::Null));
    assert_eq!(end, 4);
    let (v, end) = value(" [ ] ", 0).unwrap();
    assert!(matches!(v, JsonValue::Array(items) if items.is_empty()));
    assert_eq!(end, 5);
    let (v, end) = value("{}", 0).unwrap();
    assert!(matches!(v, JsonValue::Object(entries) if entries.is_empty()));
    assert_eq!(end, 2);
}

#[test]
fn containers_at_an_offset() {
    let (v, end) = array("x[true , false]y", 1).unwrap();
    assert!(matches!(v, JsonValue::Array(items) if items.len() == 2));
    assert_eq!(end, 15);
    let (v, end) = object(" {\"a\" : 1}  ", 1).unwrap();
    assert!(matches!(v, JsonValue::Object(entries) if entries.len() == 1 && entries[0].0 == "a"));
    assert_eq!(end, 10);
}

#[test]
fn upsert_replaces_the_last_of_equal_keys() {
    let mut entries = vec![
        (String::from("k"), JsonValue::Num(1)),
        (String::from("j"), JsonValue::Num(2)),
        (String::from("k"), JsonValue::Num(3)),
    ];
    upsert(&mut entries, String::from("k"), JsonValue::Num(4));
    assert_eq!(entries.len(), 3);
    assert!(matches!(entries[0], (_, JsonValue::Num(1))));
    assert!(matches!(entries[2], (_, JsonValue::Num(4))));
    assert!(matches!(JsonValue::Object(entries).get("k"), Some(JsonValue::Num(4))));
}

#[test]
fn upsert_replaces_or_appends() {
    let mut entries: Vec<(String, JsonValue)> = Vec::new();
    upsert(&mut entries, String::from("a"), JsonValue::Null);
    upsert(&mut entries, String::from("b"), JsonValue::Boolean(true));
    upsert(&mut entries, String::from("a"), JsonValue::Boolean(false));
    assert_eq!(entries.len(), 2);
    let v = JsonValue::Object(entries);
    assert!(matches!(v.get("a"), Some(JsonValue::Boolean(false))));
    assert!(matches!(v.get("b"), Some(JsonValue::Boolean(true))));
    assert!(v.get("c").is_none());
}

#[test]
fn get_finds_the_last_of_equal_keys() {
    let v = JsonValue::Object(vec![
        (String::from("k"), JsonValue::Num(1)),
        (String::from("k"), JsonValue::Num(2)),
    ]);
    assert!(matches!(v.get("k"), Some(JsonValue::Num(2))));
    assert!(JsonValue::Null.get("k").is_none());
    assert!(JsonValue::Array(vec![]).get("k").is_none());
}

#[test]
fn what_a_number_begins_with() {
    for text in ["0", "9x", "-1", "+1", ".5", "nan", "NaN", "nA", "inf", "INF", "iN"] {
        assert!(starts_number(text.as_bytes(), 0), "{}", text);
    }
    for text in ["", "n", "i", "null", "nul", "true", "false", "[", "{", "\"", "]", "}", "e5", "x", " 1", "ia", "nn"] {
        assert!(!starts_number(text.as_bytes(), 0), "{}", text);
    }
    assert!(starts_number(b"[1]", 1));
    assert!(!starts_number(b"[1]", 2));
    assert!(!starts_number(b"[1]", 3));
    assert!(!starts_number(b"[1]", 4));
}

#[test]
fn a_number_is_taken_where_it_takes_up_text() {
    assert_eq!(checked_number(b"[12]", 1, 1, 7), Some((7, 3)));
    assert_eq!(checked_number(b"12", 0, 0, 7), Some((7, 2)));
    assert_eq!(checked_number(b"12", 0, 2, 7), None);
    assert_eq!(checked_number(b"12", 0, 3, 7), None);
    assert_eq!(checked_number(b"12", 2, 0, 7), None);
    assert_eq!(checked_number(b"12", 5, 0, 7), None);
    assert_eq!(checked_number(b"x2", 0, 1, 7), None);
}
