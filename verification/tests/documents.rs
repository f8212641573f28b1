use json_parser::value::discard;
use json_parser::{json, Context, ErrorKind, JsonValue};

fn as_number(v: &JsonValue) -> f64 {
    match v {
        JsonValue::Num(bits) => f64::from_bits(*bits),
        other => panic!("not a number: {:?}", other),
    }
}

fn elements(v: &JsonValue) -> &Vec<JsonValue> {
    match v {
        JsonValue::Array(items) => items,
        other => panic!("not an array: {:?}", other),
    }
}

fn members(v: &JsonValue) -> &Vec<(String, JsonValue)> {
    match v {
        JsonValue::Object(entries) => entries,
        other => panic!("not an object: {:?}", other),
    }
}

#[test]
fn empty_object() {
    let (rest, v) = json("{}").unwrap();
    assert_eq!(rest, "");
    assert!(members(&v).is_empty());
}

#[test]
fn empty_array() {
    let (rest, v) = json("[]").unwrap();
    assert_eq!(rest, "");
    assert!(elements(&v).is_empty());
}

#[test]
fn empty_containers_may_hold_white_space() {
    let (_, v) = json("[ \t ]").unwrap();
    assert!(elements(&v).is_empty());
    let (_, v) = json("{ \r\n }").unwrap();
    assert!(members(&v).is_empty());
}

#[test]
fn duplicate_key_last_wins() {
    let (rest, v) = json("{\"a\":1,\"a\":2}").unwrap();
    assert_eq!(rest, "");
    assert_eq!(members(&v).len(), 1);
    assert_eq!(as_number(v.get("a").unwrap()), 2.0);
}

#[test]
fn duplicate_key_among_others() {
    let (_, v) = json("{\"a\":1,\"b\":2,\"a\":3,\"c\":4,\"b\":5}").unwrap();
    assert_eq!(members(&v).len(), 3);
    assert_eq!(as_number(v.get("a").unwrap()), 3.0);
    assert_eq!(as_number(v.get("b").unwrap()), 5.0);
    assert_eq!(as_number(v.get("c").unwrap()), 4.0);
    assert!(v.get("d").is_none());
}

#[test]
fn array_preserves_order() {
    let (rest, v) = json("[1, 2, 3]").unwrap();
    assert_eq!(rest, "");
    let items = elements(&v);
    assert_eq!(items.len(), 3);
    assert_eq!(as_number(&items[0]), 1.0);
    assert_eq!(as_number(&items[1]), 2.0);
    assert_eq!(as_number(&items[2]), 3.0);
}

#[test]
fn object_with_literals() {
    let (rest, v) = json("{\"x\": true, \"y\": null}").unwrap();
    assert_eq!(rest, "");
    assert_eq!(members(&v).len(), 2);
    assert!(matches!(v.get("x"), Some(JsonValue::Boolean(true))));
    assert!(matches!(v.get("y"), Some(JsonValue::Null)));
}

#[test]
fn false_is_read() {
    let (_, v) = json("[false,true]").unwrap();
    let items = elements(&v);
    assert!(matches!(items[0], JsonValue::Boolean(false)));
    assert!(matches!(items[1], JsonValue::Boolean(true)));
}

#[test]
fn missing_value_after_colon() {
    let e = json("{\"a\":}").unwrap_err();
    assert_eq!(e.kind, ErrorKind::NoMatchingAlternative);
    assert_eq!(e.position, 5);
    assert_eq!(e.contexts, vec![Context::Value, Context::Object, Context::Json]);
}

#[test]
fn trailing_comma_in_array_is_refused() {
    let e = json("[1,2,]").unwrap_err();
    assert_eq!(e.kind, ErrorKind::NoMatchingAlternative);
    assert_eq!(e.position, 5);
    assert_eq!(e.contexts, vec![Context::Value, Context::Array, Context::Json]);
}

#[test]
fn trailing_comma_in_object_is_refused() {
    let e = json("{\"a\":1, }").unwrap_err();
    assert_eq!(e.kind, ErrorKind::NoMatchingAlternative);
    assert_eq!(e.position, 8);
    assert_eq!(e.contexts, vec![Context::Key, Context::Object, Context::Json]);
}

#[test]
fn top_level_scalar_is_refused() {
    for text in ["42", "\"a\"", "true", "null", "", "   ", "x"] {
        let e = json(text).unwrap_err();
        assert_eq!(e.kind, ErrorKind::NoMatchingAlternative);
        assert_eq!(e.contexts, vec![Context::Json]);
    }
    assert_eq!(json("42").unwrap_err().position, 0);
    assert_eq!(json("  true").unwrap_err().position, 2);
    assert_eq!(json("   ").unwrap_err().position, 3);
}

#[test]
fn white_space_around_the_document_is_skipped() {
    let (rest, v) = json(" \n[1] \t x y").unwrap();
    assert_eq!(rest, "x y");
    assert_eq!(elements(&v).len(), 1);
}

#[test]
fn text_behind_the_document_is_handed_back() {
    let (rest, _) = json("{}[]").unwrap();
    assert_eq!(rest, "[]");
    let (rest, _) = json("[] \u{e9}t\u{e9}").unwrap();
    assert_eq!(rest, "\u{e9}t\u{e9}");
}

#[test]
fn white_space_everywhere() {
    let (rest, v) = json("\n { \"a\" : [ 1 , 2 ] ,\t\"b\" : { } , \"c\":\"d\" } \r\n").unwrap();
    assert_eq!(rest, "");
    assert_eq!(members(&v).len(), 3);
    let a = elements(v.get("a").unwrap());
    assert_eq!(as_number(&a[0]), 1.0);
    assert_eq!(as_number(&a[1]), 2.0);
    assert!(members(v.get("b").unwrap()).is_empty());
    assert!(matches!(v.get("c"), Some(JsonValue::Str(s)) if s == "d"));
}

#[test]
fn nesting_follows_the_text() {
    let (_, v) = json("{\"a\":[1,{\"b\":[[],[null]]}],\"c\":\"d\"}").unwrap();
    let a = elements(v.get("a").unwrap());
    assert_eq!(a.len(), 2);
    let b = elements(a[1].get("b").unwrap());
    assert_eq!(b.len(), 2);
    assert!(elements(&b[0]).is_empty());
    assert!(matches!(elements(&b[1])[0], JsonValue::Null));
}

#[test]
fn unclosed_nesting_of_any_depth_is_refused() {
    let text = "[".repeat(1_000_000);
    let e = json(&text).unwrap_err();
    assert_eq!(e.kind, ErrorKind::NoMatchingAlternative);
    assert_eq!(e.position, 1);
    assert_eq!(e.contexts, vec![Context::Value, Context::Array, Context::Json]);
    let text = "{\"a\":".repeat(200_000);
    let e = json(&text).unwrap_err();
    assert_eq!(e.kind, ErrorKind::NoMatchingAlternative);
    assert_eq!(e.position, 5);
    assert_eq!(e.contexts, vec![Context::Value, Context::Object, Context::Json]);
}

#[test]
fn deep_nesting() {
    let depth = 100_000;
    let text = "[".repeat(depth) + &"]".repeat(depth);
    let (rest, mut v) = json(&text).unwrap();
    assert_eq!(rest, "");
    let mut seen = 1;
    loop {
        let inner = match v {
            JsonValue::Array(mut items) => items.pop(),
            _ => panic!("not an array"),
        };
        match inner {
            Some(next) => {
                v = next;
                seen += 1;
            }
            None => break,
        }
    }
    assert_eq!(seen, depth);
}

#[test]
fn strings_keep_their_escapes() {
    let (_, v) = json("[\"a\\nb\", \"\\u00e9\", \"q\\\"q\", \"\\\\\", \"\\/\\b\\f\\r\\t\"]").unwrap();
    let items = elements(&v);
    assert!(matches!(&items[0], JsonValue::Str(s) if s == "a\\nb"));
    assert!(matches!(&items[1], JsonValue::Str(s) if s == "\\u00e9"));
    assert!(matches!(&items[2], JsonValue::Str(s) if s == "q\\\"q"));
    assert!(matches!(&items[3], JsonValue::Str(s) if s == "\\\\"));
    assert!(matches!(&items[4], JsonValue::Str(s) if s == "\\/\\b\\f\\r\\t"));
}

#[test]
fn keys_keep_their_escapes() {
    let (_, v) = json("{\"a\\tb\":1}").unwrap();
    assert_eq!(members(&v)[0].0, "a\\tb");
    assert!(v.get("a\\tb").is_some());
    assert!(v.get("a\tb").is_none());
}

#[test]
fn empty_string_and_empty_key() {
    let (_, v) = json("{\"\":\"\"}").unwrap();
    assert!(matches!(v.get(""), Some(JsonValue::Str(s)) if s.is_empty()));
}

#[test]
fn text_outside_ascii() {
    let (_, v) = json("{\"cl\u{e9}\": [\"h\u{e9}llo \u{2713} \u{1f600}\"]}").unwrap();
    let items = elements(v.get("cl\u{e9}").unwrap());
    assert!(matches!(&items[0], JsonValue::Str(s) if s == "h\u{e9}llo \u{2713} \u{1f600}"));
}

#[test]
fn numbers_in_every_form() {
    let (_, v) = json("[-1.5e3, 0, 1E2, 007, .5, 1., +3, 12, 2.5e-1]").unwrap();
    let got: Vec<f64> = elements(&v).iter().map(as_number).collect();
    assert_eq!(got, vec![-1500.0, 0.0, 100.0, 7.0, 0.5, 1.0, 3.0, 12.0, 0.25]);
}

#[test]
fn number_ends_where_its_text_ends() {
    let (rest, v) = json("[12]34").unwrap();
    assert_eq!(rest, "34");
    assert_eq!(as_number(&elements(&v)[0]), 12.0);
}

#[test]
fn not_a_number_and_infinity() {
    let (_, v) = json("[nan, inf, NaN, INF]").unwrap();
    let items = elements(&v);
    assert!(as_number(&items[0]).is_nan());
    assert_eq!(as_number(&items[1]), f64::INFINITY);
    assert!(as_number(&items[2]).is_nan());
    assert_eq!(as_number(&items[3]), f64::INFINITY);
}

#[test]
fn exponent_without_digits_is_no_number() {
    let e = json("[1e]").unwrap_err();
    assert_eq!(e.kind, ErrorKind::NoMatchingAlternative);
    assert_eq!(e.position, 1);
    assert_eq!(e.contexts, vec![Context::Value, Context::Array, Context::Json]);
}

#[test]
fn reading_again_gives_the_same_tree() {
    let text = " {\"k\": [1, 2.5, \"s\", null, true, {\"n\": {}}], \"k2\": \"v\"} rest";
    let (rest1, v1) = json(text).unwrap();
    let (rest2, v2) = json(text).unwrap();
    assert_eq!(rest1, rest2);
    assert_eq!(format!("{:?}", v1), format!("{:?}", v2));
    let e1 = json("[1,").unwrap_err();
    let e2 = json("[1,").unwrap_err();
    assert_eq!(format!("{:?}", e1), format!("{:?}", e2));
}

fn nested(depth: usize) -> String {
    "[".repeat(depth) + &"]".repeat(depth)
}

#[test]
fn failure_behind_deep_nesting() {
    let text = format!("[{} x", nested(200_000));
    let e = json(&text).unwrap_err();
    assert_eq!(e.kind, ErrorKind::UnterminatedArray);
    assert_eq!(e.position, 400_002);
    assert_eq!(e.contexts, vec![Context::Array, Context::Json]);
    let text = format!("{{\"a\":[{},", nested(200_000));
    let e = json(&text).unwrap_err();
    assert_eq!(e.kind, ErrorKind::NoMatchingAlternative);
    assert_eq!(e.position, 5);
    assert_eq!(e.contexts, vec![Context::Value, Context::Object, Context::Json]);
    let text = format!("{{\"a\":{} \"b\"", nested(200_000));
    let e = json(&text).unwrap_err();
    assert_eq!(e.kind, ErrorKind::UnterminatedObject);
    assert_eq!(e.position, 400_006);
}

#[test]
fn deep_value_under_a_key_that_comes_again() {
    let text = format!("{{\"a\":{},\"a\":1}}", nested(200_000));
    let (_, v) = json(&text).unwrap();
    assert_eq!(members(&v).len(), 1);
    assert_eq!(as_number(v.get("a").unwrap()), 1.0);
}

#[test]
fn discard_takes_deep_values_apart() {
    let text = format!("[{}, {{\"k\": {}}}, 1, \"s\"]", nested(300_000), nested(300_000));
    let (rest, v) = json(&text).unwrap();
    assert_eq!(rest, "");
    assert_eq!(elements(&v).len(), 4);
    discard(v);
    discard(JsonValue::Null);
    discard(JsonValue::Array(vec![]));
}
