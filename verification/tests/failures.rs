use json_parser::parser::{array, key, num, object, string, value};
use json_parser::{json, Context, ErrorKind, ParseError};

fn check(e: ParseError, kind: ErrorKind, position: usize, contexts: Vec<Context>) {
    assert_eq!(e.kind, kind);
    assert_eq!(e.position, position);
    assert_eq!(e.contexts, contexts);
}

#[test]
fn unterminated_array() {
    check(
        json("[1 2]").unwrap_err(),
        ErrorKind::UnterminatedArray,
        3,
        vec![Context::Array, Context::Json],
    );
    check(
        json("[1").unwrap_err(),
        ErrorKind::UnterminatedArray,
        2,
        vec![Context::Array, Context::Json],
    );
    check(
        json("[1}").unwrap_err(),
        ErrorKind::UnterminatedArray,
        2,
        vec![Context::Array, Context::Json],
    );
}

#[test]
fn unterminated_object() {
    check(
        json("{\"a\":1 \"b\":2}").unwrap_err(),
        ErrorKind::UnterminatedObject,
        7,
        vec![Context::Object, Context::Json],
    );
    check(
        json("{\"a\":1").unwrap_err(),
        ErrorKind::UnterminatedObject,
        6,
        vec![Context::Object, Context::Json],
    );
}

#[test]
fn missing_colon() {
    check(
        json("{\"a\" 1}").unwrap_err(),
        ErrorKind::MissingColon,
        5,
        vec![Context::Object, Context::Json],
    );
    check(
        json("{\"a\"").unwrap_err(),
        ErrorKind::MissingColon,
        4,
        vec![Context::Object, Context::Json],
    );
}

#[test]
fn unterminated_string_in_key() {
    check(
        json("{\"abc").unwrap_err(),
        ErrorKind::UnterminatedString,
        5,
        vec![Context::Key, Context::Object, Context::Json],
    );
    check(
        json("{\"a\nb\":1}").unwrap_err(),
        ErrorKind::UnterminatedString,
        3,
        vec![Context::Key, Context::Object, Context::Json],
    );
}

#[test]
fn invalid_escape_in_key() {
    check(
        json("{\"a\\x\":1}").unwrap_err(),
        ErrorKind::InvalidEscape,
        4,
        vec![Context::Key, Context::Object, Context::Json],
    );
    check(
        json("{\"\\u12g4\":1}").unwrap_err(),
        ErrorKind::InvalidEscape,
        3,
        vec![Context::Key, Context::Object, Context::Json],
    );
    check(
        json("{\"a\\").unwrap_err(),
        ErrorKind::InvalidEscape,
        4,
        vec![Context::Key, Context::Object, Context::Json],
    );
}

#[test]
fn key_without_quotes() {
    check(
        json("{a:1}").unwrap_err(),
        ErrorKind::NoMatchingAlternative,
        1,
        vec![Context::Key, Context::Object, Context::Json],
    );
    check(
        json("{").unwrap_err(),
        ErrorKind::NoMatchingAlternative,
        1,
        vec![Context::Key, Context::Object, Context::Json],
    );
}

#[test]
fn failure_of_a_string_value_is_a_failure_of_the_value() {
    check(
        json("[\"abc]").unwrap_err(),
        ErrorKind::NoMatchingAlternative,
        1,
        vec![Context::Value, Context::Array, Context::Json],
    );
    check(
        json("[ \"a\\qb\"]").unwrap_err(),
        ErrorKind::NoMatchingAlternative,
        2,
        vec![Context::Value, Context::Array, Context::Json],
    );
}

#[test]
fn control_characters_end_a_string() {
    check(
        json("[\"a\u{7f}b\"]").unwrap_err(),
        ErrorKind::NoMatchingAlternative,
        1,
        vec![Context::Value, Context::Array, Context::Json],
    );
    check(
        string("\"a\u{7f}b\"", 0).unwrap_err(),
        ErrorKind::UnterminatedString,
        2,
        vec![Context::String],
    );
    check(
        string("\"a\tb\"", 0).unwrap_err(),
        ErrorKind::UnterminatedString,
        2,
        vec![Context::String],
    );
}

#[test]
fn failure_inside_a_nested_container_is_a_failure_of_the_outer_element() {
    check(
        json("[[1,]]").unwrap_err(),
        ErrorKind::NoMatchingAlternative,
        1,
        vec![Context::Value, Context::Array, Context::Json],
    );
    check(
        json("{\"a\": {\"b\" 1}}").unwrap_err(),
        ErrorKind::NoMatchingAlternative,
        6,
        vec![Context::Value, Context::Object, Context::Json],
    );
}

#[test]
fn invalid_number() {
    check(num("x", 0).unwrap_err(), ErrorKind::InvalidNumber, 0, vec![Context::Num]);
    check(num("12 x", 3).unwrap_err(), ErrorKind::InvalidNumber, 3, vec![Context::Num]);
    check(num("12", 2).unwrap_err(), ErrorKind::InvalidNumber, 2, vec![Context::Num]);
    check(num("12", 7).unwrap_err(), ErrorKind::InvalidNumber, 7, vec![Context::Num]);
}

#[test]
fn string_failures() {
    check(string("abc", 0).unwrap_err(), ErrorKind::NoMatchingAlternative, 0, vec![Context::String]);
    check(string("\"abc", 0).unwrap_err(), ErrorKind::UnterminatedString, 4, vec![Context::String]);
    check(string("\"a\\z\"", 0).unwrap_err(), ErrorKind::InvalidEscape, 3, vec![Context::String]);
    check(key("\"a\\z\"", 0).unwrap_err(), ErrorKind::InvalidEscape, 3, vec![Context::Key]);
    check(key("", 0).unwrap_err(), ErrorKind::NoMatchingAlternative, 0, vec![Context::Key]);
}

#[test]
fn container_failures_at_an_offset() {
    check(array("x", 0).unwrap_err(), ErrorKind::NoMatchingAlternative, 0, vec![Context::Array]);
    check(object("[]", 0).unwrap_err(), ErrorKind::NoMatchingAlternative, 0, vec![Context::Object]);
    check(array("{}", 0).unwrap_err(), ErrorKind::NoMatchingAlternative, 0, vec![Context::Array]);
    check(
        array("  [1;", 2).unwrap_err(),
        ErrorKind::UnterminatedArray,
        4,
        vec![Context::Array],
    );
    check(
        object("{\"a\":1;", 0).unwrap_err(),
        ErrorKind::UnterminatedObject,
        6,
        vec![Context::Object],
    );
}

#[test]
fn offsets_outside_the_text_are_refused() {
    check(value("[]", 10).unwrap_err(), ErrorKind::NoMatchingAlternative, 10, vec![Context::Value]);
    check(array("[]", 2).unwrap_err(), ErrorKind::NoMatchingAlternative, 2, vec![Context::Array]);
    check(object("{}", 9).unwrap_err(), ErrorKind::NoMatchingAlternative, 9, vec![Context::Object]);
    check(string("\"\"", 5).unwrap_err(), ErrorKind::NoMatchingAlternative, 5, vec![Context::String]);
}

#[test]
fn errors_are_built_innermost_first() {
    let e = ParseError::new(ErrorKind::MissingColon, 3, Context::Object).within(Context::Json);
    check(e, ErrorKind::MissingColon, 3, vec![Context::Object, Context::Json]);
}
