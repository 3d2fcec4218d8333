use jsonl_peek::json::{escape_into, ErrorKind, MAX_DEPTH};
use jsonl_peek::record::read_value;
use jsonl_peek::{parse, ParseError, Value};

fn fails(text: &str, kind: ErrorKind, offset: usize) {
    match parse(text) {
        Ok(_) => panic!("{} must not parse", text),
        Err(e) => assert_eq!(e, ParseError { offset, kind }, "{}", text),
    }
}

fn rewrites(text: &str, expected: &str) {
    assert_eq!(parse(text).unwrap().to_json(), expected);
}

#[test]
fn every_kind_of_value_is_read() {
    rewrites("null", "null");
    rewrites(" true ", "true");
    rewrites("\tfalse\r\n", "false");
    rewrites("-0.5e+10", "-0.5e+10");
    rewrites("\"a\"", "\"a\"");
    rewrites("[ 1 , [ ] , { } ]", "[1,[],{}]");
    rewrites("{ \"b\" : 1 , \"a\" : [ 2 ] }", "{\"b\":1,\"a\":[2]}");
}

#[test]
fn every_error_shows_where_the_text_breaks() {
    fails("", ErrorKind::UnexpectedEnd, 0);
    fails("[1,", ErrorKind::UnexpectedEnd, 3);
    fails("x", ErrorKind::ExpectedValue, 0);
    fails("[1,]", ErrorKind::ExpectedValue, 3);
    fails("{1:2}", ErrorKind::ExpectedKey, 1);
    fails("{\"role\":\"user\",,}", ErrorKind::ExpectedKey, 15);
    fails("{\"a\" 1}", ErrorKind::ExpectedColon, 5);
    fails("{\"a\":1;}", ErrorKind::ExpectedCommaOrBrace, 6);
    fails("[1;2]", ErrorKind::ExpectedCommaOrBracket, 2);
    fails("nul", ErrorKind::InvalidLiteral, 0);
    fails("[tru]", ErrorKind::InvalidLiteral, 1);
    fails("-", ErrorKind::InvalidNumber, 1);
    fails("1.x", ErrorKind::InvalidNumber, 2);
    fails("\"abc", ErrorKind::UnterminatedString, 4);
    fails("\"a\nb\"", ErrorKind::ControlCharacter, 2);
    fails("\"\\q\"", ErrorKind::InvalidEscape, 1);
    fails("\"\\u12g4\"", ErrorKind::InvalidUnicodeEscape, 1);
    fails("1 2", ErrorKind::TrailingCharacters, 2);
}

#[test]
fn offsets_of_errors_count_bytes() {
    fails("[\"日本\", x]", ErrorKind::ExpectedValue, 11);
}

#[test]
fn nesting_is_limited() {
    let deep = |n: usize| format!("{}{}", "[".repeat(n), "]".repeat(n));
    assert!(parse(&deep(MAX_DEPTH)).is_ok());
    fails(&deep(MAX_DEPTH + 1), ErrorKind::TooDeep, MAX_DEPTH);
}

#[test]
fn error_kinds_have_words() {
    assert_eq!(ErrorKind::ExpectedKey.to_string(), "expected a quoted object key");
    assert_eq!(ErrorKind::TooDeep.to_string(), "nesting is too deep");
    assert_eq!(
        ErrorKind::TrailingCharacters.to_string(),
        "trailing characters after the value"
    );
}

#[test]
fn escapes_are_read_and_written() {
    match parse("\"\\\"\\\\\\/\\b\\f\\n\\r\\t\\u0041\\u00e9\\ud83d\\ude00\"").unwrap() {
        Value::Text(s) => assert_eq!(s, "\"\\/\u{8}\u{c}\n\r\tAé😀"),
        _ => panic!("a string was given"),
    }
    let mut out = String::from("x");
    escape_into("\"\\/\u{8}\u{c}\n\r\t\u{1}\u{1f}é😀", &mut out);
    assert_eq!(out, "x\"\\\"\\\\/\\b\\f\\n\\r\\t\\u0001\\u001fé😀\"");
}

#[test]
fn lone_surrogates_are_rejected() {
    for text in ["\"\\ud800\"", "\"\\ud800x\"", "\"\\ud800\\u0041\"", "\"\\udc00\""] {
        assert_eq!(parse(text).unwrap_err().kind, ErrorKind::InvalidUnicodeEscape, "{}", text);
    }
}

#[test]
fn types_have_names() {
    let label = |text: &str| parse(text).unwrap().type_label();
    assert_eq!(label("null"), "null");
    assert_eq!(label("true"), "bool");
    assert_eq!(label("-12"), "int");
    assert_eq!(label("1.0"), "float");
    assert_eq!(label("1e3"), "float");
    assert_eq!(label("\"\""), "string");
    assert_eq!(label("[]"), "array");
    assert_eq!(label("{}"), "object");
}

#[test]
fn members_and_items_can_be_reached() {
    let v = parse("{\"a\":1,\"a\":2,\"b\":[3,-4],\"big\":9223372036854775808,\"f\":1.5}").unwrap();
    assert_eq!(v.get("a").and_then(Value::as_i64), Some(1));
    assert_eq!(v.get("b").and_then(Value::as_array).map(|b| b.len()), Some(2));
    assert_eq!(v.get("b").unwrap().as_array().unwrap()[1].as_i64(), Some(-4));
    assert_eq!(v.get("big").unwrap().as_i64(), None);
    assert_eq!(v.get("f").unwrap().as_i64(), None);
    assert!(v.get("c").is_none());
    assert_eq!(v.as_object().unwrap().len(), 5);
    assert!(v.as_array().is_none());
    assert!(parse("[1]").unwrap().get("a").is_none());
}

#[test]
fn numbers_follow_the_grammar() {
    for text in ["0", "-0", "10", "0.25", "1e5", "1E-5", "1.5e+9"] {
        rewrites(text, text);
    }
    for text in ["01", "+1", ".5", "1.", "1e", "1e+", "--1", "0x1"] {
        assert!(parse(text).is_err(), "{}", text);
    }
}

#[test]
fn written_values_read_back() {
    let text = "{\"a\":[null,true,-1.5e3,\"\\u0007\\\"é\"],\"\":{\"x\":[[],{}]}}";
    let once = parse(text).unwrap().to_json();
    let twice = parse(&once).unwrap().to_json();
    assert_eq!(once, twice);
    assert_eq!(once, text);
}

#[test]
fn lines_are_read_as_values() {
    assert_eq!(read_value(b" [1] ").unwrap().to_json(), "[1]");
    let fault = read_value(b"[1").unwrap_err();
    assert_eq!((fault.column, fault.reason.as_str()), (3, "unexpected end of input"));
    let fault = read_value(b"\"a\xC3(\"").unwrap_err();
    assert_eq!((fault.column, fault.reason.as_str()), (3, "invalid UTF-8"));
}
