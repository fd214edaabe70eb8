use std::str::FromStr;

use json_tree::{parse_json, serialize, JsonError, JsonValue, ParseError};

fn parse(input: &str) -> Result<JsonValue, JsonError> {
    parse_json(&input.as_bytes().to_vec())
}

fn num(t: &str) -> JsonValue {
    JsonValue::Num(t.to_string())
}

#[test]
fn parse_empty_object() {
    assert_eq!(parse("{}").unwrap(), JsonValue::Obj(vec![]));
}

#[test]
fn parse_empty_array() {
    assert_eq!(parse("[]").unwrap(), JsonValue::Arr(vec![]));
}

#[test]
fn parse_mixed_array_document() {
    let v = parse("{\"x\":[1,2.5,-3e2,true,false,null,\"s\"]}").unwrap();
    let expected = JsonValue::Obj(vec![(
        "x".to_string(),
        JsonValue::Arr(vec![
            num("1"),
            num("2.5"),
            num("-3e2"),
            JsonValue::Bool(true),
            JsonValue::Bool(false),
            JsonValue::Null,
            JsonValue::Str("s".to_string()),
        ]),
    )]);
    assert_eq!(v, expected);
    match &v {
        JsonValue::Obj(pairs) => match &pairs[0].1 {
            JsonValue::Arr(elems) => {
                let as_f64 = |e: &JsonValue| match e {
                    JsonValue::Num(t) => f64::from_str(t).unwrap(),
                    _ => panic!("not a number"),
                };
                assert_eq!(as_f64(&elems[0]), 1.0);
                assert_eq!(as_f64(&elems[1]), 2.5);
                assert_eq!(as_f64(&elems[2]), -300.0);
            },
            _ => panic!("not an array"),
        },
        _ => panic!("not an object"),
    }
}

#[test]
fn parse_duplicate_key_last_write_wins() {
    let v = parse("{\"a\":1,\"a\":2}").unwrap();
    assert_eq!(v, JsonValue::Obj(vec![("a".to_string(), num("2"))]));
}

#[test]
fn parse_missing_value_is_an_error() {
    let r = parse("{\"a\":}");
    assert_eq!(r, Err(JsonError::Parse(ParseError::MalformedNumber)));
}

#[test]
fn parse_missing_colon_is_an_error() {
    let r = parse("{\"a\" 1}");
    assert_eq!(r, Err(JsonError::Parse(ParseError::UnexpectedToken)));
}

#[test]
fn parse_bad_separator_is_an_error() {
    let r = parse("[1 2]");
    assert_eq!(r, Err(JsonError::Parse(ParseError::UnexpectedToken)));
}

#[test]
fn parse_empty_input_is_an_error() {
    let r = parse("");
    assert_eq!(r, Err(JsonError::Parse(ParseError::UnexpectedEndOfInput)));
}

#[test]
fn parse_unclosed_array_is_an_error() {
    let r = parse("[1,");
    assert_eq!(r, Err(JsonError::Parse(ParseError::UnexpectedEndOfInput)));
}

#[test]
fn parse_tokenize_failure_surfaces() {
    let r = parse("\"abc");
    assert!(matches!(r, Err(JsonError::Tokenize(_))));
}

#[test]
fn parse_top_level_scalars() {
    assert_eq!(parse("true").unwrap(), JsonValue::Bool(true));
    assert_eq!(parse("false").unwrap(), JsonValue::Bool(false));
    assert_eq!(parse("null").unwrap(), JsonValue::Null);
    assert_eq!(parse("2.5").unwrap(), num("2.5"));
    assert_eq!(parse("\"hi\"").unwrap(), JsonValue::Str("hi".to_string()));
    assert_eq!(parse("\"\"").unwrap(), JsonValue::Str("".to_string()));
}

#[test]
fn parse_number_spanning_exponent_tokens() {
    assert_eq!(parse("1e10").unwrap(), num("1e10"));
    assert_eq!(parse("[1E-5]").unwrap(), JsonValue::Arr(vec![num("1E-5")]));
}

#[test]
fn parse_malformed_numbers() {
    assert_eq!(parse("1e"), Err(JsonError::Parse(ParseError::MalformedNumber)));
    assert_eq!(parse("--1"), Err(JsonError::Parse(ParseError::MalformedNumber)));
    assert_eq!(parse("1."), Err(JsonError::Parse(ParseError::MalformedNumber)));
    assert_eq!(parse("word"), Err(JsonError::Parse(ParseError::MalformedNumber)));
}

#[test]
fn parse_nested_structures() {
    let v = parse("{\"a\":{\"b\":[[],{}]}}").unwrap();
    let expected = JsonValue::Obj(vec![(
        "a".to_string(),
        JsonValue::Obj(vec![(
            "b".to_string(),
            JsonValue::Arr(vec![JsonValue::Arr(vec![]), JsonValue::Obj(vec![])]),
        )]),
    )]);
    assert_eq!(v, expected);
}

#[test]
fn serialize_exact_object_text() {
    let v = JsonValue::Obj(vec![("a".to_string(), num("1"))]);
    assert_eq!(serialize(&v), "{\n    \"a\": 1,\n}".to_string());
}

#[test]
fn serialize_exact_array_text() {
    let v = JsonValue::Arr(vec![num("1"), JsonValue::Null]);
    assert_eq!(serialize(&v), "[\n    1,\n    null,\n]".to_string());
}

#[test]
fn serialize_escapes_string_content() {
    let v = JsonValue::Str("a\"b\\c\nd".to_string());
    assert_eq!(serialize(&v), "\"a\\\"b\\\\c\\nd\"".to_string());
}

#[test]
fn serialize_scalars() {
    assert_eq!(serialize(&JsonValue::Bool(true)), "true".to_string());
    assert_eq!(serialize(&JsonValue::Bool(false)), "false".to_string());
    assert_eq!(serialize(&JsonValue::Null), "null".to_string());
    assert_eq!(serialize(&num("-3e2")), "-3e2".to_string());
}

#[test]
fn round_trip_reproduces_parsed_tree() {
    let doc = "{\"x\":[1,2.5,-3e2,true,false,null,\"s\"],\"esc\":\"a\\nb\\\"c\\\\d\",\"o\":{\"k\":\"\"}}";
    let v = parse(doc).unwrap();
    let text = serialize(&v);
    let v2 = parse_json(&text.into_bytes()).unwrap();
    assert_eq!(v2, v);
}

#[test]
fn round_trip_of_empty_containers() {
    for doc in ["{}", "[]", "[[]]", "{\"a\":{}}"] {
        let v = parse(doc).unwrap();
        let text = serialize(&v);
        let v2 = parse_json(&text.into_bytes()).unwrap();
        assert_eq!(v2, v);
    }
}
