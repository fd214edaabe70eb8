use json_tree::parser::{parse_array, parse_number, parse_object, parse_value};
use json_tree::{tokenize, JsonValue, ParseError};

fn toks(input: &str) -> Vec<String> {
    tokenize(&input.as_bytes().to_vec()).unwrap()
}

#[test]
fn parse_value_dispatches_on_first_token() {
    let tokens = toks("[true,{\"k\":null}]");
    let mut cursor: usize = 0;
    let v = parse_value(&tokens, &mut cursor).unwrap();
    let expected = JsonValue::Arr(vec![
        JsonValue::Bool(true),
        JsonValue::Obj(vec![("k".to_string(), JsonValue::Null)]),
    ]);
    assert_eq!(v, expected);
    assert_eq!(cursor, tokens.len());
}

#[test]
fn parse_object_reads_past_the_closing_brace() {
    let tokens = toks("{\"a\":1}");
    let mut cursor: usize = 1;
    let v = parse_object(&tokens, &mut cursor).unwrap();
    assert_eq!(
        v,
        JsonValue::Obj(vec![("a".to_string(), JsonValue::Num("1".to_string()))])
    );
    assert_eq!(cursor, tokens.len());
}

#[test]
fn parse_array_reads_past_the_closing_bracket() {
    let tokens = toks("[1,2]");
    let mut cursor: usize = 1;
    let v = parse_array(&tokens, &mut cursor).unwrap();
    assert_eq!(
        v,
        JsonValue::Arr(vec![
            JsonValue::Num("1".to_string()),
            JsonValue::Num("2".to_string()),
        ])
    );
    assert_eq!(cursor, 5);
}

#[test]
fn parse_number_joins_exponent_tokens() {
    let tokens = toks("-3e2,");
    let mut cursor: usize = 0;
    let v = parse_number(&tokens, &mut cursor).unwrap();
    assert_eq!(v, JsonValue::Num("-3e2".to_string()));
    assert_eq!(cursor, 3);
}

#[test]
fn parse_number_rejects_a_word() {
    let tokens = vec!["word".to_string()];
    let mut cursor: usize = 0;
    let r = parse_number(&tokens, &mut cursor);
    assert_eq!(r, Err(ParseError::MalformedNumber));
}

#[test]
fn parse_value_on_empty_tokens_is_an_error() {
    let tokens: Vec<String> = vec![];
    let mut cursor: usize = 0;
    let r = parse_value(&tokens, &mut cursor);
    assert_eq!(r, Err(ParseError::UnexpectedEndOfInput));
}
