use json_tree::parser::parse_string;

#[test]
fn test_parse_string_1() {
    let tokens = vec!["\"".to_string(), "hello".to_string(), "\"".to_string()];
    let mut cursor: usize = 1;
    let x = parse_string(&tokens, &mut cursor).unwrap();
    assert_eq!(x, "hello".to_string());
}

#[test]
fn test_parse_string_2() {
    let tokens = vec!["\"".to_string(), "".to_string(), "\"".to_string()];
    let mut cursor: usize = 1;
    let x = parse_string(&tokens, &mut cursor).unwrap();
    assert_eq!(x, "".to_string());
}

#[test]
fn test_parse_string_3() {
    let tokens = vec!["\"".to_string(), "\"".to_string(), "\"".to_string()];
    let mut cursor: usize = 1;
    let x = parse_string(&tokens, &mut cursor).unwrap();
    assert_eq!(x, "\"".to_string());
}

#[test]
fn parse_string_consumes_closing_quote() {
    let tokens = vec!["\"".to_string(), "hello".to_string(), "\"".to_string()];
    let mut cursor: usize = 1;
    let _ = parse_string(&tokens, &mut cursor).unwrap();
    assert_eq!(cursor, 3);
}

#[test]
fn parse_string_back_to_back_quotes_at_end() {
    let tokens = vec!["\"".to_string(), "\"".to_string()];
    let mut cursor: usize = 1;
    let x = parse_string(&tokens, &mut cursor).unwrap();
    assert_eq!(x, "".to_string());
    assert_eq!(cursor, 2);
}

#[test]
fn parse_string_missing_tokens_is_an_error() {
    let tokens = vec!["\"".to_string()];
    let mut cursor: usize = 1;
    let r = parse_string(&tokens, &mut cursor);
    assert_eq!(r, Err(json_tree::ParseError::UnexpectedEndOfInput));
}
