use json_tree::{tokenize, TokenizeError};

fn toks(input: &str) -> Vec<String> {
    tokenize(&input.as_bytes().to_vec()).unwrap()
}

#[test]
fn tokenize_small_object() {
    assert_eq!(
        toks("{\"a\":1}"),
        vec!["{", "\"", "a", "\"", ":", "1", "}"]
            .into_iter()
            .map(|s| s.to_string())
            .collect::<Vec<String>>()
    );
}

#[test]
fn tokenize_decodes_newline_escape() {
    let t = toks("\"a\\nb\"");
    assert_eq!(t.len(), 3);
    assert_eq!(t[0], "\"");
    assert_eq!(t[1], "a\nb");
    assert_eq!(t[2], "\"");
}

#[test]
fn tokenize_splits_exponent_marker_after_digit() {
    assert_eq!(
        toks("1e10"),
        vec!["1", "e", "10"]
            .into_iter()
            .map(|s| s.to_string())
            .collect::<Vec<String>>()
    );
}

#[test]
fn tokenize_keeps_keyword_letters_together() {
    assert_eq!(
        toks("[true, false]"),
        vec!["[", "true", ",", "false", "]"]
            .into_iter()
            .map(|s| s.to_string())
            .collect::<Vec<String>>()
    );
}

#[test]
fn tokenize_decodes_all_named_escapes() {
    let t = toks("\"\\b\\f\\n\\r\\t\\\\\\\"\\/\"");
    assert_eq!(t.len(), 3);
    assert_eq!(t[1], "\u{0008}\u{000C}\n\r\t\\\"/");
}

#[test]
fn tokenize_passes_unicode_escape_through() {
    let t = toks("\"\\u0041\"");
    assert_eq!(t[1], "u0041");
}

#[test]
fn tokenize_discards_whitespace_outside_strings() {
    assert_eq!(
        toks(" \t\r\n{ \"a b\" : 1 }\n"),
        vec!["{", "\"", "a b", "\"", ":", "1", "}"]
            .into_iter()
            .map(|s| s.to_string())
            .collect::<Vec<String>>()
    );
}

#[test]
fn tokenize_flushes_trailing_run() {
    assert_eq!(toks("123"), vec!["123".to_string()]);
}

#[test]
fn tokenize_unterminated_string() {
    let r = tokenize(&b"\"abc".to_vec());
    assert_eq!(r, Err(TokenizeError::UnterminatedString));
}

#[test]
fn tokenize_raw_newline_inside_string() {
    let r = tokenize(&b"\"a\nb\"".to_vec());
    assert_eq!(r, Err(TokenizeError::UnterminatedString));
}

#[test]
fn tokenize_dangling_escape_at_end_of_input() {
    let r = tokenize(&b"\"a\\".to_vec());
    assert_eq!(r, Err(TokenizeError::DanglingEscape));
}

#[test]
fn tokenize_space_while_escape_pending() {
    let r = tokenize(&b"\"a\\ b\"".to_vec());
    assert_eq!(r, Err(TokenizeError::DanglingEscape));
}

#[test]
fn tokenize_unknown_escape_target() {
    let r = tokenize(&b"\"a\\xb\"".to_vec());
    assert_eq!(r, Err(TokenizeError::InvalidEscapeSequence));
}

#[test]
fn tokenize_backslash_outside_string() {
    let r = tokenize(&b"\\n".to_vec());
    assert_eq!(r, Err(TokenizeError::InvalidEscapeSequence));
}
