use wasm_filter::lexer::{lex, Comparator, JoinType, Token, TokenData, Value};

fn td(token: Token, source: &str, start: usize, start_line: usize, start_col: usize, end: usize, end_line: usize, end_col: usize) -> TokenData {
    TokenData { token, source: source.to_string(), start, start_line, start_col, end, end_line, end_col }
}

fn number_value(token: &TokenData) -> f64 {
    match &token.token {
        Token::Value(Value::Number(text)) => text.parse::<f64>().unwrap(),
        other => panic!("not a number: {:?}", other),
    }
}

#[test]
fn lexes_equal_comparator() {
    let input = "=".to_string();

    let expected = vec![td(Token::Comparator(Comparator::Equal), "=", 0, 0, 0, 1, 0, 1)];
    let result = lex(&input, 0, 0, 0);

    assert_eq!(result.0, expected);
    assert_eq!(result.1, None);
}

#[test]
fn lexes_not_equal_comparator() {
    let input = "!=".to_string();

    let expected = vec![td(Token::Comparator(Comparator::NotEqual), "!=", 0, 0, 0, 2, 0, 2)];
    let result = lex(&input, 0, 0, 0);

    assert_eq!(result.0, expected);
    assert_eq!(result.1, None);
}

#[test]
fn lexes_less_than_comparator() {
    let input = "<".to_string();

    let expected = vec![td(Token::Comparator(Comparator::LessThan), "<", 0, 0, 0, 1, 0, 1)];
    let result = lex(&input, 0, 0, 0);

    assert_eq!(result.0, expected);
    assert_eq!(result.1, None);
}

#[test]
fn lexes_less_than_or_equal_comparator() {
    let input = "<=".to_string();

    let expected = vec![td(Token::Comparator(Comparator::LessThanOrEqual), "<=", 0, 0, 0, 2, 0, 2)];
    let result = lex(&input, 0, 0, 0);

    assert_eq!(result.0, expected);
    assert_eq!(result.1, None);
}

#[test]
fn lexes_greater_than_comparator() {
    let input = ">".to_string();

    let expected = vec![td(Token::Comparator(Comparator::GreaterThan), ">", 0, 0, 0, 1, 0, 1)];
    let result = lex(&input, 0, 0, 0);

    assert_eq!(result.0, expected);
    assert_eq!(result.1, None);
}

#[test]
fn lexes_greater_than_or_equal_comparator() {
    let input = ">=".to_string();

    let expected = vec![td(Token::Comparator(Comparator::GreaterThanOrEqual), ">=", 0, 0, 0, 2, 0, 2)];
    let result = lex(&input, 0, 0, 0);

    assert_eq!(result.0, expected);
    assert_eq!(result.1, None);
}

#[test]
fn lexes_and_join_type() {
    let input = "&".to_string();

    let expected = vec![td(Token::JoinType(JoinType::And), "&", 0, 0, 0, 1, 0, 1)];
    let result = lex(&input, 0, 0, 0);

    assert_eq!(result.0, expected);
    assert_eq!(result.1, None);
}

#[test]
fn lexes_or_join_type() {
    let input = "|".to_string();

    let expected = vec![td(Token::JoinType(JoinType::Or), "|", 0, 0, 0, 1, 0, 1)];
    let result = lex(&input, 0, 0, 0);

    assert_eq!(result.0, expected);
    assert_eq!(result.1, None);
}

#[test]
fn lexes_xor_join_type() {
    let input = "^".to_string();

    let expected = vec![td(Token::JoinType(JoinType::Xor), "^", 0, 0, 0, 1, 0, 1)];
    let result = lex(&input, 0, 0, 0);

    assert_eq!(result.0, expected);
    assert_eq!(result.1, None);
}

#[test]
fn lexes_name() {
    let input = "test".to_string();

    let expected = vec![td(Token::Name("test".to_string()), "test", 0, 0, 0, 4, 0, 4)];
    let result = lex(&input, 0, 0, 0);

    assert_eq!(result.0, expected);
    assert_eq!(result.1, None);
}

#[test]
fn lexes_string() {
    let input = "\"test\"".to_string();

    let expected = vec![td(Token::Value(Value::String("test".to_string())), "\"test\"", 0, 0, 0, 6, 0, 6)];
    let result = lex(&input, 0, 0, 0);

    assert_eq!(result.0, expected);
    assert_eq!(result.1, None);
}

#[test]
fn lexes_open_parentheses() {
    let input = "(".to_string();

    let expected = vec![td(Token::OpenParen, "(", 0, 0, 0, 1, 0, 1)];
    let result = lex(&input, 0, 0, 0);

    assert_eq!(result.0, expected);
    assert_eq!(result.1, None);
}

#[test]
fn lexes_close_parentheses() {
    let input = ")".to_string();

    let expected = vec![td(Token::CloseParen, ")", 0, 0, 0, 1, 0, 1)];
    let result = lex(&input, 0, 0, 0);

    assert_eq!(result.0, expected);
    assert_eq!(result.1, None);
}

#[test]
fn lexes_positive_integer() {
    let input = "109".to_string();

    let result = lex(&input, 0, 0, 0);

    assert_eq!(result.0.len(), 1);
    let token = &result.0[0];
    assert!(matches!(token.token, Token::Value(Value::Number(_))));
    assert_eq!(number_value(token), 109.);
    assert_eq!(token.source, "109");
    assert_eq!((token.start, token.start_line, token.start_col, token.end, token.end_line, token.end_col), (0, 0, 0, 3, 0, 3));
    assert_eq!(result.1, None);
}

#[test]
fn lexes_positive_real_number() {
    let input = "109.55".to_string();

    let result = lex(&input, 0, 0, 0);

    assert_eq!(result.0.len(), 1);
    let token = &result.0[0];
    assert!(matches!(token.token, Token::Value(Value::Number(_))));
    assert_eq!(number_value(token), 109.55);
    assert_eq!(token.source, "109.55");
    assert_eq!((token.start, token.start_line, token.start_col, token.end, token.end_line, token.end_col), (0, 0, 0, 6, 0, 6));
    assert_eq!(result.1, None);
}

#[test]
fn lexes_positive_comma_separated_real_number() {
    let input = "62,109.55".to_string();

    let result = lex(&input, 0, 0, 0);

    assert_eq!(result.0.len(), 1);
    let token = &result.0[0];
    assert!(matches!(token.token, Token::Value(Value::Number(_))));
    assert_eq!(number_value(token), 62_109.55);
    assert_eq!(token.source, "62,109.55");
    assert_eq!((token.start, token.start_line, token.start_col, token.end, token.end_line, token.end_col), (0, 0, 0, 9, 0, 9));
    assert_eq!(result.1, None);
}

#[test]
fn lexes_comparison() {
    let input = "test = \"test\"".to_string();

    let expected = vec![
        td(Token::Name("test".to_string()), "test", 0, 0, 0, 4, 0, 4),
        td(Token::Comparator(Comparator::Equal), "=", 5, 0, 5, 6, 0, 6),
        td(Token::Value(Value::String("test".to_string())), "\"test\"", 7, 0, 7, 13, 0, 13),
    ];
    let result = lex(&input, 0, 0, 0);

    assert_eq!(result.0, expected);
    assert_eq!(result.1, None);
}

#[test]
fn lexes_comparison_without_spaces() {
    let input = "test=\"test\"".to_string();

    let expected = vec![
        td(Token::Name("test".to_string()), "test", 0, 0, 0, 4, 0, 4),
        td(Token::Comparator(Comparator::Equal), "=", 4, 0, 4, 5, 0, 5),
        td(Token::Value(Value::String("test".to_string())), "\"test\"", 5, 0, 5, 11, 0, 11),
    ];
    let result = lex(&input, 0, 0, 0);

    assert_eq!(result.0, expected);
    assert_eq!(result.1, None);
}

#[test]
fn lexes_comparison_with_newline() {
    let input = "test =\n10".to_string();

    let expected = vec![
        td(Token::Name("test".to_string()), "test", 0, 0, 0, 4, 0, 4),
        td(Token::Comparator(Comparator::Equal), "=", 5, 0, 5, 6, 0, 6),
        td(Token::Value(Value::Number("10".to_string())), "10", 7, 1, 0, 9, 1, 2),
    ];
    let result = lex(&input, 0, 0, 0);

    assert_eq!(result.0, expected);
    assert_eq!(number_value(&result.0[2]), 10.);
    assert_eq!(result.1, None);
}

#[test]
fn lexes_joined_comparisons() {
    let input = "test = 10,000 | test_2  !=\"test_2\"".to_string();

    let expected = vec![
        td(Token::Name("test".to_string()), "test", 0, 0, 0, 4, 0, 4),
        td(Token::Comparator(Comparator::Equal), "=", 5, 0, 5, 6, 0, 6),
        td(Token::Value(Value::Number("10000".to_string())), "10,000", 7, 0, 7, 13, 0, 13),
        td(Token::JoinType(JoinType::Or), "|", 14, 0, 14, 15, 0, 15),
        td(Token::Name("test_2".to_string()), "test_2", 16, 0, 16, 22, 0, 22),
        td(Token::Comparator(Comparator::NotEqual), "!=", 24, 0, 24, 26, 0, 26),
        td(Token::Value(Value::String("test_2".to_string())), "\"test_2\"", 26, 0, 26, 34, 0, 34),
    ];
    let result = lex(&input, 0, 0, 0);

    assert_eq!(result.0, expected);
    assert_eq!(number_value(&result.0[2]), 10_000.);
    assert_eq!(result.1, None);
}

#[test]
fn lexes_joined_comparisons_with_newline() {
    let input = "test = \"test\"\n| test_2  !=\"test_2\"".to_string();

    let expected = vec![
        td(Token::Name("test".to_string()), "test", 0, 0, 0, 4, 0, 4),
        td(Token::Comparator(Comparator::Equal), "=", 5, 0, 5, 6, 0, 6),
        td(Token::Value(Value::String("test".to_string())), "\"test\"", 7, 0, 7, 13, 0, 13),
        td(Token::JoinType(JoinType::Or), "|", 14, 1, 0, 15, 1, 1),
        td(Token::Name("test_2".to_string()), "test_2", 16, 1, 2, 22, 1, 8),
        td(Token::Comparator(Comparator::NotEqual), "!=", 24, 1, 10, 26, 1, 12),
        td(Token::Value(Value::String("test_2".to_string())), "\"test_2\"", 26, 1, 12, 34, 1, 20),
    ];
    let result = lex(&input, 0, 0, 0);

    assert_eq!(result.0, expected);
    assert_eq!(result.1, None);
}

#[test]
fn errors_on_unexpected_character() {
    let input = "@".to_string();

    let result = lex(&input, 0, 0, 0);

    assert_ne!(result.1, None);
    let result = result.1.unwrap();
    assert_eq!(result.start, 0);
    assert_eq!(result.start_line, 0);
    assert_eq!(result.start, 0);
    assert_eq!(result.end, 1);
}

#[test]
fn errors_on_number_with_extra_decimal() {
    let input = "100.00.0".to_string();

    let result = lex(&input, 0, 0, 0);

    assert_ne!(result.1, None);
}

#[test]
fn errors_on_negative_without_number() {
    let input = "- |".to_string();

    let result = lex(&input, 0, 0, 0);

    assert_ne!(result.1, None);
}

#[test]
fn errors_on_decimal_without_number() {
    let input = ". |".to_string();

    let result = lex(&input, 0, 0, 0);

    assert_ne!(result.1, None);
}

#[test]
fn errors_on_incomplete_not_equal() {
    let input = "test ! \"test\"".to_string();

    let result = lex(&input, 0, 0, 0);

    assert_ne!(result.1, None);
}

#[test]
fn errors_on_incomplete_not_equal_2() {
    let input = "test !".to_string();

    let result = lex(&input, 0, 0, 0);

    assert_ne!(result.1, None);
}

fn error_span(input: &str) -> (usize, usize, usize, usize, usize, usize) {
    let result = lex(input, 0, 0, 0);
    assert_ne!(result.1, None);
    let e = result.1.unwrap();
    (e.start, e.start_line, e.start_col, e.end, e.end_line, e.end_col)
}

#[test]
fn unexpected_character_error_includes_right_metadata() {
    assert_eq!(error_span("test = 2.3 |\n test_2 @ 5"), (21, 1, 8, 22, 1, 9));
}

#[test]
fn number_with_extra_decimal_error_includes_right_metadata() {
    assert_eq!(error_span("test = 2.3 |\n test_2 > 100.00.0"), (23, 1, 10, 30, 1, 17));
}

#[test]
fn decimal_without_number_error_includes_right_metadata() {
    assert_eq!(error_span("test = 2.3 |\n test_2 > . |"), (23, 1, 10, 24, 1, 11));
}

#[test]
fn incomplete_not_equal_error_includes_right_metadata() {
    assert_eq!(error_span("test = 2.3 |\n test_2 ! \"test\""), (21, 1, 8, 23, 1, 10));
}

#[test]
fn incomplete_not_equal_error_includes_right_metadata2() {
    assert_eq!(error_span("test = 2.3 |\n test_2 !"), (21, 1, 8, 22, 1, 9));
}

#[test]
fn errors_include_prior_lex_data() {
    let input = "test = 2 | test_2 !".to_string();

    let expected = vec![
        td(Token::Name("test".to_string()), "test", 0, 0, 0, 4, 0, 4),
        td(Token::Comparator(Comparator::Equal), "=", 5, 0, 5, 6, 0, 6),
        td(Token::Value(Value::Number("2".to_string())), "2", 7, 0, 7, 8, 0, 8),
        td(Token::JoinType(JoinType::Or), "|", 9, 0, 9, 10, 0, 10),
        td(Token::Name("test_2".to_string()), "test_2", 11, 0, 11, 17, 0, 17),
    ];
    let result = lex(&input, 0, 0, 0);

    assert_eq!(result.0, expected);
    assert_eq!(number_value(&result.0[2]), 2.);
    assert_ne!(result.1, None);
}
