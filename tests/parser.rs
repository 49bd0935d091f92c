use wasm_filter::lexer::{lex, Comparator, JoinType, Token, TokenData, Value};
use wasm_filter::parser::{parse, to_postfix, Comparison, ComparisonOrSearch, Literal, Search};

/// A token on line 0 whose offsets equal its columns.
fn td(token: Token, source: &str, start_col: usize, end_col: usize) -> TokenData {
    TokenData { token, source: source.to_string(), start: start_col, start_line: 0, start_col, end: end_col, end_line: 0, end_col }
}

fn name(n: &str, at: usize) -> TokenData {
    td(Token::Name(n.to_string()), n, at, at + n.len())
}

fn cmp(c: Comparator, source: &str, at: usize) -> TokenData {
    td(Token::Comparator(c), source, at, at + source.len())
}

fn eq(at: usize) -> TokenData {
    cmp(Comparator::Equal, "=", at)
}

fn string(v: &str, at: usize) -> TokenData {
    td(Token::Value(Value::String(v.to_string())), &format!("\"{}\"", v), at, at + v.len() + 2)
}

fn join(j: JoinType, at: usize) -> TokenData {
    let source = match j {
        JoinType::Or => "|",
        JoinType::And => "&",
        JoinType::Xor => "^",
    };
    td(Token::JoinType(j), source, at, at + 1)
}

fn open(at: usize) -> TokenData {
    td(Token::OpenParen, "(", at, at + 1)
}

fn close(at: usize) -> TokenData {
    td(Token::CloseParen, ")", at, at + 1)
}

/// The three tokens of `n = "n"` at columns 0, 5 and 7.
fn leaf_tokens(n: &str) -> Vec<TokenData> {
    vec![name(n, 0), eq(5), string(n, 7)]
}

fn leaf_with(n: &str, c: Comparator, source: &str) -> Vec<TokenData> {
    vec![name(n, 0), cmp(c, source, 5), string(n, 7)]
}

fn comparison(n: &str) -> ComparisonOrSearch {
    ComparisonOrSearch::Comparison(Comparison { name: n.to_string(), comparator: Comparator::Equal, value: Literal::String(n.to_string()) })
}

fn group(join_type: JoinType, comparisons: Vec<ComparisonOrSearch>) -> ComparisonOrSearch {
    ComparisonOrSearch::Search(Search { comparisons, join_type })
}

/// Joins token groups in order.
fn seq(parts: Vec<Vec<TokenData>>) -> Vec<TokenData> {
    parts.into_iter().flatten().collect()
}

#[test]
fn parses_single_comparison() {
    let input = leaf_tokens("test");

    let expected = vec![comparison("test")];
    let result = parse(input);

    assert!(result.is_ok());

    let result = result.unwrap();
    assert_eq!(result.comparisons, expected);
}

#[test]
fn parses_single_join() {
    let input = seq(vec![leaf_tokens("test"), vec![join(JoinType::Or, 14)], leaf_tokens("test_2")]);

    let expected = Search { comparisons: vec![comparison("test"), comparison("test_2")], join_type: JoinType::Or };
    let result = parse(input);

    assert!(result.is_ok());

    let result = result.unwrap();
    assert_eq!(result, expected);
}

#[test]
fn combines_repeated_joins() {
    let input = seq(vec![leaf_tokens("test"), vec![join(JoinType::And, 14)], leaf_tokens("test_2"), vec![join(JoinType::And, 14)], leaf_tokens("test_3"), vec![join(JoinType::And, 14)], leaf_tokens("test_4")]);

    let expected = Search {
        comparisons: vec![comparison("test"), comparison("test_2"), comparison("test_3"), comparison("test_4")],
        join_type: JoinType::And,
    };
    let result = parse(input);

    assert!(result.is_ok());

    let result = result.unwrap();
    assert_eq!(result, expected);
}

#[test]
fn parses_balanced_nested_join() {
    let input = seq(vec![leaf_tokens("test"), vec![join(JoinType::And, 14)], leaf_tokens("test_2"), vec![join(JoinType::Or, 14)], leaf_tokens("test_3"), vec![join(JoinType::And, 14)], leaf_tokens("test_4")]);

    let expected = Search {
        comparisons: vec![
            group(JoinType::And, vec![comparison("test"), comparison("test_2")]),
            group(JoinType::And, vec![comparison("test_3"), comparison("test_4")]),
        ],
        join_type: JoinType::Or,
    };
    let result = parse(input);

    assert!(result.is_ok());

    let result = result.unwrap();
    assert_eq!(result, expected);
}

#[test]
fn parses_imbalanced_nested_join() {
    let input = seq(vec![leaf_tokens("test"), vec![join(JoinType::Or, 14)], leaf_tokens("test_2"), vec![join(JoinType::And, 14)], leaf_tokens("test_3"), vec![join(JoinType::And, 14)], leaf_tokens("test_4")]);

    let expected = Search {
        comparisons: vec![
            comparison("test"),
            group(JoinType::And, vec![comparison("test_2"), comparison("test_3"), comparison("test_4")]),
        ],
        join_type: JoinType::Or,
    };
    let result = parse(input);

    assert!(result.is_ok());

    let result = result.unwrap();
    assert_eq!(result, expected);
}

#[test]
fn leaves_comparisons_alone() {
    let input = leaf_tokens("test");

    let expected = leaf_tokens("test");
    let result = to_postfix(input).unwrap();

    assert_eq!(result, expected);
}

#[test]
fn moves_single_join_type_to_end() {
    let input = seq(vec![leaf_tokens("test"), vec![join(JoinType::Or, 14)], leaf_tokens("test_2")]);

    let expected = seq(vec![leaf_tokens("test"), leaf_tokens("test_2"), vec![join(JoinType::Or, 14)]]);
    let result = to_postfix(input).unwrap();

    assert_eq!(result, expected);
}

#[test]
fn gives_and_precedence_over_or() {
    let input = seq(vec![leaf_tokens("test"), vec![join(JoinType::Or, 14)], leaf_tokens("test_2"), vec![join(JoinType::And, 14)], leaf_tokens("test_3")]);

    let expected = seq(vec![leaf_tokens("test"), leaf_tokens("test_2"), leaf_tokens("test_3"), vec![join(JoinType::And, 14)], vec![join(JoinType::Or, 14)]]);
    let result = to_postfix(input).unwrap();

    assert_eq!(result, expected);
}

#[test]
fn gives_and_precedence_over_or_2() {
    let input = seq(vec![leaf_tokens("test"), vec![join(JoinType::And, 14)], leaf_tokens("test_2"), vec![join(JoinType::Or, 14)], leaf_tokens("test_3")]);

    let expected = seq(vec![leaf_tokens("test"), leaf_tokens("test_2"), vec![join(JoinType::And, 14)], leaf_tokens("test_3"), vec![join(JoinType::Or, 14)]]);
    let result = to_postfix(input).unwrap();

    assert_eq!(result, expected);
}

#[test]
fn gives_xor_precedence_over_and() {
    let input = seq(vec![leaf_tokens("test"), vec![join(JoinType::Xor, 14)], leaf_tokens("test_2"), vec![join(JoinType::And, 14)], leaf_tokens("test_3")]);

    let expected = seq(vec![leaf_tokens("test"), leaf_tokens("test_2"), vec![join(JoinType::Xor, 14)], leaf_tokens("test_3"), vec![join(JoinType::And, 14)]]);
    let result = to_postfix(input).unwrap();

    assert_eq!(result, expected);
}

#[test]
fn gives_xor_precedence_over_and_2() {
    let input = seq(vec![leaf_tokens("test"), vec![join(JoinType::And, 14)], leaf_tokens("test_2"), vec![join(JoinType::Xor, 14)], leaf_tokens("test_3")]);

    let expected = seq(vec![leaf_tokens("test"), leaf_tokens("test_2"), leaf_tokens("test_3"), vec![join(JoinType::Xor, 14)], vec![join(JoinType::And, 14)]]);
    let result = to_postfix(input).unwrap();

    assert_eq!(result, expected);
}

#[test]
fn parentheses_override_precedence_and_over_or() {
    let input = seq(vec![leaf_tokens("test"), vec![join(JoinType::And, 14)], vec![open(13)], leaf_tokens("test_2"), vec![join(JoinType::Or, 14)], leaf_tokens("test_3"), vec![close(13)]]);

    let expected = seq(vec![leaf_tokens("test"), leaf_tokens("test_2"), leaf_tokens("test_3"), vec![join(JoinType::Or, 14)], vec![join(JoinType::And, 14)]]);
    let result = to_postfix(input).unwrap();

    assert_eq!(result, expected);
}

#[test]
fn parentheses_override_precedence_xor_over_and() {
    let input = seq(vec![leaf_tokens("test"), vec![join(JoinType::Xor, 14)], vec![open(13)], leaf_tokens("test_2"), vec![join(JoinType::And, 14)], leaf_tokens("test_3"), vec![close(13)]]);

    let expected = seq(vec![leaf_tokens("test"), leaf_tokens("test_2"), leaf_tokens("test_3"), vec![join(JoinType::And, 14)], vec![join(JoinType::Xor, 14)]]);
    let result = to_postfix(input).unwrap();

    assert_eq!(result, expected);
}

#[test]
fn correctly_transforms_complex_expressions() {
    let input = seq(vec![leaf_tokens("test"), vec![join(JoinType::Xor, 14)], vec![open(13)], leaf_tokens("test_2"), vec![join(JoinType::And, 14)], leaf_tokens("test_3"), vec![close(13)], vec![join(JoinType::Or, 14)], vec![open(13)], vec![open(13)], leaf_with("test_4", Comparator::GreaterThan, ">"), vec![close(13)], vec![join(JoinType::Xor, 14)], leaf_with("test_5", Comparator::GreaterThanOrEqual, ">="), vec![close(13)], vec![join(JoinType::Or, 14)], leaf_with("test_6", Comparator::GreaterThanOrEqual, ">=")]);

    let expected = seq(vec![leaf_tokens("test"), leaf_tokens("test_2"), leaf_tokens("test_3"), vec![join(JoinType::And, 14)], vec![join(JoinType::Xor, 14)], leaf_with("test_4", Comparator::GreaterThan, ">"), leaf_with("test_5", Comparator::GreaterThanOrEqual, ">="), vec![join(JoinType::Xor, 14)], vec![join(JoinType::Or, 14)], leaf_with("test_6", Comparator::GreaterThanOrEqual, ">="), vec![join(JoinType::Or, 14)]]);
    let result = to_postfix(input).unwrap();

    assert_eq!(result, expected);
}

#[test]
fn panics_if_given_close_paren_without_open() {
    let input = seq(vec![leaf_tokens("test"), vec![join(JoinType::And, 14)], leaf_tokens("test_2"), vec![join(JoinType::Or, 14)], leaf_tokens("test_3"), vec![close(13)]]);

    let result = to_postfix(input);

    assert!(result.unwrap_err().contains("without a preceding open"));
}

#[test]
fn panics_if_given_open_paren_without_close() {
    let input = seq(vec![leaf_tokens("test"), vec![join(JoinType::And, 14)], vec![open(13)], leaf_tokens("test_2"), vec![join(JoinType::Or, 14)], leaf_tokens("test_3")]);

    let result = to_postfix(input);

    assert!(result.unwrap_err().contains("Unclosed"));
}

#[test]
fn panics_on_bad_nested_parens() {
    let input = seq(vec![leaf_tokens("test"), vec![join(JoinType::And, 14)], vec![open(13)], vec![open(13)], leaf_tokens("test_2"), vec![close(13)], vec![join(JoinType::Or, 14)], leaf_tokens("test_3")]);

    let result = to_postfix(input);

    assert!(result.unwrap_err().contains("Unclosed"));
}

#[test]
fn panics_on_out_of_order_open_parentheses() {
    let input = seq(vec![leaf_tokens("test"), vec![open(13)], vec![join(JoinType::And, 14)], leaf_tokens("test_2"), vec![join(JoinType::Or, 14)], leaf_tokens("test_3"), vec![close(13)]]);

    let result = to_postfix(input);

    assert!(result.unwrap_err().contains("Expected operator"));
}

#[test]
fn panics_on_out_of_order_close_parentheses() {
    let input = seq(vec![leaf_tokens("test"), vec![join(JoinType::And, 14)], vec![open(13)], leaf_tokens("test_2"), vec![join(JoinType::Or, 14)], vec![close(13)], leaf_tokens("test_3")]);

    let result = to_postfix(input);

    assert!(result.unwrap_err().contains("Unexpected close"));
}

#[test]
fn parses_with_balanced_joins() {
    let input = "test = \"test\" & test_2 = \"test_2\" | test_3 = \"test_3\" & test_4 = \"test_4\"".to_string();

    let expected_parse = Search {
        comparisons: vec![
            group(JoinType::And, vec![comparison("test"), comparison("test_2")]),
            group(JoinType::And, vec![comparison("test_3"), comparison("test_4")]),
        ],
        join_type: JoinType::Or,
    };

    let result = lex(&input, 0, 0, 0);
    let result = parse(result.0).unwrap();
    assert_eq!(result, expected_parse);
}
