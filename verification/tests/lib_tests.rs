use access::{evaluate, expression, tokens, AccessExpression, AccessToken, AccessTokens};

fn unquoted(s: &str) -> AccessToken {
    AccessToken::Unquoted(s.to_string())
}

#[test]
fn parse_expression() {
    assert_eq!(Ok(AccessExpression::Token(unquoted("a"))), expression("a"));
}

#[test]
fn parse_tokens() {
    assert_eq!(Ok(AccessTokens::new(&[unquoted("a")])), tokens("a"));
}

#[test]
fn evaluate_empty_empty() {
    assert!(evaluate(&AccessExpression::Empty, &AccessTokens::empty()))
}

#[test]
fn evaluate_token_match() {
    assert!(evaluate(&AccessExpression::Token(unquoted("a")), &AccessTokens::new(&[unquoted("a")])))
}

#[test]
fn evaluate_token_not_match() {
    assert!(!evaluate(&AccessExpression::Token(unquoted("b")), &AccessTokens::new(&[unquoted("a")])))
}

#[test]
fn evaluate_and_match() {
    assert!(evaluate(
        &AccessExpression::And(vec![AccessExpression::Token(unquoted("a")), AccessExpression::Token(unquoted("b"))]),
        &AccessTokens::new(&[unquoted("a"), unquoted("b")])
    ))
}

#[test]
fn evaluate_and_not_match() {
    assert!(!evaluate(
        &AccessExpression::And(vec![AccessExpression::Token(unquoted("a")), AccessExpression::Token(unquoted("b"))]),
        &AccessTokens::new(&[unquoted("a"), unquoted("c")])
    ))
}

#[test]
fn evaluate_or_match_first() {
    assert!(evaluate(
        &AccessExpression::Or(vec![AccessExpression::Token(unquoted("a")), AccessExpression::Token(unquoted("b"))]),
        &AccessTokens::new(&[unquoted("a")])
    ))
}

#[test]
fn evaluate_or_match_second() {
    assert!(evaluate(
        &AccessExpression::Or(vec![AccessExpression::Token(unquoted("a")), AccessExpression::Token(unquoted("b"))]),
        &AccessTokens::new(&[unquoted("b")])
    ))
}

#[test]
fn evaluate_or_not_match() {
    assert!(!evaluate(
        &AccessExpression::Or(vec![AccessExpression::Token(unquoted("a")), AccessExpression::Token(unquoted("b"))]),
        &AccessTokens::new(&[unquoted("c")])
    ))
}

#[test]
fn display_unquoted_token() {
    assert_eq!(AccessExpression::Token(unquoted("a")).to_string(), "a");
}

#[test]
fn display_quoted_token() {
    assert_eq!(AccessExpression::Token(AccessToken::Quoted("?".to_string())).to_string(), "\"?\"");
}

#[test]
fn display_and() {
    assert_eq!(
        AccessExpression::And(vec![AccessExpression::Token(unquoted("a")), AccessExpression::Token(unquoted("b"))])
            .to_string(),
        "a&b"
    );
}
