use access::{access_tokens, read_token, AccessToken, AccessTokens, TokenParseProblem};

#[test]
fn empty() {
    assert_eq!(access_tokens(""), Ok(AccessTokens::empty()));
}
#[test]
fn parser_invalid_tokens() {
    for example in &["\u{22}", "\u{5C}", "\u{7F}", "\u{E000}"] {
        let chars: Vec<char> = example.chars().collect();
        assert!(read_token(&chars, 0).is_err());
        assert!(access_tokens(example).is_err());
    }
}
#[test]
fn single_invalid_char() {
    assert_eq!(
        access_tokens("\t"),
        Err((0..1, TokenParseProblem::InvalidTokenStart('\t')))
    )
}
#[test]
fn second_invalid_char() {
    assert_eq!(
        access_tokens("a\t"),
        Err((1..2, TokenParseProblem::InvalidTokenStart('\t')))
    )
}
#[test]
fn trailing_comma() {
    assert_eq!(
        access_tokens("a,"),
        Err((2..2, TokenParseProblem::TrailingComma))
    )
}
#[test]
fn tokens_trailing_quote() {
    assert_eq!(
        access_tokens("a,\""),
        Err((3..3, TokenParseProblem::UnclosedQuotedToken))
    )
}
#[test]
fn trailing_partial_token() {
    assert_eq!(
        access_tokens("a,\"b"),
        Err((4..4, TokenParseProblem::UnclosedQuotedToken))
    )
}
#[test]
fn invalid_second_token() {
    assert_eq!(
        access_tokens("a,#"),
        Err((2..3, TokenParseProblem::InvalidTokenStart('#')))
    )
}
#[test]
fn chars_after_quotes() {
    assert_eq!(
        access_tokens("\"a\"b"),
        Err((3..4, TokenParseProblem::CharactersOutsideQuotes))
    )
}
#[test]
fn trailing_backslash() {
    assert_eq!(
        access_tokens("\"a\\"),
        Err((3..3, TokenParseProblem::TrailingBackslashInQuotes))
    )
}
#[test]
fn simple() {
    assert_eq!(
        access_tokens("a"),
        Ok(AccessTokens {
            tokens: vec![AccessToken::Unquoted("a".to_owned())]
        })
    )
}
#[test]
fn quoted() {
    assert_eq!(
        access_tokens("\"a\""),
        Ok(AccessTokens {
            tokens: vec![AccessToken::Unquoted("a".to_owned())]
        })
    )
}
#[test]
fn quoted_with_escape1() {
    assert_eq!(
        access_tokens("\"\\\"\""),
        Ok(AccessTokens {
            tokens: vec![AccessToken::Quoted("\"".to_owned())]
        })
    )
}
#[test]
fn quoted_with_escape2() {
    assert_eq!(
        access_tokens("\"\\\\\""),
        Ok(AccessTokens {
            tokens: vec![AccessToken::Quoted("\\".to_owned())]
        })
    )
}
#[test]
fn display_tpps() {
    assert_eq!(
        "Characters after quotes",
        TokenParseProblem::CharactersOutsideQuotes.to_string());
    assert_eq!(
        "Trailing backslash while inside quotes",
        TokenParseProblem::TrailingBackslashInQuotes.to_string());
    assert_eq!(
        "Trailing comma",
        TokenParseProblem::TrailingComma.to_string());
    assert_eq!(
        "Unclosed quoted token",
        TokenParseProblem::UnclosedQuotedToken.to_string());
    assert_eq!(
        "Invalid token start '?'",
        TokenParseProblem::InvalidTokenStart('?').to_string()
    );
}
