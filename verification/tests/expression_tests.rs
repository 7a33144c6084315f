use access::{access_expression, read_token, AccessExpression, AccessToken, ExpressionParseProblem};

fn token(s: &str) -> AccessExpression {
    AccessExpression::Token(AccessToken::new(s))
}

#[test]
fn single_token_empty() {
    assert_eq!(access_expression(""), Ok(AccessExpression::Empty));
}
#[test]
fn expression_invalid_tokens() {
    for example in &["\u{22}", "\u{5C}", "\u{7F}", "\u{E000}"] {
        let chars: Vec<char> = example.chars().collect();
        assert!(read_token(&chars, 0).is_err());
        assert!(access_expression(example).is_err());
    }
}
#[test]
fn single_token() {
    assert_eq!(access_expression("abc"), Ok(token("abc")));
}
#[test]
fn expression_trailing_quote() {
    assert_eq!(
        access_expression("a\""),
        Err(ExpressionParseProblem::TrailingQuotes)
    );
}
#[test]
fn weird_token() {
    assert_eq!(access_expression("\"a&b!\""), Ok(token("a&b!")))
}
#[test]
fn quoted_space_token() {
    assert_eq!(access_expression("\" \""), Ok(token(" ")))
}
#[test]
fn quoted_exclamation_token() {
    assert_eq!(access_expression("\"!\""), Ok(token("!")))
}
#[test]
fn utf8_low_token() {
    assert_eq!(access_expression("\"\u{1234}\""), Ok(token("\u{1234}")))
}
#[test]
fn utf8_high_token() {
    assert_eq!(access_expression("\"\u{FE00}\""), Ok(token("\u{FE00}")))
}
#[test]
fn maximal_token() {
    let s = "abcdefghijklmnopqrstuvwxyzABCDEFGHIJKLMNOPQRSTUVWXYZ09123456789-_:./";
    assert_eq!(access_expression(s), Ok(token(s)))
}
#[test]
fn parens() {
    assert_eq!(access_expression("(a)"), Ok(token("a")))
}
#[test]
fn parens_quoted() {
    assert_eq!(access_expression("(\"a\")"), Ok(token("a")))
}
#[test]
fn andand() {
    assert_eq!(
        access_expression("a&&"),
        Err(ExpressionParseProblem::InvalidTokenStart('&'))
    );
}
#[test]
fn and2() {
    assert_eq!(
        access_expression("a&b"),
        Ok(AccessExpression::And(vec![token("a"), token("b")]))
    )
}
#[test]
fn and3() {
    assert_eq!(
        access_expression("a&b&c"),
        Ok(AccessExpression::And(vec![
            token("a"),
            token("b"),
            token("c")
        ]))
    )
}
#[test]
fn trailing_and() {
    assert_eq!(
        access_expression("a&"),
        Err(ExpressionParseProblem::TrailingJunction)
    );
}
#[test]
fn trailing_and2() {
    assert_eq!(
        access_expression("a&b&"),
        Err(ExpressionParseProblem::TrailingJunction)
    )
}
#[test]
fn and_paren1() {
    assert_eq!(
        access_expression("(a)&b"),
        Ok(AccessExpression::And(vec![token("a"), token("b")]))
    )
}
#[test]
fn and_paren2() {
    assert_eq!(
        access_expression("a&(b)"),
        Ok(AccessExpression::And(vec![token("a"), token("b")]))
    )
}
#[test]
fn and_paren3a() {
    assert_eq!(
        access_expression("(a)&b&c"),
        Ok(AccessExpression::And(vec![
            token("a"),
            token("b"),
            token("c")
        ]))
    )
}
#[test]
fn and_paren3b() {
    assert_eq!(
        access_expression("a&(b)&c"),
        Ok(AccessExpression::And(vec![
            token("a"),
            token("b"),
            token("c")
        ]))
    )
}
#[test]
fn and_paren3c() {
    assert_eq!(
        access_expression("a&b&(c)"),
        Ok(AccessExpression::And(vec![
            token("a"),
            token("b"),
            token("c")
        ]))
    )
}

#[test]
fn and_paren_and() {
    assert_eq!(
        access_expression("a&(b&c)"),
        Ok(AccessExpression::And(vec![
            token("a"),
            token("b"),
            token("c")
        ]))
    )
}

#[test]
fn paren_andand() {
    assert_eq!(
        access_expression("(a&)"),
        Err(ExpressionParseProblem::InvalidTokenStart(')'))
    );
}

#[test]
fn paren_and_and() {
    assert_eq!(
        access_expression("(a&b)&c"),
        Ok(AccessExpression::And(vec![
            token("a"),
            token("b"),
            token("c")
        ]))
    )
}

#[test]
fn or2() {
    assert_eq!(
        access_expression("a|b"),
        Ok(AccessExpression::Or(vec![token("a"), token("b")]))
    )
}
#[test]
fn or3() {
    assert_eq!(
        access_expression("a|b|c"),
        Ok(AccessExpression::Or(vec![
            token("a"),
            token("b"),
            token("c")
        ]))
    )
}

#[test]
fn or_paren_or() {
    assert_eq!(
        access_expression("a|(b|c)"),
        Ok(AccessExpression::Or(vec![
            token("a"),
            token("b"),
            token("c")
        ]))
    )
}

#[test]
fn paren_or_or() {
    assert_eq!(
        access_expression("(a|b)|c"),
        Ok(AccessExpression::Or(vec![
            token("a"),
            token("b"),
            token("c")
        ]))
    )
}

#[test]
fn mixed_junction_and_or() {
    assert_eq!(
        access_expression("a&b|c"),
        Err(ExpressionParseProblem::CannotMixAndWithOr)
    );
}
#[test]
fn mixed_junction_or_and() {
    assert_eq!(
        access_expression("a|b&c"),
        Err(ExpressionParseProblem::CannotMixAndWithOr)
    );
}
#[test]
fn mixed_junction_and_or_and() {
    assert_eq!(
        access_expression("a&b|c&d"),
        Err(ExpressionParseProblem::CannotMixAndWithOr)
    );
}
#[test]
fn mixed_junction_or_and_or() {
    assert_eq!(
        access_expression("a|b&c|d"),
        Err(ExpressionParseProblem::CannotMixAndWithOr)
    );
}
#[test]
fn mixed_junction_and_and_or() {
    assert_eq!(
        access_expression("a&b&c|d"),
        Err(ExpressionParseProblem::CannotMixAndWithOr)
    );
}
#[test]
fn mixed_junction_or_or_and() {
    assert_eq!(
        access_expression("a|b|c&d"),
        Err(ExpressionParseProblem::CannotMixAndWithOr)
    );
}
#[test]
fn junction_after_paren_and() {
    assert_eq!(
        access_expression("a(&"),
        Err(ExpressionParseProblem::MissingJunction)
    )
}
#[test]
fn junction_after_paren_or() {
    assert_eq!(
        access_expression("a(|"),
        Err(ExpressionParseProblem::MissingJunction)
    )
}
#[test]
fn legal_character_after_quoted_token1() {
    assert_eq!(
        access_expression("\"a\"1"),
        Err(ExpressionParseProblem::CharactersOutsideQuotes)
    )
}
#[test]
fn legal_character_after_quoted_token2() {
    assert_eq!(
        access_expression("\"a\"a"),
        Err(ExpressionParseProblem::CharactersOutsideQuotes)
    )
}
#[test]
fn legal_character_after_quoted_token3() {
    assert_eq!(
        access_expression("\"a\"A"),
        Err(ExpressionParseProblem::CharactersOutsideQuotes)
    )
}
#[test]
fn illegal_character_after_quoted_token() {
    assert_eq!(
        access_expression("\"#\"@"),
        Err(ExpressionParseProblem::InvalidTokenStart('@'))
    )
}

#[test]
fn roundtrip() {
    // Note: these must be instances which are sorted correctly to start with, so that they wind up serializing
    // exactly the same.
    for instance in ["", "a", "a&b", "banana", "a|b", "a&(b|c)", "c|(a&b)"].into_iter() {
        assert_eq!(
            Ok(instance),
            access_expression(instance)
                .map(|i| i.to_string())
                .as_deref()
        )
    }
}

#[test]
fn display_epps() {
    assert_eq!(
        "Invalid token start '?'",
        ExpressionParseProblem::InvalidTokenStart('?').to_string()
    );
    assert_eq!(
        "Missing junction",
        ExpressionParseProblem::MissingJunction.to_string());
    assert_eq!(
        "Trailing quotes",
        ExpressionParseProblem::TrailingQuotes.to_string());
    assert_eq!(
        "Characters after close quotes not allowed",
        ExpressionParseProblem::CharactersOutsideQuotes.to_string());
    assert_eq!(
        "Cannot mix & with |, use parens to disambiguate",
        ExpressionParseProblem::CannotMixAndWithOr.to_string());
    assert_eq!(
        "Empty tokens not allowed in junctions",
        ExpressionParseProblem::EmptyTokensNotAllowedInJunctions.to_string());
    assert_eq!(
        "Trailing junction not allowed",
        ExpressionParseProblem::TrailingJunction.to_string());
}
