use access::{
    access_expression, access_tokens, evaluate, expression, is_implied_by, simplify, tokens, verify,
    equivalent_on_choices, verify_equivalence, verify_simplification, AccessExpression, AccessToken, AccessTokens,
    ExpressionParseProblem, TokenParseProblem,
};

fn unquoted(s: &str) -> AccessToken {
    AccessToken::Unquoted(s.to_string())
}

fn quoted(s: &str) -> AccessToken {
    AccessToken::Quoted(s.to_string())
}

fn tok(s: &str) -> AccessExpression {
    AccessExpression::Token(AccessToken::new(s))
}

#[test]
fn readme_canonical_expression_order() {
    let e = expression("(b&D)|Z|(a|c)").unwrap();
    assert_eq!(e.to_string(), "Z|a|c|(D&b)");
}

#[test]
fn readme_canonical_token_order() {
    let ts = tokens("\":)\",A,\"…\",Z").unwrap();
    assert_eq!(ts.to_string(), "A,Z,\":)\",\"…\"");
}

#[test]
fn readme_evaluate_examples() {
    let e = expression("A&(b|c)").unwrap();
    assert!(evaluate(&e, &tokens("A,c").unwrap()));
    assert!(!evaluate(&e, &tokens("b,c").unwrap()));
}

#[test]
fn readme_example_expression_reads() {
    let e = expression("\":)\"&Z&(\"…\"|\"A\")").unwrap();
    assert_eq!(
        e,
        AccessExpression::And(vec![
            AccessExpression::Token(unquoted("Z")),
            AccessExpression::Token(quoted(":)")),
            AccessExpression::Or(vec![
                AccessExpression::Token(unquoted("A")),
                AccessExpression::Token(quoted("…")),
            ]),
        ])
    );
}

#[test]
fn quoted_token_same_as_unquoted() {
    assert_eq!(tokens("\"a\""), tokens("a"));
    assert_eq!(expression("\"abc\""), expression("abc"));
    assert_eq!(expression("\"a\"&b"), expression("a&b"));
}

#[test]
fn quoting_rule_with_escapes() {
    assert_eq!(
        tokens("\"a\\\"b\\\\c\""),
        Ok(AccessTokens { tokens: vec![quoted("a\"b\\c")] })
    );
    assert_eq!(tokens("\"\\\"\""), Ok(AccessTokens { tokens: vec![quoted("\"")] }));
}

#[test]
fn tokens_write_then_read() {
    let ts = AccessTokens::new(&[unquoted("b"), quoted("x y"), unquoted("a"), quoted("ñ")]);
    assert_eq!(ts.to_string(), "a,b,\"x y\",\"ñ\"");
    assert_eq!(tokens(&ts.to_string()), Ok(ts));
}

#[test]
fn expression_write_then_read() {
    for text in ["", "a", "a&b", "a|b|c", "a&(b|c)", "c|(a&b)", "Z|a|c|(D&b)", "\"x y\"&(a|(b&c))"] {
        let e = expression(text).unwrap();
        assert_eq!(e.to_string(), text);
        assert_eq!(expression(&e.to_string()), Ok(e));
    }
}

#[test]
fn quoted_token_escapes_quote_and_backslash() {
    // A double quote is written after a backslash, and a backslash is doubled.
    assert_eq!(quoted("\"").emit(), r#""\"""#);
    assert_eq!(quoted("\\").emit(), r#""\\""#);
    let t = quoted("a\"b\\c");
    assert_eq!(t.to_string(), r#""a\"b\\c""#);
    assert_eq!(access_tokens(&t.to_string()), Ok(AccessTokens { tokens: vec![t.clone()] }));
    let e = expression(&format!("{}&x", t.to_string())).unwrap();
    assert_eq!(expression(&e.to_string()), Ok(e));
}

#[test]
fn quoted_token_may_hold_any_character() {
    assert_eq!(tokens("\"\u{1}\""), Ok(AccessTokens { tokens: vec![quoted("\u{1}")] }));
    assert_eq!(tokens("\"\u{7F}\""), Ok(AccessTokens { tokens: vec![quoted("\u{7F}")] }));
    assert_eq!(tokens("\"\u{E000}\""), Ok(AccessTokens { tokens: vec![quoted("\u{E000}")] }));
    let e = expression("\"\u{1}\"|a").unwrap();
    assert_eq!(expression(&e.to_string()), Ok(e));
}

#[test]
fn read_expressions_are_sorted_and_flattened() {
    let e = expression("(c|b)&(a&(z|y))").unwrap();
    assert_eq!(e.to_string(), "a&(b|c)&(y|z)");
}

#[test]
fn simplified_reads_back() {
    for text in [
        "(a|b)&(a|b|c)",
        "b&(b|(a&bb&(a|(a&b)|z))|z)",
        "(a&b&c)|(a&b&d)|(b&c&d)|(a&b)",
        "Y&bbb&(a|(Y&bbb))&(a|(Y&bb/))&(a|b)",
        "x&(y|(z&(w|v)))",
    ] {
        let e = expression(text).unwrap();
        let s = simplify(&e);
        verify_equivalence(&e, &s);
        assert_eq!(expression(&s.to_string()), Ok(s));
    }
}

#[test]
fn simplification_keeps_meaning() {
    for text in ["a&(a|b)", "a|(a&b)", "(a|b)&(b|a)", "a&b&(c|(a&d))", "(a&b)|(a&c)|(a&b&c)"] {
        let e = expression(text).unwrap();
        verify_simplification(&e);
    }
}

#[test]
fn simplify_nested_assumption() {
    assert_eq!(
        expression("a&(b|(a&c))").unwrap().simplify(),
        expression("a&(b|c)").unwrap()
    );
}

#[test]
fn simplify_or_holding_empty_is_not_well_formed() {
    // A disjunction with the empty expression among its children always holds, yet simplifies
    // to its other child.
    let e = AccessExpression::Or(vec![tok("a"), AccessExpression::Empty]);
    assert_eq!(simplify(&e), tok("a"));
    assert!(!equivalent_on_choices(&e, &simplify(&e)));
}

#[test]
fn simplify_reads_empty_conjunction_in_disjunction_as_satisfied() {
    // An empty conjunction inside a disjunction is satisfied, so the whole disjunction is.
    let e = AccessExpression::Or(vec![tok("a"), AccessExpression::And(vec![])]);
    assert_eq!(simplify(&e), AccessExpression::Empty);
    assert!(equivalent_on_choices(&e, &simplify(&e)));
    verify_simplification(&e);
    let nested = AccessExpression::Or(vec![AccessExpression::Or(vec![AccessExpression::Empty]), tok("b")]);
    assert_eq!(simplify(&nested), tok("b"));
    assert!(!equivalent_on_choices(&nested, &simplify(&nested)));
}

#[test]
fn simplify_empty_disjunction() {
    assert_eq!(simplify(&AccessExpression::Or(vec![])), AccessExpression::Empty);
    assert_eq!(simplify(&AccessExpression::And(vec![])), AccessExpression::Empty);
}

#[test]
fn equivalent_on_choices_detects_difference() {
    assert!(!equivalent_on_choices(&tok("a"), &tok("b")));
    assert!(!equivalent_on_choices(&expression("a|b").unwrap(), &expression("a&b").unwrap()));
    assert!(equivalent_on_choices(&expression("a&(a|b)").unwrap(), &tok("a")));
}

#[test]
fn relevant_tokens_sorted_once() {
    let e = expression("b&(a|b)&(c|(a&b))").unwrap();
    assert_eq!(e.relevant_tokens(), AccessTokens { tokens: vec![unquoted("a"), unquoted("b"), unquoted("c")] });
}

#[test]
fn verify_bytes() {
    assert_eq!(verify(b"f&b&ca&b&(a|b)"), true);
    assert_eq!(verify(b"(ag&(b))|(b&(b))"), true);
    assert_eq!(verify(b"f&b&ca&b&(a|b)\0"), false);
    assert_eq!(verify(b"a&"), false);
    assert_eq!(verify(&[0x61, 0xff]), false);
    assert_eq!(verify(b"a&b&c&d&e&f&g"), false);
    assert_eq!(verify("\"ñ\"&a".as_bytes()), true);
}

#[test]
fn implication_is_sound_on_examples() {
    assert!(is_implied_by(&tok("a"), &[expression("a&b").unwrap()]));
    assert!(is_implied_by(&expression("a|c").unwrap(), &[tok("a")]));
    assert!(!is_implied_by(&tok("c"), &[expression("a|b").unwrap()]));
    assert!(is_implied_by(&AccessExpression::Empty, &[]));
}

#[test]
fn parse_problems() {
    assert_eq!(access_expression("a&"), Err(ExpressionParseProblem::TrailingJunction));
    assert_eq!(access_expression("a&b|c"), Err(ExpressionParseProblem::CannotMixAndWithOr));
    assert_eq!(access_expression("a(b"), Err(ExpressionParseProblem::MissingJunction));
    assert_eq!(access_expression("a\""), Err(ExpressionParseProblem::TrailingQuotes));
    assert_eq!(access_expression("\"a\"b"), Err(ExpressionParseProblem::CharactersOutsideQuotes));
    assert_eq!(access_expression("#"), Err(ExpressionParseProblem::InvalidTokenStart('#')));
    assert_eq!(access_tokens("a,"), Err((2..2, TokenParseProblem::TrailingComma)));
    assert_eq!(access_tokens("\"a"), Err((2..2, TokenParseProblem::UnclosedQuotedToken)));
    assert_eq!(access_tokens("\"a\\"), Err((3..3, TokenParseProblem::TrailingBackslashInQuotes)));
    assert_eq!(access_tokens("\"a\"b"), Err((3..4, TokenParseProblem::CharactersOutsideQuotes)));
    assert_eq!(access_tokens("ñ"), Err((0..2, TokenParseProblem::InvalidTokenStart('ñ'))));
}

#[test]
fn token_new_picks_kind() {
    assert_eq!(AccessToken::new("abc"), unquoted("abc"));
    assert_eq!(AccessToken::new("a b"), quoted("a b"));
    assert_eq!(AccessToken::new(""), quoted(""));
    assert_eq!(quoted("a b").emit(), "\"a b\"");
}

#[test]
fn tokens_new_sorts() {
    let ts = AccessTokens::new(&[quoted("q"), unquoted("b"), unquoted("a")]);
    assert_eq!(ts.tokens, vec![unquoted("a"), unquoted("b"), quoted("q")]);
    assert_eq!(AccessTokens::empty().to_string(), "");
}

#[test]
fn combining_keeps_meaning() {
    let inner = AccessExpression::And(vec![tok("c"), tok("a")]);
    let combined = AccessExpression::and(vec![tok("b"), inner.clone()]);
    assert_eq!(combined, AccessExpression::And(vec![tok("a"), tok("b"), tok("c")]));
    let written = AccessExpression::And(vec![tok("b"), inner]);
    for held in ["", "a", "a,b", "a,b,c", "b,c"] {
        let ts = tokens(held).unwrap();
        assert_eq!(evaluate(&combined, &ts), evaluate(&written, &ts));
    }
    let either = AccessExpression::or(vec![AccessExpression::Or(vec![tok("z"), tok("x")]), tok("y")]);
    assert_eq!(either.to_string(), "x|y|z");
}

#[test]
fn evaluation_ignores_token_order() {
    let e = expression("a&(b|c)").unwrap();
    let written = AccessTokens { tokens: vec![unquoted("c"), unquoted("a"), unquoted("c")] };
    let sorted = AccessTokens::new(&written.tokens);
    assert!(evaluate(&e, &written));
    assert_eq!(evaluate(&e, &written), evaluate(&e, &sorted));
}

#[test]
fn readme_nested_parentheses() {
    assert_eq!(expression("((((((a))))))"), Ok(tok("a")));
    assert_eq!(expression("(A)"), Ok(tok("A")));
}

#[test]
fn readme_tokens_are_exact_code_points() {
    let composed = expression("\"\u{00F1}\"").unwrap();
    let decomposed = tokens("\"n\u{0303}\"").unwrap();
    assert_ne!(tokens("\"\u{00F1}\"").unwrap(), decomposed);
    assert!(!evaluate(&composed, &decomposed));
    assert!(!evaluate(&tok("A"), &tokens("a").unwrap()));
}

#[test]
fn simplify_drops_repeated_children() {
    assert_eq!(expression("a|a|(b&b)").unwrap().simplify(), expression("a|b").unwrap());
    assert_eq!(expression("(a|b)&(b|a)&c").unwrap().simplify(), expression("c&(a|b)").unwrap());
}

fn generated(seed: &mut u64, depth: u32, junction: char) -> String {
    *seed = seed.wrapping_mul(6364136223846793005).wrapping_add(1442695040888963407);
    let pick = (*seed >> 33) % 7;
    if depth == 0 || pick < 3 {
        let names = ["a", "b", "c", "d", "\"x y\""];
        return names[((*seed >> 40) % 5) as usize].to_string();
    }
    let inner = if junction == '&' { '|' } else { '&' };
    let count = 2 + ((*seed >> 45) % 3);
    let mut parts = Vec::new();
    for _ in 0..count {
        parts.push(generated(seed, depth - 1, inner));
    }
    format!("({})", parts.join(&inner.to_string()))
}

#[test]
fn simplification_of_generated_expressions() {
    let mut seed: u64 = 7;
    for round in 0..300 {
        let top = if round % 2 == 0 { '&' } else { '|' };
        let text = generated(&mut seed, 3, top);
        let e = expression(&text).unwrap();
        let s = e.simplify();
        verify_equivalence(&e, &s);
        verify_simplification(&e);
        assert_eq!(expression(&s.to_string()), Ok(s.clone()), "{text}");
        assert_eq!(verify(text.as_bytes()), true);
    }
}

#[test]
fn holding_more_tokens_keeps_access() {
    let e = expression("a&(b|c)").unwrap();
    assert!(evaluate(&e, &tokens("a,c").unwrap()));
    assert!(evaluate(&e, &tokens("a,b,c,d").unwrap()));
    assert!(!evaluate(&e, &tokens("b,c").unwrap()));
}

#[test]
fn only_mentioned_tokens_matter() {
    let e = expression("a&(b|c)").unwrap();
    assert_eq!(evaluate(&e, &tokens("a,c").unwrap()), evaluate(&e, &tokens("a,c,y,z").unwrap()));
    assert_eq!(evaluate(&e, &tokens("b").unwrap()), evaluate(&e, &tokens("b,x").unwrap()));
}

#[test]
fn only_empty_text_reads_as_empty() {
    assert_eq!(expression(""), Ok(AccessExpression::Empty));
    assert!(expression("a").unwrap() != AccessExpression::Empty);
    assert!(expression("()").is_err());
}

#[test]
fn operand_order_does_not_change_reading() {
    assert_eq!(expression("a&(b|c)"), expression("(c|b)&a"));
    assert_eq!(expression("x|y|(p&q)"), expression("(q&p)|y|x"));
    assert_eq!(expression("c|(b&a)"), expression("(a&b)|c"));
    assert_eq!(expression("b&a"), expression("a&b"));
}

#[test]
fn distinct_texts_give_each_text_once() {
    let ts = AccessTokens {
        tokens: vec![unquoted("a"), quoted("b"), unquoted("b"), quoted("x y"), unquoted("a")],
    };
    assert_eq!(ts.distinct_texts(), vec!["a".to_string(), "b".to_string(), "x y".to_string()]);
    assert_eq!(AccessTokens::empty().distinct_texts(), Vec::<String>::new());
}
