use std::collections::HashSet;
use access::{
    access_expression, identify_redundant_junctions, is_implied_by, simplify, verify_equivalence, AccessExpression,
    AccessToken, JunctionType,
};

fn tok(name: &str) -> AccessExpression {
    AccessExpression::Token(AccessToken::new(name))
}

fn test_with_parsing(input: &str, output: &str) {
    let lhs = access_expression(input).expect("Input could not be parsed");
    let rhs = access_expression(output).expect("Output could not be parsed");
    verify_equivalence(&lhs, &rhs);
    assert_eq!(
        lhs.simplify(),
        rhs,
        "Simplified version on left did not match expectations on right"
    );
}

#[test]
fn simplify_empty() {
    assert_eq!(simplify(&AccessExpression::Empty), AccessExpression::Empty)
}

#[test]
fn simplify_token() {
    let token: AccessToken = AccessToken::new("a");
    assert_eq!(
        simplify(&AccessExpression::Token(token.clone())),
        AccessExpression::Token(token)
    )
}

#[test]
fn simplify_and_nop() {
    let token1: AccessToken = AccessToken::new("a");
    let token2: AccessToken = AccessToken::new("b");
    assert_eq!(
        simplify(&AccessExpression::And(vec![
            AccessExpression::Token(token1.clone()),
            AccessExpression::Token(token2.clone())
        ])),
        AccessExpression::And(vec![
            AccessExpression::Token(token1.clone()),
            AccessExpression::Token(token2.clone())
        ])
    )
}

#[test]
fn simplify_and_and() {
    let token1: AccessToken = AccessToken::new("a");
    let token2: AccessToken = AccessToken::new("b");
    assert_eq!(
        simplify(&AccessExpression::And(vec![
            AccessExpression::Token(token1.clone()),
            AccessExpression::And(vec![
                AccessExpression::Token(token1.clone()),
                AccessExpression::Token(token2.clone())
            ])
        ])),
        AccessExpression::And(vec![
            AccessExpression::Token(token1.clone()),
            AccessExpression::Token(token2.clone())
        ])
    )
}

#[test]
fn simplify_and_or() {
    let token1: AccessToken = AccessToken::new("a");
    let token2: AccessToken = AccessToken::new("b");
    assert_eq!(
        simplify(&AccessExpression::And(vec![
            AccessExpression::Token(token1.clone()),
            AccessExpression::Or(vec![
                AccessExpression::Token(token1.clone()),
                AccessExpression::Token(token2.clone())
            ])
        ])),
        AccessExpression::Token(token1.clone()),
    )
}

#[test]
fn simplify_or_and() {
    let token1: AccessToken = AccessToken::new("a");
    let token2: AccessToken = AccessToken::new("b");
    assert_eq!(
        simplify(&AccessExpression::Or(vec![
            AccessExpression::Token(token1.clone()),
            AccessExpression::And(vec![
                AccessExpression::Token(token1.clone()),
                AccessExpression::Token(token2.clone())
            ])
        ])),
        AccessExpression::Token(token1.clone())
    )
}

#[test]
fn simplify_or_or() {
    let token1: AccessToken = AccessToken::new("a");
    let token2: AccessToken = AccessToken::new("b");
    assert_eq!(
        simplify(&AccessExpression::Or(vec![
            AccessExpression::Token(token1.clone()),
            AccessExpression::Or(vec![
                AccessExpression::Token(token1.clone()),
                AccessExpression::Token(token2.clone())
            ])
        ])),
        AccessExpression::Or(vec![
            AccessExpression::Token(token1.clone()),
            AccessExpression::Token(token2.clone())
        ])
    )
}

#[test]
fn simplify_or_and2_and3() {
    assert!(!is_implied_by(
        &AccessExpression::And(vec![tok("a"), tok("b"), tok("c")]),
        &[AccessExpression::And(vec![tok("a"), tok("b")])]
    ));
    assert!(is_implied_by(
        &AccessExpression::And(vec![tok("a"), tok("b")]),
        &[AccessExpression::And(vec![tok("a"), tok("b"), tok("c")])],
    ));
    assert_eq!(
        simplify(&AccessExpression::Or(vec![
            AccessExpression::And(vec![tok("a"), tok("b")]),
            AccessExpression::And(vec![tok("a"), tok("b"), tok("c"),])
        ])),
        AccessExpression::And(vec![tok("a"), tok("b"),])
    )
}

#[test]
fn simplify_and_or2_or3() {
    test_with_parsing("(a|b)&(a|b|c)", "a|b");
}

#[test]
fn fuzz1() {
    test_with_parsing("f&b&ca&b&(a|b)", "b&ca&f")
}

#[test]
fn fuzz2() {
    test_with_parsing("b&(b|(a&bb&(a|(a&b)|z))|z)", "b");
}

#[test]
fn fuzz3() {
    test_with_parsing("aa&b&(a|b)&b&c", "aa&b&c");
}

#[test]
fn fuzz4() {
    test_with_parsing(
        "x&(a&\")&(a|a|&(a|a&\")&(a|a|b)&c",
        "a&c&x&\")&(a|a|&(a|a&\"",
    );
}

#[test]
fn fuzz5() {
    test_with_parsing(
        "y&(a|b)&c&(a|a|b)&(a|a)&(a|bb|a|b)&c&(a|a|b)&(b|auba|b)&c\
            &(a|a|b)&(a|a)&(a|b)&c&(b|a)&(a|a|b|b)&c&(a|a|b)&(b|auba|b)&c&c\
            &(a|a|b)&(b|a|a|b)&(c&(a|b)&c&(b|a)&(a|b|b)&c&(a|a|b)&(a|a)&(a|bb|a|b)\
            &c&(c&(a|a|bb|a)&(a|b|b)&c&(a|a|b)&(b|b)&c&(a|a)&(a|a|b)&c&a)&(a|b)\
            &(b|auba|b)&c&(auba|b)&c&(a|a|a|b)&(a|a)&(a|bb|a|b)&c)&(a|b|b)&c&(a|b)\
            &(a|a|b)&(a|a|b)&c&c",
        "a&b&c&y",
    );
}

#[test]
fn fuzz6() {
    test_with_parsing(
        "y&(a|b)&c&(000000000000|b)&c&(a|a|(b&c&(b|a)&(a)&c&(a|a|b)&c&(a|a|(b&a))&\
        c&(a|a|b)&(b|b)&(b|auba|b)&c&(a|a|b)&c&(a|a|(b&a))&c&(a|a|b)&(b|auba|a|(b&a))&c&\
        (a|a|b)&(b|b)&a))&c&(a|a|b)&(a|a)&(a|b|b|b)&c&(a|a)&(a|b)&c&(a|a|b)&(a|a|b)&c&a",
        "a&c&y&(000000000000|b)",
    );
}

#[test]
fn fuzz7_simplify() {
    assert!(!is_implied_by(
        &AccessExpression::And(vec![tok("b"), tok("c")]),
        &[
            tok("bcb"),
            tok("bzfa"),
            AccessExpression::Or(vec![tok("b"), tok("c")])
        ]
    ))
}

#[test]
fn fuzz7() {
    test_with_parsing("(b&c)|(bcb&bzfa&cb&(b|c))", "(b&c)|(bcb&bzfa&cb&(b|c))");
}

#[test]
fn fuzz8a() {
    test_with_parsing("(af|(s&a&w))&(af|(s&a))", "(af|(a&s&w))");
}

#[test]
fn fuzz9() {
    test_with_parsing("(\"&\")|((a|b)&mkf)|b", "\"&\"|b|((a|b)&mkf)");
}

#[test]
fn fuzz10() {
    test_with_parsing("Y&bbb&(a|(Y&bbb))&(a|(Y&bb/))&(a|b)", "Y&bbb&(a|bb/)&(a|b)");
}

#[test]
fn fuzz11() {
    verify_equivalence(
        &access_expression("b&((a&b)|(b&b)|(b&(c|d)))").unwrap(),
        &access_expression("b").unwrap(),
    );
    test_with_parsing("b&((a&b)|(b&b)|(b&(c|d)))", "b");
}

#[test]
fn fuzz12() {
    test_with_parsing(
        "Sj&(a|(W))&(a|i|\"|\"|(j&W))",
        "Sj&(a|(W))&(a|i|\"|\"|(j&W))",
    );
}

#[test]
fn hit_quadratic_step() {
    test_with_parsing("(a&b&c)|(a&b&d)|(b&c&d)|(a&b)", "(a&b)|(b&c&d)");
}

#[test]
fn redundant_junctions_marked() {
    let and = |v: Vec<AccessExpression>| AccessExpression::And(v);
    let or = |v: Vec<AccessExpression>| AccessExpression::Or(v);
    let ands = vec![
        and(vec![tok("a"), tok("b")]),
        and(vec![tok("a"), tok("b"), tok("c")]),
        and(vec![tok("a"), tok("b"), tok("d")]),
        and(vec![tok("b"), tok("c"), tok("d")]),
    ];
    assert_eq!(identify_redundant_junctions(JunctionType::Or, &ands, &vec![]), HashSet::from([1usize, 2]));
    let ors = vec![or(vec![tok("a"), tok("b")]), or(vec![tok("a"), tok("b"), tok("c")])];
    assert_eq!(identify_redundant_junctions(JunctionType::And, &ors, &vec![]), HashSet::from([1usize]));
    let with_token = vec![and(vec![tok("a"), tok("b")]), and(vec![tok("c"), tok("d")])];
    assert_eq!(
        identify_redundant_junctions(JunctionType::Or, &with_token, &vec![AccessToken::new("a")]),
        HashSet::from([0usize])
    );
}

#[test]
fn or_of_ands() {
    test_with_parsing("a|(a&b)|(a&b&c)|(a&b&c&d)|(a&b&c&d&e)|(a&b&c&d&e&f)", "a");
}

#[test]
fn and_of_ors() {
    test_with_parsing("a&(a|b)&(a|b|c)&(a|b|c|d)&(a|b|c|d|e)&(a|b|c|d|e|f)", "a");
}

#[test]
fn fuzz8() {
    let input = "(af|(s&a&w)|b)&(af|(s&a&a)|b)&(af|(s&a&(af|(s&a&w)|b)&(af|(s&a&a)|b)&w)|b)&(af|(s&a&a)|b)";
    for other in [
        "(af|(s&a&w)|b)&(af|(s&a)|b)&(af|(s&a&(af|w|b)&(af|(s&a)|b)&w)|b)&(af|(s&a)|b)",
        "(af|(s&a&w)|b)&(af|(s&a)|b)&(af|(s&a&(af|w|b)&(af|(s&a)|b)&w)|b)",
        "(af|(s&a)|b)&(af|(s&a&(af|w|b)&(af|(s&a)|b)&w)|b)",
        "(af|(s&a)|b)&(af|(s&a&(af|w|b)&(af|(s&a)|b)&w)|b)",
        "(af|(s&a)|b)&(af|b|(s&a&w))",
        "af|b|(s&a&w)",
    ] {
        verify_equivalence(
            &access_expression(input).unwrap(),
            &access_expression(other).unwrap(),
        );
    }
    test_with_parsing(input, "(af|b|(a&s&w))");
}

#[test]
fn test_implication_logic() {
    let a = tok("a");
    let b = tok("b");
    let w = tok("w");

    let strong_and = AccessExpression::And(vec![a.clone(), b.clone(), w.clone()]);
    let weak_and = AccessExpression::And(vec![a.clone(), b.clone()]);
    assert!(is_implied_by(&weak_and, &[strong_and]));

    let strong_or = AccessExpression::Or(vec![a.clone(), b.clone()]);
    let weak_or = AccessExpression::Or(vec![a.clone(), b.clone(), w.clone()]);
    assert!(is_implied_by(&weak_or, &[strong_or]));
}

#[test]
fn test_failing_case_logic() {
    let af = tok("af");
    let s = tok("s");
    let a = tok("a");
    let w = tok("w");

    let left = AccessExpression::Or(vec![
        af.clone(),
        AccessExpression::And(vec![s.clone(), a.clone(), w.clone()]),
    ]);
    let right = AccessExpression::Or(vec![
        af.clone(),
        AccessExpression::And(vec![s.clone(), a.clone()]),
    ]);

    assert!(
        is_implied_by(&right, &[left.clone()]),
        "Strong should satisfy weak"
    );
    assert!(
        !is_implied_by(&left, &[right.clone()]),
        "Weak should not satisfy strong"
    );
}
