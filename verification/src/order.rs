//! The canonical total order on tokens and expressions, and sorting by it.
//!
//! Tokens order first by kind (unquoted before quoted), then by their text, character by
//! character. Expressions order first by kind (empty, token, conjunction, disjunction), then
//! by their token or, for junctions, lexicographically by their children.
use vstd::prelude::*;
use crate::model::{SpecToken, SpecExpr};
use crate::types::{AccessToken, AccessExpression, views_of, lemma_expr_view_junction, lemma_child_decreases};
use vstd::string::StrSliceExecFns;

verus! {

/// Three-way comparison of two character sequences, lexicographically by code point.
pub open spec fn chars_order(a: Seq<char>, b: Seq<char>) -> int
    decreases a.len(),
{
    if a.len() == 0 {
        if b.len() == 0 { 0 } else { -1 }
    } else if b.len() == 0 {
        1
    } else if (a[0] as int) < (b[0] as int) {
        -1
    } else if (a[0] as int) > (b[0] as int) {
        1
    } else {
        chars_order(a.subrange(1, a.len() as int), b.subrange(1, b.len() as int))
    }
}

pub open spec fn token_rank(t: SpecToken) -> int {
    match t {
        SpecToken::Unquoted(_) => 0,
        SpecToken::Quoted(_) => 1,
    }
}

pub open spec fn token_text(t: SpecToken) -> Seq<char> {
    match t {
        SpecToken::Unquoted(s) => s,
        SpecToken::Quoted(s) => s,
    }
}

/// Three-way comparison of tokens.
pub open spec fn token_order(a: SpecToken, b: SpecToken) -> int {
    if token_rank(a) < token_rank(b) {
        -1
    } else if token_rank(a) > token_rank(b) {
        1
    } else {
        chars_order(token_text(a), token_text(b))
    }
}

pub open spec fn expr_rank(e: SpecExpr) -> int {
    match e {
        SpecExpr::Empty => 0,
        SpecExpr::Token(_) => 1,
        SpecExpr::And(_) => 2,
        SpecExpr::Or(_) => 3,
    }
}

/// Three-way comparison of expressions.
pub open spec fn expr_order(a: SpecExpr, b: SpecExpr) -> int
    decreases a,
{
    if expr_rank(a) < expr_rank(b) {
        -1
    } else if expr_rank(a) > expr_rank(b) {
        1
    } else {
        match a {
            SpecExpr::Empty => 0,
            SpecExpr::Token(ta) => token_order(ta, b->Token_0),
            SpecExpr::And(ca) => exprs_order(ca, b->And_0),
            SpecExpr::Or(ca) => exprs_order(ca, b->Or_0),
        }
    }
}

/// Lexicographic three-way comparison of sequences of expressions.
pub open spec fn exprs_order(a: Seq<SpecExpr>, b: Seq<SpecExpr>) -> int
    decreases a,
{
    if a.len() == 0 {
        if b.len() == 0 { 0 } else { -1 }
    } else if b.len() == 0 {
        1
    } else {
        let c = expr_order(a[0], b[0]);
        if c != 0 {
            c
        } else {
            exprs_order(a.subrange(1, a.len() as int), b.subrange(1, b.len() as int))
        }
    }
}

/// A value with an executable three-way comparison that agrees with a total order on its view.
pub trait TotalOrder: View + Sized {
    spec fn order(a: Self::V, b: Self::V) -> int;

    proof fn lemma_order_total(a: Self::V, b: Self::V)
        ensures
            Self::order(a, b) == -Self::order(b, a),
            -1 <= Self::order(a, b) <= 1,
            (Self::order(a, b) == 0) == (a == b),
    ;

    proof fn lemma_order_transitive(a: Self::V, b: Self::V, c: Self::V)
        requires
            Self::order(a, b) <= 0,
            Self::order(b, c) <= 0,
        ensures
            Self::order(a, c) <= 0,
    ;

    fn compare(&self, other: &Self) -> (r: i8)
        ensures
            r as int == Self::order(self@, other@),
    ;
}

pub(crate) proof fn lemma_chars_order_total(a: Seq<char>, b: Seq<char>)
    ensures
        chars_order(a, b) == -chars_order(b, a),
        -1 <= chars_order(a, b) <= 1,
        (chars_order(a, b) == 0) == (a == b),
    decreases a.len(),
{
    if a.len() > 0 && b.len() > 0 && a[0] == b[0] {
        let a1 = a.subrange(1, a.len() as int);
        let b1 = b.subrange(1, b.len() as int);
        lemma_chars_order_total(a1, b1);
        if a1 == b1 {
            assert(a =~= seq![a[0]] + a1);
            assert(b =~= seq![b[0]] + b1);
        }
    }
    if a.len() > 0 && b.len() > 0 && a[0] != b[0] {
        assert((a[0] as int) != (b[0] as int));
    }
    if a.len() == 0 && b.len() == 0 {
        assert(a =~= b);
    }
}

proof fn lemma_chars_order_transitive(a: Seq<char>, b: Seq<char>, c: Seq<char>)
    requires
        chars_order(a, b) <= 0,
        chars_order(b, c) <= 0,
    ensures
        chars_order(a, c) <= 0,
    decreases a.len(),
{
    if a.len() > 0 && b.len() > 0 && c.len() > 0 {
        if a[0] == b[0] && b[0] == c[0] {
            lemma_chars_order_transitive(
                a.subrange(1, a.len() as int),
                b.subrange(1, b.len() as int),
                c.subrange(1, c.len() as int),
            );
        }
    }
}

proof fn lemma_token_order_total(a: SpecToken, b: SpecToken)
    ensures
        token_order(a, b) == -token_order(b, a),
        -1 <= token_order(a, b) <= 1,
        (token_order(a, b) == 0) == (a == b),
{
    lemma_chars_order_total(token_text(a), token_text(b));
}

proof fn lemma_token_order_transitive(a: SpecToken, b: SpecToken, c: SpecToken)
    requires
        token_order(a, b) <= 0,
        token_order(b, c) <= 0,
    ensures
        token_order(a, c) <= 0,
{
    if token_rank(a) == token_rank(b) && token_rank(b) == token_rank(c) {
        lemma_chars_order_transitive(token_text(a), token_text(b), token_text(c));
    }
}

proof fn lemma_expr_order_total(a: SpecExpr, b: SpecExpr)
    ensures
        expr_order(a, b) == -expr_order(b, a),
        -1 <= expr_order(a, b) <= 1,
        (expr_order(a, b) == 0) == (a == b),
    decreases a,
{
    if expr_rank(a) == expr_rank(b) {
        match a {
            SpecExpr::Empty => {},
            SpecExpr::Token(ta) => {
                lemma_token_order_total(ta, b->Token_0);
            },
            SpecExpr::And(ca) => {
                lemma_exprs_order_total(ca, b->And_0);
            },
            SpecExpr::Or(ca) => {
                lemma_exprs_order_total(ca, b->Or_0);
            },
        }
    }
}

proof fn lemma_exprs_order_total(a: Seq<SpecExpr>, b: Seq<SpecExpr>)
    ensures
        exprs_order(a, b) == -exprs_order(b, a),
        -1 <= exprs_order(a, b) <= 1,
        (exprs_order(a, b) == 0) == (a == b),
    decreases a,
{
    if a.len() == 0 && b.len() == 0 {
        assert(a =~= b);
    }
    if a.len() > 0 && b.len() > 0 {
        lemma_expr_order_total(a[0], b[0]);
        if a[0] == b[0] {
            let a1 = a.subrange(1, a.len() as int);
            let b1 = b.subrange(1, b.len() as int);
            lemma_exprs_order_total(a1, b1);
            if a1 == b1 {
                assert(a =~= seq![a[0]] + a1);
                assert(b =~= seq![b[0]] + b1);
            }
        }
    }
}

proof fn lemma_expr_order_transitive(a: SpecExpr, b: SpecExpr, c: SpecExpr)
    requires
        expr_order(a, b) <= 0,
        expr_order(b, c) <= 0,
    ensures
        expr_order(a, c) <= 0,
    decreases a,
{
    if expr_rank(a) == expr_rank(b) && expr_rank(b) == expr_rank(c) {
        match a {
            SpecExpr::Empty => {},
            SpecExpr::Token(ta) => {
                lemma_token_order_transitive(ta, b->Token_0, c->Token_0);
            },
            SpecExpr::And(ca) => {
                lemma_exprs_order_transitive(ca, b->And_0, c->And_0);
            },
            SpecExpr::Or(ca) => {
                lemma_exprs_order_transitive(ca, b->Or_0, c->Or_0);
            },
        }
    }
}

proof fn lemma_exprs_order_transitive(a: Seq<SpecExpr>, b: Seq<SpecExpr>, c: Seq<SpecExpr>)
    requires
        exprs_order(a, b) <= 0,
        exprs_order(b, c) <= 0,
    ensures
        exprs_order(a, c) <= 0,
    decreases a,
{
    if a.len() > 0 && b.len() > 0 && c.len() > 0 {
        lemma_expr_order_total(a[0], b[0]);
        lemma_expr_order_total(b[0], c[0]);
        lemma_expr_order_total(a[0], c[0]);
        let ab = expr_order(a[0], b[0]);
        let bc = expr_order(b[0], c[0]);
        if ab <= 0 && bc <= 0 {
            lemma_expr_order_transitive(a[0], b[0], c[0]);
        }
        if ab == 0 && bc == 0 {
            lemma_exprs_order_transitive(
                a.subrange(1, a.len() as int),
                b.subrange(1, b.len() as int),
                c.subrange(1, c.len() as int),
            );
        }
    }
}

/// Compares two strings character by character.
pub(crate) fn compare_text(a: &String, b: &String) -> (r: i8)
    ensures
        r as int == chars_order(a@, b@),
{
    let la = a.as_str().unicode_len();
    let lb = b.as_str().unicode_len();
    let mut i: usize = 0;
    proof {
        assert(a@.subrange(0, a@.len() as int) =~= a@);
        assert(b@.subrange(0, b@.len() as int) =~= b@);
    }
    loop
        invariant
            la == a@.len(),
            lb == b@.len(),
            i <= la,
            i <= lb,
            chars_order(a@, b@) == chars_order(a@.subrange(i as int, la as int), b@.subrange(i as int, lb as int)),
        decreases la - i,
    {
        if i == la {
            if i == lb {
                return 0;
            } else {
                return -1;
            }
        }
        if i == lb {
            return 1;
        }
        let ca = a.as_str().get_char(i);
        let cb = b.as_str().get_char(i);
        if ca < cb {
            return -1;
        }
        if ca > cb {
            return 1;
        }
        proof {
            let sa = a@.subrange(i as int, la as int);
            let sb = b@.subrange(i as int, lb as int);
            assert(sa.subrange(1, sa.len() as int) =~= a@.subrange(i + 1, la as int));
            assert(sb.subrange(1, sb.len() as int) =~= b@.subrange(i + 1, lb as int));
        }
        i += 1;
    }
}

impl TotalOrder for AccessToken {
    open spec fn order(a: SpecToken, b: SpecToken) -> int {
        token_order(a, b)
    }

    proof fn lemma_order_total(a: SpecToken, b: SpecToken) {
        lemma_token_order_total(a, b);
    }

    proof fn lemma_order_transitive(a: SpecToken, b: SpecToken, c: SpecToken) {
        lemma_token_order_transitive(a, b, c);
    }

    fn compare(&self, other: &Self) -> (r: i8) {
        match (self, other) {
            (AccessToken::Unquoted(_), AccessToken::Quoted(_)) => -1,
            (AccessToken::Quoted(_), AccessToken::Unquoted(_)) => 1,
            (AccessToken::Unquoted(a), AccessToken::Unquoted(b)) => compare_text(a, b),
            (AccessToken::Quoted(a), AccessToken::Quoted(b)) => compare_text(a, b),
        }
    }
}

fn rank_of(e: &AccessExpression) -> (r: u8)
    ensures
        r as int == expr_rank(e@),
{
    proof {
        broadcast use lemma_expr_view_junction;
    }
    match e {
        AccessExpression::Empty => 0,
        AccessExpression::Token(_) => 1,
        AccessExpression::And(_) => 2,
        AccessExpression::Or(_) => 3,
    }
}

/// Lexicographic comparison of the children of two junctions.
fn compare_children(whole: &AccessExpression, a: &Vec<AccessExpression>, b: &Vec<AccessExpression>) -> (r: i8)
    requires
        (*whole is And && whole->And_0 == *a) || (*whole is Or && whole->Or_0 == *a),
    ensures
        r as int == exprs_order(views_of(a@), views_of(b@)),
    decreases whole, 0int,
{
    let ghost va = views_of(a@);
    let ghost vb = views_of(b@);
    let mut i: usize = 0;
    proof {
        assert(va.subrange(0, va.len() as int) =~= va);
        assert(vb.subrange(0, vb.len() as int) =~= vb);
    }
    loop
        invariant
            (*whole is And && whole->And_0 == *a) || (*whole is Or && whole->Or_0 == *a),
            va == views_of(a@),
            vb == views_of(b@),
            i <= a.len(),
            i <= b.len(),
            exprs_order(va, vb) == exprs_order(va.subrange(i as int, va.len() as int), vb.subrange(i as int, vb.len() as int)),
        decreases a.len() - i,
    {
        if i == a.len() {
            if i == b.len() {
                return 0;
            } else {
                return -1;
            }
        }
        if i == b.len() {
            return 1;
        }
        proof {
            lemma_child_decreases(*whole, i as int);
        }
        let c = a[i].compare(&b[i]);
        if c != 0 {
            return c;
        }
        proof {
            let sa = va.subrange(i as int, va.len() as int);
            let sb = vb.subrange(i as int, vb.len() as int);
            assert(sa.subrange(1, sa.len() as int) =~= va.subrange(i + 1, va.len() as int));
            assert(sb.subrange(1, sb.len() as int) =~= vb.subrange(i + 1, vb.len() as int));
        }
        i += 1;
    }
}

impl TotalOrder for AccessExpression {
    open spec fn order(a: SpecExpr, b: SpecExpr) -> int {
        expr_order(a, b)
    }

    proof fn lemma_order_total(a: SpecExpr, b: SpecExpr) {
        lemma_expr_order_total(a, b);
    }

    proof fn lemma_order_transitive(a: SpecExpr, b: SpecExpr, c: SpecExpr) {
        lemma_expr_order_transitive(a, b, c);
    }

    fn compare(&self, other: &Self) -> (r: i8)
        decreases self, 1int,
    {
        proof {
            broadcast use lemma_expr_view_junction;
        }
        let ra = rank_of(self);
        let rb = rank_of(other);
        if ra < rb {
            return -1;
        }
        if ra > rb {
            return 1;
        }
        match (self, other) {
            (AccessExpression::Token(ta), AccessExpression::Token(tb)) => ta.compare(tb),
            (AccessExpression::And(ca), AccessExpression::And(cb)) => compare_children(self, ca, cb),
            (AccessExpression::Or(ca), AccessExpression::Or(cb)) => compare_children(self, ca, cb),
            _ => 0,
        }
    }
}

} // verus!
