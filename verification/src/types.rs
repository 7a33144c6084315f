//! The library's data types and their views.
use vstd::prelude::*;
use crate::model::{SpecToken, SpecExpr, JunctionType, junction};

verus! {

/// A single access token: a label that a user may hold.
#[derive(Debug, Hash, PartialEq, Eq, PartialOrd, Ord)]
pub enum AccessToken {
    Unquoted(String),
    Quoted(String),
}

impl View for AccessToken {
    type V = SpecToken;

    open spec fn view(&self) -> SpecToken {
        match self {
            AccessToken::Unquoted(s) => SpecToken::Unquoted(s@),
            AccessToken::Quoted(s) => SpecToken::Quoted(s@),
        }
    }
}

impl Clone for AccessToken {
    fn clone(&self) -> (r: Self)
        ensures
            r@ == self@,
    {
        match self {
            AccessToken::Unquoted(s) => AccessToken::Unquoted(s.clone()),
            AccessToken::Quoted(s) => AccessToken::Quoted(s.clone()),
        }
    }
}

/// A boolean expression over access tokens.
#[derive(Debug, Hash, PartialEq, Eq, PartialOrd, Ord)]
pub enum AccessExpression {
    Empty,
    Token(AccessToken),
    And(Vec<AccessExpression>),
    Or(Vec<AccessExpression>),
}

/// The abstract value of an expression.
pub open spec fn expr_view(e: AccessExpression) -> SpecExpr
    decreases e,
{
    match e {
        AccessExpression::Empty => SpecExpr::Empty,
        AccessExpression::Token(t) => SpecExpr::Token(t@),
        AccessExpression::And(cs) => SpecExpr::And(
            Seq::new(
                cs@.len(),
                |i: int|
                    if 0 <= i < cs@.len() {
                        expr_view(cs@[i])
                    } else {
                        SpecExpr::Empty
                    },
            ),
        ),
        AccessExpression::Or(cs) => SpecExpr::Or(
            Seq::new(
                cs@.len(),
                |i: int|
                    if 0 <= i < cs@.len() {
                        expr_view(cs@[i])
                    } else {
                        SpecExpr::Empty
                    },
            ),
        ),
    }
}

impl View for AccessExpression {
    type V = SpecExpr;

    open spec fn view(&self) -> SpecExpr {
        expr_view(*self)
    }
}

/// The views of a sequence of values.
pub open spec fn views_of<T: View>(s: Seq<T>) -> Seq<T::V> {
    Seq::new(s.len(), |i: int| s[i]@)
}

pub broadcast proof fn lemma_expr_view_junction(e: AccessExpression)
    ensures
        (#[trigger] e@) == match e {
            AccessExpression::Empty => SpecExpr::Empty,
            AccessExpression::Token(t) => SpecExpr::Token(t@),
            AccessExpression::And(cs) => SpecExpr::And(views_of(cs@)),
            AccessExpression::Or(cs) => SpecExpr::Or(views_of(cs@)),
        },
{
    match e {
        AccessExpression::And(cs) => {
            assert(expr_view(e)->And_0 =~= views_of(cs@));
        },
        AccessExpression::Or(cs) => {
            assert(expr_view(e)->Or_0 =~= views_of(cs@));
        },
        _ => {},
    }
}

/// A child of a junction is structurally smaller than the junction.
pub proof fn lemma_child_decreases(e: AccessExpression, i: int)
    ensures
        e is And && 0 <= i < e->And_0@.len() ==> decreases_to!(e => e->And_0@[i]),
        e is Or && 0 <= i < e->Or_0@.len() ==> decreases_to!(e => e->Or_0@[i]),
{
    if e is And && 0 <= i < e->And_0@.len() {
        assert(decreases_to!(e => e->And_0));
        assert(decreases_to!(e->And_0 => e->And_0@));
        assert(decreases_to!(e->And_0@ => e->And_0@[i]));
    }
    if e is Or && 0 <= i < e->Or_0@.len() {
        assert(decreases_to!(e => e->Or_0));
        assert(decreases_to!(e->Or_0 => e->Or_0@));
        assert(decreases_to!(e->Or_0@ => e->Or_0@[i]));
    }
}

/// Copies a list of expressions.
pub fn clone_exprs(cs: &Vec<AccessExpression>) -> (r: Vec<AccessExpression>)
    ensures
        views_of(r@) == views_of(cs@),
{
    let mut out: Vec<AccessExpression> = Vec::new();
    let mut i: usize = 0;
    while i < cs.len()
        invariant
            i <= cs.len(),
            out.len() == i,
            forall|j: int| 0 <= j < i ==> (#[trigger] out@[j])@ == cs@[j]@,
        decreases cs.len() - i,
    {
        let c = cs[i].clone();
        out.push(c);
        i += 1;
    }
    assert(views_of(out@) =~= views_of(cs@));
    out
}

/// Copies a list of tokens.
pub fn clone_tokens(ts: &Vec<AccessToken>) -> (r: Vec<AccessToken>)
    ensures
        views_of(r@) == views_of(ts@),
{
    let mut out: Vec<AccessToken> = Vec::new();
    let mut i: usize = 0;
    while i < ts.len()
        invariant
            i <= ts.len(),
            out.len() == i,
            forall|j: int| 0 <= j < i ==> (#[trigger] out@[j])@ == ts@[j]@,
        decreases ts.len() - i,
    {
        out.push(ts[i].clone());
        i += 1;
    }
    assert(views_of(out@) =~= views_of(ts@));
    out
}

impl Clone for AccessExpression {
    fn clone(&self) -> (r: Self)
        ensures
            r@ == self@,
        decreases self,
    {
        proof {
            broadcast use lemma_expr_view_junction;
        }
        match self {
            AccessExpression::Empty => AccessExpression::Empty,
            AccessExpression::Token(t) => AccessExpression::Token(t.clone()),
            AccessExpression::And(cs) => {
                let mut out: Vec<AccessExpression> = Vec::new();
                let mut i: usize = 0;
                while i < cs.len()
                    invariant
                        i <= cs.len(),
                        out.len() == i,
                        *self == AccessExpression::And(*cs),
                        forall|j: int| 0 <= j < i ==> (#[trigger] out@[j])@ == cs@[j]@,
                    decreases cs.len() - i,
                {
                    proof {
                        lemma_child_decreases(*self, i as int);
                    }
                    let c = cs[i].clone();
                    out.push(c);
                    i += 1;
                }
                assert(views_of(out@) =~= views_of(cs@));
                AccessExpression::And(out)
            },
            AccessExpression::Or(cs) => {
                let mut out: Vec<AccessExpression> = Vec::new();
                let mut i: usize = 0;
                while i < cs.len()
                    invariant
                        i <= cs.len(),
                        out.len() == i,
                        *self == AccessExpression::Or(*cs),
                        forall|j: int| 0 <= j < i ==> (#[trigger] out@[j])@ == cs@[j]@,
                    decreases cs.len() - i,
                {
                    proof {
                        lemma_child_decreases(*self, i as int);
                    }
                    let c = cs[i].clone();
                    out.push(c);
                    i += 1;
                }
                assert(views_of(out@) =~= views_of(cs@));
                AccessExpression::Or(out)
            },
        }
    }
}

impl JunctionType {
    /// The junction of this kind over `children`.
    pub fn wrap(self, children: Vec<AccessExpression>) -> (r: AccessExpression)
        ensures
            r@ == junction(self, views_of(children@)),
    {
        let r = match self {
            JunctionType::And => AccessExpression::And(children),
            JunctionType::Or => AccessExpression::Or(children),
        };
        proof {
            lemma_expr_view_junction(r);
        }
        r
    }
}

/// A set of tokens held by a user.
#[derive(Debug, PartialEq, Eq, Clone)]
pub struct AccessTokens {
    pub tokens: Vec<AccessToken>,
}

impl View for AccessTokens {
    type V = Seq<SpecToken>;

    open spec fn view(&self) -> Seq<SpecToken> {
        views_of(self.tokens@)
    }
}

} // verus!
