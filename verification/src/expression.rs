//! The grammar of access expressions, and reading them.
//!
//! ```text
//! expression = term [ "&" term *( "&" term ) / "|" term *( "|" term ) ]
//! term       = "(" expression ")" / access-token
//! ```
//!
//! The whole input is one expression, or nothing at all. A junction's children are
//! flattened (`a&(b&c)` is `a&b&c`) and put in canonical order.
use vstd::prelude::*;
use crate::model::{SpecExpr, JunctionType, junction, is_junction, children};
use crate::types::{AccessExpression, views_of, lemma_expr_view_junction};
use crate::order::TotalOrder;
use crate::sort::{sort_seq, sort_vec, reverse_vec};
use crate::lex::{Lexed, Spot, lex_token, read_token};
use crate::problems::ExpressionParseProblem;

verus! {

/// The children of a new junction of kind `kind` over `items`: the children of items that are
/// junctions of the same kind take their place.
pub open spec fn splice(kind: JunctionType, items: Seq<SpecExpr>) -> Seq<SpecExpr>
    decreases items.len(),
{
    if items.len() == 0 {
        Seq::empty()
    } else {
        let last = items[items.len() - 1];
        let init = splice(kind, items.subrange(0, items.len() - 1));
        if is_junction(kind, last) {
            init + children(last)
        } else {
            init.push(last)
        }
    }
}

/// The junction of kind `kind` over `items`, flattened one level and in canonical order.
pub open spec fn combined(kind: JunctionType, items: Seq<SpecExpr>) -> SpecExpr {
    junction(kind, sort_seq::<AccessExpression>(splice(kind, items)))
}

/// Builds a junction of the given kind, flattened one level and sorted.
pub fn combine(kind: JunctionType, items: Vec<AccessExpression>) -> (r: AccessExpression)
    ensures
        r@ == combined(kind, views_of(items@)),
{
    proof {
        broadcast use lemma_expr_view_junction;
    }
    let ghost orig = views_of(items@);
    let ghost n = items.len() as int;
    let mut rest = reverse_vec(items);
    let mut out: Vec<AccessExpression> = Vec::new();
    assert(orig.subrange(0, 0) =~= Seq::<SpecExpr>::empty());
    assert(views_of(out@) =~= Seq::<SpecExpr>::empty());
    while rest.len() > 0
        invariant
            n == orig.len(),
            rest.len() <= n,
            forall|j: int| 0 <= j < rest.len() ==> (#[trigger] rest@[j])@ == orig[n - 1 - j],
            views_of(out@) == splice(kind, orig.subrange(0, n - rest.len())),
        decreases rest.len(),
    {
        let ghost k = n - rest.len();
        let x = rest.pop().unwrap();
        assert(x@ == orig[k]);
        assert(orig.subrange(0, k + 1).subrange(0, k) =~= orig.subrange(0, k));
        let ghost before = views_of(out@);
        match x {
            AccessExpression::And(mut inner) => {
                if kind == JunctionType::And {
                    let ghost iv = views_of(inner@);
                    out.append(&mut inner);
                    assert(views_of(out@) =~= before + iv);
                } else {
                    out.push(AccessExpression::And(inner));
                    assert(views_of(out@) =~= before.push(x@));
                }
            },
            AccessExpression::Or(mut inner) => {
                if kind == JunctionType::Or {
                    let ghost iv = views_of(inner@);
                    out.append(&mut inner);
                    assert(views_of(out@) =~= before + iv);
                } else {
                    out.push(AccessExpression::Or(inner));
                    assert(views_of(out@) =~= before.push(x@));
                }
            },
            other => {
                out.push(other);
                assert(views_of(out@) =~= before.push(x@));
            },
        }
    }
    assert(orig.subrange(0, n) =~= orig);
    let sorted = sort_vec(out);
    match kind {
        JunctionType::And => AccessExpression::And(sorted),
        JunctionType::Or => AccessExpression::Or(sorted),
    }
}

impl AccessExpression {
    /// The conjunction of `items`, with conjunctions among them flattened and all sorted.
    pub fn and(items: Vec<AccessExpression>) -> (r: AccessExpression)
        ensures
            r@ == combined(JunctionType::And, views_of(items@)),
    {
        combine(JunctionType::And, items)
    }

    /// The disjunction of `items`, with disjunctions among them flattened and all sorted.
    pub fn or(items: Vec<AccessExpression>) -> (r: AccessExpression)
        ensures
            r@ == combined(JunctionType::Or, views_of(items@)),
    {
        combine(JunctionType::Or, items)
    }
}

/// The outcome of reading part of an expression.
pub enum Parsed {
    /// The expression read, and the position right after it.
    Done(SpecExpr, int),
    /// Reading stopped at a position; whether a term should have begun there.
    Stuck(int, bool),
}

pub open spec fn junction_of_char(c: char) -> JunctionType {
    if c == '&' {
        JunctionType::And
    } else {
        JunctionType::Or
    }
}

/// Reads a term at `i`.
pub open spec fn parse_term(s: Seq<char>, i: int) -> Parsed
    decreases s.len() - i, 1int,
{
    if 0 <= i < s.len() && s[i] == '(' {
        match parse_expr(s, i + 1) {
            Parsed::Done(e, j) => if 0 <= j < s.len() && s[j] == ')' {
                Parsed::Done(e, j + 1)
            } else {
                Parsed::Stuck(j, false)
            },
            Parsed::Stuck(p, t) => Parsed::Stuck(p, t),
        }
    } else {
        match lex_token(s, i) {
            Lexed::Token(t, j) => Parsed::Done(SpecExpr::Token(t), j),
            Lexed::Stuck(p, spot) => Parsed::Stuck(p, spot == Spot::TokenStart),
        }
    }
}

/// Reads an expression at `i`: a term, then perhaps a junction character and more terms.
pub open spec fn parse_expr(s: Seq<char>, i: int) -> Parsed
    decreases s.len() - i, 2int,
{
    if i < 0 || i > s.len() {
        Parsed::Stuck(i, true)
    } else {
        match parse_term(s, i) {
            Parsed::Done(head, j) => {
                // a term always ends after it begins
                if i < j < s.len() && (s[j] == '&' || s[j] == '|') {
                    parse_tail(s, j, seq![head])
                } else {
                    Parsed::Done(head, j)
                }
            },
            Parsed::Stuck(p, t) => Parsed::Stuck(p, t),
        }
    }
}

/// Reads the rest of a junction whose junction character stands at `j`, with `items` read so far.
pub open spec fn parse_tail(s: Seq<char>, j: int, items: Seq<SpecExpr>) -> Parsed
    decreases s.len() - j, 0int,
{
    if j < 0 || j >= s.len() {
        Parsed::Stuck(j, false)
    } else {
        match parse_term(s, j + 1) {
            Parsed::Done(t, k) => {
                if j < k < s.len() && s[k] == s[j] {
                    parse_tail(s, k, items.push(t))
                } else {
                    Parsed::Done(combined(junction_of_char(s[j]), items.push(t)), k)
                }
            },
            Parsed::Stuck(p, t) => Parsed::Stuck(p, t),
        }
    }
}

/// A character that may stand in an unquoted token, but for `:`.
pub open spec fn is_word_char(c: char) -> bool {
    ('a' <= c && c <= 'z') || ('A' <= c && c <= 'Z') || ('0' <= c && c <= '9') || c == '.' || c == '-'
        || c == '_' || c == '/'
}

/// The problem reported when reading stops at `p`; `term_start` tells whether a term should
/// have begun there.
pub open spec fn problem_at(s: Seq<char>, p: int, term_start: bool) -> ExpressionParseProblem {
    if p < 0 || p >= s.len() {
        ExpressionParseProblem::TrailingJunction
    } else {
        let c = s[p];
        if c == '|' || c == '&' {
            if term_start {
                ExpressionParseProblem::InvalidTokenStart(c)
            } else {
                ExpressionParseProblem::CannotMixAndWithOr
            }
        } else if is_word_char(c) {
            ExpressionParseProblem::CharactersOutsideQuotes
        } else if c == '(' {
            ExpressionParseProblem::MissingJunction
        } else if c == '"' {
            ExpressionParseProblem::TrailingQuotes
        } else {
            ExpressionParseProblem::InvalidTokenStart(c)
        }
    }
}

/// What reading the text `s` as an access expression gives.
pub open spec fn parse_expression(s: Seq<char>) -> Result<SpecExpr, ExpressionParseProblem> {
    if s.len() == 0 {
        Ok(SpecExpr::Empty)
    } else {
        match parse_expr(s, 0) {
            Parsed::Done(e, j) => if j == s.len() {
                Ok(e)
            } else {
                Err(problem_at(s, j, false))
            },
            Parsed::Stuck(p, t) => Err(problem_at(s, p, t)),
        }
    }
}

/// Reads a term at `i`.
fn read_term(s: &Vec<char>, i: usize) -> (r: Result<(AccessExpression, usize), (usize, bool)>)
    requires
        i <= s.len(),
    ensures
        match r {
            Ok((e, j)) => parse_term(s@, i as int) == Parsed::Done(e@, j as int) && i < j <= s.len(),
            Err((p, t)) => parse_term(s@, i as int) == Parsed::Stuck(p as int, t) && p <= s.len(),
        },
    decreases s.len() - i, 1int,
{
    if i < s.len() && s[i] == '(' {
        match read_expr(s, i + 1) {
            Ok((e, j)) => {
                if j < s.len() && s[j] == ')' {
                    Ok((e, j + 1))
                } else {
                    Err((j, false))
                }
            },
            Err(stuck) => Err(stuck),
        }
    } else {
        proof {
            crate::lex::lemma_lex_token_end(s@, i as int);
        }
        match read_token(s, i) {
            Ok((t, j)) => Ok((AccessExpression::Token(t), j)),
            Err((p, spot)) => Err((p, spot == Spot::TokenStart)),
        }
    }
}

/// Reads an expression at `i`.
fn read_expr(s: &Vec<char>, i: usize) -> (r: Result<(AccessExpression, usize), (usize, bool)>)
    requires
        i <= s.len(),
    ensures
        match r {
            Ok((e, j)) => parse_expr(s@, i as int) == Parsed::Done(e@, j as int) && i < j <= s.len(),
            Err((p, t)) => parse_expr(s@, i as int) == Parsed::Stuck(p as int, t) && p <= s.len(),
        },
    decreases s.len() - i, 2int,
{
    let (head, j) = match read_term(s, i) {
        Ok(done) => done,
        Err(stuck) => {
            return Err(stuck);
        },
    };
    if !(j < s.len() && (s[j] == '&' || s[j] == '|')) {
        return Ok((head, j));
    }
    let op = s[j];
    let mut items: Vec<AccessExpression> = Vec::new();
    items.push(head);
    assert(views_of(items@) =~= seq![items@[0]@]);
    let mut k = j;
    loop
        invariant
            i < k < s.len(),
            s@[k as int] == op,
            parse_expr(s@, i as int) == parse_tail(s@, k as int, views_of(items@)),
        decreases s.len() - k,
    {
        let ghost before = views_of(items@);
        match read_term(s, k + 1) {
            Ok((t, m)) => {
                items.push(t);
                assert(views_of(items@) =~= before.push(t@));
                if m < s.len() && s[m] == op {
                    k = m;
                } else {
                    let e = if op == '&' {
                        AccessExpression::and(items)
                    } else {
                        AccessExpression::or(items)
                    };
                    return Ok((e, m));
                }
            },
            Err(stuck) => {
                return Err(stuck);
            },
        }
    }
}

/// A character that may stand in an unquoted token, but for `:`.
fn word_char(c: char) -> (r: bool)
    ensures
        r == is_word_char(c),
{
    ('a' <= c && c <= 'z') || ('A' <= c && c <= 'Z') || ('0' <= c && c <= '9') || c == '.' || c == '-'
        || c == '_' || c == '/'
}

fn report(s: &Vec<char>, p: usize, term_start: bool) -> (r: ExpressionParseProblem)
    ensures
        r == problem_at(s@, p as int, term_start),
{
    if p >= s.len() {
        return ExpressionParseProblem::TrailingJunction;
    }
    let c = s[p];
    if c == '|' || c == '&' {
        if term_start {
            ExpressionParseProblem::InvalidTokenStart(c)
        } else {
            ExpressionParseProblem::CannotMixAndWithOr
        }
    } else if word_char(c) {
        ExpressionParseProblem::CharactersOutsideQuotes
    } else if c == '(' {
        ExpressionParseProblem::MissingJunction
    } else if c == '"' {
        ExpressionParseProblem::TrailingQuotes
    } else {
        ExpressionParseProblem::InvalidTokenStart(c)
    }
}

/// Reads an access expression from `input`.
pub fn access_expression(input: &str) -> (r: Result<AccessExpression, ExpressionParseProblem>)
    ensures
        match r {
            Ok(e) => parse_expression(input@) == Ok::<SpecExpr, ExpressionParseProblem>(e@),
            Err(p) => parse_expression(input@) == Err::<SpecExpr, ExpressionParseProblem>(p),
        },
{
    let s = crate::text::chars_of(input);
    if s.len() == 0 {
        return Ok(AccessExpression::Empty);
    }
    match read_expr(&s, 0) {
        Ok((e, j)) => {
            if j == s.len() {
                Ok(e)
            } else {
                Err(report(&s, j, false))
            }
        },
        Err((p, t)) => Err(report(&s, p, t)),
    }
}

} // verus!
