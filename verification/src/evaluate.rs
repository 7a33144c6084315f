//! Deciding whether a set of tokens satisfies an expression.
use vstd::prelude::*;
use crate::model::holds;
use crate::types::{AccessExpression, AccessTokens, views_of, lemma_expr_view_junction, lemma_child_decreases};
use crate::sort::contains_equal;

verus! {

/// Whether `tokens` satisfy `expression`: the empty expression always is, a token is when it
/// is among the tokens, a conjunction when all of its children are, and a disjunction when one
/// of them is.
pub fn evaluate(expression: &AccessExpression, tokens: &AccessTokens) -> (r: bool)
    ensures
        r == holds(expression@, tokens@.to_set()),
    decreases expression,
{
    proof {
        broadcast use lemma_expr_view_junction, crate::model::lemma_holds_junction;
    }
    match expression {
        AccessExpression::Empty => true,
        AccessExpression::Token(t) => contains_equal(tokens.tokens.as_slice(), t),
        AccessExpression::And(clauses) => {
            let ghost held = tokens@.to_set();
            let mut i: usize = 0;
            while i < clauses.len()
                invariant
                    *expression == AccessExpression::And(*clauses),
                    held == tokens@.to_set(),
                    i <= clauses.len(),
                    forall|j: int| 0 <= j < i ==> holds(#[trigger] views_of(clauses@)[j], held),
                decreases clauses.len() - i,
            {
                proof {
                    lemma_child_decreases(*expression, i as int);
                }
                if !evaluate(&clauses[i], tokens) {
                    assert(!holds(views_of(clauses@)[i as int], held));
                    proof {
                        lemma_expr_view_junction(*expression);
                        assert(expression@ == crate::model::SpecExpr::And(views_of(clauses@)));
                        crate::model::lemma_holds_junction(views_of(clauses@), held);
                        assert(!holds(expression@, held));
                    }
                    return false;
                }
                i += 1;
            }
            proof {
                lemma_expr_view_junction(*expression);
                crate::model::lemma_holds_junction(views_of(clauses@), held);
            }
            true
        },
        AccessExpression::Or(clauses) => {
            let ghost held = tokens@.to_set();
            let mut i: usize = 0;
            while i < clauses.len()
                invariant
                    *expression == AccessExpression::Or(*clauses),
                    held == tokens@.to_set(),
                    i <= clauses.len(),
                    forall|j: int| 0 <= j < i ==> !holds(#[trigger] views_of(clauses@)[j], held),
                decreases clauses.len() - i,
            {
                proof {
                    lemma_child_decreases(*expression, i as int);
                }
                if evaluate(&clauses[i], tokens) {
                    assert(holds(views_of(clauses@)[i as int], held));
                    proof {
                        lemma_expr_view_junction(*expression);
                        crate::model::lemma_holds_junction(views_of(clauses@), held);
                    }
                    return true;
                }
                i += 1;
            }
            proof {
                lemma_expr_view_junction(*expression);
                crate::model::lemma_holds_junction(views_of(clauses@), held);
            }
            false
        },
    }
}

} // verus!
