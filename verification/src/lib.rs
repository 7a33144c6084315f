//! Access expressions and access tokens: reading, writing, evaluating and simplifying them.
//!
//! An access token is a label that a user holds. An access expression is a boolean
//! expression over tokens, built from `&` (all of) and `|` (any of); a set of tokens
//! satisfies a token when it holds it.
use vstd::prelude::*;

mod model;
mod types;
mod order;
mod sort;
mod text;
mod lex;
mod problems;
mod expression;
mod tokens;
mod display;
mod evaluate;
mod implied;
mod shape;
mod meaning;
mod redundant;
mod simplify;
mod mentions;
mod agreement;
mod roundtrip;
mod parsed;
mod reorder;

pub use model::{
    SpecToken, SpecExpr, JunctionType, junction, is_junction, children, holds, all_hold, any_holds,
    equivalent, entails, size, sizes,
};
pub use types::{AccessToken, AccessExpression, AccessTokens, views_of};
pub use order::TotalOrder;
pub use sort::{sort_seq, dedup_seq, sort_dedup, is_sorted, is_strictly_sorted};
pub use lex::{read_token, Spot, Lexed, lex_token, is_unquoted_char, is_quotable_char, is_unquoted_text, token_of_text};
pub use problems::{ExpressionParseProblem, TokenParseProblem, expression_problem_message, token_problem_message};
pub use expression::{access_expression, parse_expression, combined, splice};
pub use tokens::{distinct_texts_of, texts_view, access_tokens, parse_tokens, parse_token_list, ListParsed};
pub use display::{escape_char, escaped, quoted_text, JunctionContext, show, show_list, show_expression, show_token, show_tokens};
pub use evaluate::evaluate;
pub use implied::{
    is_implied_by, is_implied_by_one, implied, implied_by_one, lemma_implied_sound, lemma_implied_by_one_sound,
    lemma_implied_by_provided, lemma_implied_conjunction, lemma_implied_disjunction, lemma_implied_through_conjunction,
    lemma_implied_through_disjunction, lemma_implied_by_one_alone, lemma_implied_by_one_itself,
    lemma_implied_by_one_conjunction, lemma_implied_by_one_disjunction, lemma_implied_by_one_junction,
};
pub use shape::{well_formed, normal, in_order, lean};
pub use meaning::{reads_holds, reads_all, reads_any, lemma_reads_well_formed};
pub use redundant::{
    reduced, siblings_reduced, identify_redundant_junctions, redundant_marks, scan_from, scan_against, any_of_tokens,
};
pub use simplify::{
    simplify, simplification, simplified_junction, simplified_each, simplified_rounds, assembled, kept_tokens,
    kept_junctions, sort_junction,
};
pub use mentions::{tokens_in, tokens_in_all, relevant};
pub use agreement::{
    verify, equivalent_on_choices, verify_equivalence, verify_simplification, lemma_well_formed_read_alike, lemma_holds_monotone, lemma_holds_mentioned_only, picked, agree_on_choices, read_alike_on_choices, lemma_agreement_complete,
    small_expression_text,
};
pub use roundtrip::{
    displayable, tokens_displayable, lemma_lex_displayable, canonical, quotable_text, lemma_tokens_roundtrip,
    lemma_expression_roundtrip, lemma_ordered_roundtrip, lemma_quoted_same_as_unquoted, lemma_quoting_rule,
};
pub use reorder::{lemma_operands_reordered, lemma_operands_swapped, operands, tail_terms, embedded};
pub use parsed::{lemma_combined_order, lemma_parsed_empty, lemma_parsed_roundtrip, lemma_parsed_normal, lemma_combined_equivalent, lemma_tokens_read_in_order};

verus! {

/// Reads an access expression.
pub fn expression(input: &str) -> (r: Result<AccessExpression, ExpressionParseProblem>)
    ensures
        match r {
            Ok(e) => parse_expression(input@) == Ok::<SpecExpr, ExpressionParseProblem>(e@),
            Err(p) => parse_expression(input@) == Err::<SpecExpr, ExpressionParseProblem>(p),
        },
{
    access_expression(input)
}

/// Reads a list of access tokens, separated by commas; the tokens come back in canonical order.
pub fn tokens(input: &str) -> (r: Result<AccessTokens, TokenParseProblem>)
    ensures
        match r {
            Ok(ts) => parse_tokens(input@) == Ok::<Seq<SpecToken>, (usize, usize, TokenParseProblem)>(ts@),
            Err(p) => parse_tokens(input@) is Err && parse_tokens(input@)->Err_0.2 == p,
        },
{
    match access_tokens(input) {
        Ok(ts) => Ok(ts),
        Err((_span, problem)) => Err(problem),
    }
}

} // verus!
