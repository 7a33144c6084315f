//! Why an expression or a list of tokens could not be read, and how to say so.
use vstd::prelude::*;
use vstd::string::StringExecFns;

verus! {

/// Why an access expression could not be read.
#[derive(Debug, Hash, PartialEq, Eq, Clone)]
pub enum ExpressionParseProblem {
    InvalidTokenStart(char),
    MissingJunction,
    TrailingQuotes,
    CharactersOutsideQuotes,
    CannotMixAndWithOr,
    EmptyTokensNotAllowedInJunctions,
    TrailingJunction,
}

/// Why a list of access tokens could not be read.
#[derive(Debug, Hash, PartialEq, Eq, Clone)]
pub enum TokenParseProblem {
    TrailingComma,
    UnclosedQuotedToken,
    CharactersOutsideQuotes,
    TrailingBackslashInQuotes,
    InvalidTokenStart(char),
}

/// The message that describes an expression problem.
pub open spec fn expression_problem_message(p: ExpressionParseProblem) -> Seq<char> {
    match p {
        ExpressionParseProblem::InvalidTokenStart(c) => "Invalid token start '"@ + seq![c] + "'"@,
        ExpressionParseProblem::MissingJunction => "Missing junction"@,
        ExpressionParseProblem::TrailingQuotes => "Trailing quotes"@,
        ExpressionParseProblem::CharactersOutsideQuotes => "Characters after close quotes not allowed"@,
        ExpressionParseProblem::CannotMixAndWithOr => "Cannot mix & with |, use parens to disambiguate"@,
        ExpressionParseProblem::EmptyTokensNotAllowedInJunctions => "Empty tokens not allowed in junctions"@,
        ExpressionParseProblem::TrailingJunction => "Trailing junction not allowed"@,
    }
}

/// The message that describes a token-list problem.
pub open spec fn token_problem_message(p: TokenParseProblem) -> Seq<char> {
    match p {
        TokenParseProblem::TrailingComma => "Trailing comma"@,
        TokenParseProblem::UnclosedQuotedToken => "Unclosed quoted token"@,
        TokenParseProblem::CharactersOutsideQuotes => "Characters after quotes"@,
        TokenParseProblem::TrailingBackslashInQuotes => "Trailing backslash while inside quotes"@,
        TokenParseProblem::InvalidTokenStart(c) => "Invalid token start '"@ + seq![c] + "'"@,
    }
}

fn invalid_start_message(c: char) -> (r: String)
    ensures
        r@ == "Invalid token start '"@ + seq![c] + "'"@,
{
    let mut r = String::from_str("Invalid token start '");
    r.push(c);
    r.append("'");
    r
}

impl ExpressionParseProblem {
    /// The message that describes this problem.
    pub fn to_string(&self) -> (r: String)
        ensures
            r@ == expression_problem_message(*self),
    {
        match self {
            ExpressionParseProblem::InvalidTokenStart(c) => invalid_start_message(*c),
            ExpressionParseProblem::MissingJunction => String::from_str("Missing junction"),
            ExpressionParseProblem::TrailingQuotes => String::from_str("Trailing quotes"),
            ExpressionParseProblem::CharactersOutsideQuotes => String::from_str(
                "Characters after close quotes not allowed",
            ),
            ExpressionParseProblem::CannotMixAndWithOr => String::from_str(
                "Cannot mix & with |, use parens to disambiguate",
            ),
            ExpressionParseProblem::EmptyTokensNotAllowedInJunctions => String::from_str(
                "Empty tokens not allowed in junctions",
            ),
            ExpressionParseProblem::TrailingJunction => String::from_str("Trailing junction not allowed"),
        }
    }
}

impl TokenParseProblem {
    /// The message that describes this problem.
    pub fn to_string(&self) -> (r: String)
        ensures
            r@ == token_problem_message(*self),
    {
        match self {
            TokenParseProblem::TrailingComma => String::from_str("Trailing comma"),
            TokenParseProblem::UnclosedQuotedToken => String::from_str("Unclosed quoted token"),
            TokenParseProblem::CharactersOutsideQuotes => String::from_str("Characters after quotes"),
            TokenParseProblem::TrailingBackslashInQuotes => String::from_str(
                "Trailing backslash while inside quotes",
            ),
            TokenParseProblem::InvalidTokenStart(c) => invalid_start_message(*c),
        }
    }
}

} // verus!
