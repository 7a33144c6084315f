//! The lexical grammar of access tokens.
//!
//! ```text
//! unquoted-token = 1*( ALPHA / DIGIT / "_" / "-" / "." / ":" / "/" )
//! quoted-token   = DQUOTE 1*( quoted-char / "\" DQUOTE / "\\" ) DQUOTE
//! quoted-char    = any code point but DQUOTE and "\"
//! ```
//!
//! A quoted token whose text could be written unquoted is the same token as that unquoted one.
use vstd::prelude::*;
use crate::model::SpecToken;
use crate::types::AccessToken;
use crate::text::string_of;
use vstd::string::StringExecFns;

verus! {

/// A character that may stand in an unquoted token.
pub open spec fn is_unquoted_char(c: char) -> bool {
    ('a' <= c && c <= 'z') || ('A' <= c && c <= 'Z') || ('0' <= c && c <= '9') || c == '_' || c == '-'
        || c == '.' || c == ':' || c == '/'
}

/// A character that may stand unescaped between quotes: any but a double quote and a backslash.
pub open spec fn is_quotable_char(c: char) -> bool {
    c != '"' && c != '\\'
}

/// Text that can be written as an unquoted token.
pub open spec fn is_unquoted_text(s: Seq<char>) -> bool {
    s.len() > 0 && forall|i: int| 0 <= i < s.len() ==> #[trigger] is_unquoted_char(s[i])
}

/// The token with the given text: unquoted where the text allows it, else quoted.
pub open spec fn token_of_text(s: Seq<char>) -> SpecToken {
    if is_unquoted_text(s) {
        SpecToken::Unquoted(s)
    } else {
        SpecToken::Quoted(s)
    }
}

pub fn unquoted_char(c: char) -> (r: bool)
    ensures
        r == is_unquoted_char(c),
{
    ('a' <= c && c <= 'z') || ('A' <= c && c <= 'Z') || ('0' <= c && c <= '9') || c == '_' || c == '-'
        || c == '.' || c == ':' || c == '/'
}

pub fn quotable_char(c: char) -> (r: bool)
    ensures
        r == is_quotable_char(c),
{
    c != '"' && c != '\\'
}

/// Where the lexer stopped when no token could be read.
#[derive(Debug, PartialEq, Eq, Structural, Clone, Copy)]
pub enum Spot {
    /// Where a token should begin.
    TokenStart,
    /// Right after an opening quote.
    AfterOpenQuote,
    /// Inside a quoted token, after some of its text.
    InQuoted,
    /// Right after a backslash inside a quoted token.
    AfterBackslash,
}

/// What the lexer reads at a position.
pub enum Lexed {
    /// A token, and the position right after it.
    Token(SpecToken, int),
    /// No token: the position at which reading could not go on, and where that was.
    Stuck(int, Spot),
}

/// The end of the run of unquoted characters starting at `i`.
pub open spec fn unquoted_end(s: Seq<char>, i: int) -> int
    decreases s.len() - i,
{
    if 0 <= i < s.len() && is_unquoted_char(s[i]) {
        unquoted_end(s, i + 1)
    } else {
        i
    }
}

pub open spec fn inside_spot(text: Seq<char>) -> Spot {
    if text.len() == 0 {
        Spot::AfterOpenQuote
    } else {
        Spot::InQuoted
    }
}

/// Reads the rest of a quoted token from position `i`, having read `text` so far.
pub open spec fn lex_quoted(s: Seq<char>, i: int, text: Seq<char>) -> Lexed
    decreases s.len() - i,
{
    if i < 0 || i >= s.len() {
        Lexed::Stuck(i, inside_spot(text))
    } else if s[i] == '"' {
        if text.len() == 0 {
            Lexed::Stuck(i, Spot::AfterOpenQuote)
        } else {
            Lexed::Token(token_of_text(text), i + 1)
        }
    } else if s[i] == '\\' {
        if i + 1 < s.len() && (s[i + 1] == '"' || s[i + 1] == '\\') {
            lex_quoted(s, i + 2, text.push(s[i + 1]))
        } else {
            Lexed::Stuck(i + 1, Spot::AfterBackslash)
        }
    } else if is_quotable_char(s[i]) {
        lex_quoted(s, i + 1, text.push(s[i]))
    } else {
        Lexed::Stuck(i, inside_spot(text))
    }
}

/// Reads one token at position `i`.
pub open spec fn lex_token(s: Seq<char>, i: int) -> Lexed {
    if 0 <= i < s.len() && is_unquoted_char(s[i]) {
        Lexed::Token(SpecToken::Unquoted(s.subrange(i, unquoted_end(s, i))), unquoted_end(s, i))
    } else if 0 <= i < s.len() && s[i] == '"' {
        lex_quoted(s, i + 1, Seq::empty())
    } else {
        Lexed::Stuck(i, Spot::TokenStart)
    }
}

pub proof fn lemma_unquoted_end(s: Seq<char>, i: int)
    requires
        0 <= i <= s.len(),
    ensures
        i <= unquoted_end(s, i) <= s.len(),
        forall|k: int| i <= k < unquoted_end(s, i) ==> #[trigger] is_unquoted_char(s[k]),
        unquoted_end(s, i) < s.len() ==> !is_unquoted_char(s[unquoted_end(s, i)]),
    decreases s.len() - i,
{
    if i < s.len() && is_unquoted_char(s[i]) {
        lemma_unquoted_end(s, i + 1);
    }
}

pub proof fn lemma_lex_quoted_end(s: Seq<char>, i: int, text: Seq<char>)
    requires
        1 <= i <= s.len(),
    ensures
        lex_quoted(s, i, text) matches Lexed::Token(_, j) ==> i < j <= s.len(),
        lex_quoted(s, i, text) matches Lexed::Stuck(p, _) ==> i <= p <= s.len(),
    decreases s.len() - i,
{
    if i < s.len() {
        if s[i] == '\\' {
            if i + 1 < s.len() && (s[i + 1] == '"' || s[i + 1] == '\\') {
                lemma_lex_quoted_end(s, i + 2, text.push(s[i + 1]));
            }
        } else if s[i] != '"' && is_quotable_char(s[i]) {
            lemma_lex_quoted_end(s, i + 1, text.push(s[i]));
        }
    }
}

/// A token read at `i` ends after `i`; where no token can be read, the lexer stops at or after `i`.
pub proof fn lemma_lex_token_end(s: Seq<char>, i: int)
    requires
        0 <= i <= s.len(),
    ensures
        lex_token(s, i) matches Lexed::Token(_, j) ==> i < j <= s.len(),
        lex_token(s, i) matches Lexed::Stuck(p, _) ==> i <= p <= s.len(),
{
    if i < s.len() && is_unquoted_char(s[i]) {
        lemma_unquoted_end(s, i);
        lemma_unquoted_end(s, i + 1);
    } else if i < s.len() && s[i] == '"' {
        lemma_lex_quoted_end(s, i + 1, Seq::empty());
    }
}

/// Whether `s` can be written as an unquoted token.
pub fn unquoted_text(s: &String) -> (r: bool)
    ensures
        r == is_unquoted_text(s@),
{
    let v = crate::text::chars_of(s.as_str());
    if v.len() == 0 {
        return false;
    }
    let mut i: usize = 0;
    while i < v.len()
        invariant
            v@ == s@,
            i <= v.len(),
            forall|k: int| 0 <= k < i ==> #[trigger] is_unquoted_char(v@[k]),
        decreases v.len() - i,
    {
        if !unquoted_char(v[i]) {
            return false;
        }
        i += 1;
    }
    true
}

/// The token with the given text.
pub fn token_from_text(s: String) -> (r: AccessToken)
    ensures
        r@ == token_of_text(s@),
{
    if unquoted_text(&s) {
        AccessToken::Unquoted(s)
    } else {
        AccessToken::Quoted(s)
    }
}

impl AccessToken {
    /// The token with the given text: unquoted where the text allows it, else quoted.
    pub fn new(value: &str) -> (r: AccessToken)
        ensures
            r@ == token_of_text(value@),
    {
        token_from_text(String::from_str(value))
    }
}

/// Reads one token at position `i` of `s`.
pub fn read_token(s: &Vec<char>, i: usize) -> (r: Result<(AccessToken, usize), (usize, Spot)>)
    requires
        i <= s.len(),
    ensures
        match r {
            Ok((t, j)) => lex_token(s@, i as int) == Lexed::Token(t@, j as int),
            Err((p, spot)) => lex_token(s@, i as int) == Lexed::Stuck(p as int, spot),
        },
{
    if i < s.len() && unquoted_char(s[i]) {
        let mut j = i;
        while j < s.len() && unquoted_char(s[j])
            invariant
                i <= j <= s.len(),
                unquoted_end(s@, i as int) == unquoted_end(s@, j as int),
            decreases s.len() - j,
        {
            j += 1;
        }
        let text = string_of(s, i, j);
        return Ok((AccessToken::Unquoted(text), j));
    }
    if i < s.len() && s[i] == '"' {
        let mut text = String::new();
        let mut k = i + 1;
        assert(text@ =~= Seq::<char>::empty());
        loop
            invariant
                i < k <= s.len(),
                lex_token(s@, i as int) == lex_quoted(s@, k as int, text@),
            decreases s.len() - k,
        {
            if k == s.len() {
                if text.unicode_len() == 0 {
                    return Err((k, Spot::AfterOpenQuote));
                } else {
                    return Err((k, Spot::InQuoted));
                }
            }
            let c = s[k];
            if c == '"' {
                if text.unicode_len() == 0 {
                    return Err((k, Spot::AfterOpenQuote));
                }
                let t = token_from_text(text);
                return Ok((t, k + 1));
            } else if c == '\\' {
                if k + 1 < s.len() && (s[k + 1] == '"' || s[k + 1] == '\\') {
                    text.push(s[k + 1]);
                    k = k + 2;
                } else {
                    return Err((k + 1, Spot::AfterBackslash));
                }
            } else if quotable_char(c) {
                text.push(c);
                k = k + 1;
            } else {
                if text.unicode_len() == 0 {
                    return Err((k, Spot::AfterOpenQuote));
                } else {
                    return Err((k, Spot::InQuoted));
                }
            }
        }
    }
    Err((i, Spot::TokenStart))
}

} // verus!
