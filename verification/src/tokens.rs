//! Lists of access tokens: building them and reading them.
//!
//! ```text
//! tokens = [ access-token *( "," access-token ) ]
//! ```
use vstd::prelude::*;
use vstd::string::StrSliceExecFns;
use vstd::utf8::encode_utf8;
use crate::model::SpecToken;
use crate::order::{token_text, compare_text, lemma_chars_order_total};
use crate::types::{AccessToken, AccessTokens, views_of};
use crate::sort::{sort_seq, sort_vec};
use crate::lex::{Lexed, Spot, lex_token, read_token, lemma_lex_token_end};
use crate::problems::TokenParseProblem;

verus! {

impl AccessTokens {
    /// No tokens at all.
    pub fn empty() -> (r: Self)
        ensures
            r@ == Seq::<SpecToken>::empty(),
    {
        let r = AccessTokens { tokens: Vec::new() };
        assert(r@ =~= Seq::<SpecToken>::empty());
        r
    }

    /// The given tokens, in canonical order.
    pub fn new(items: &[AccessToken]) -> (r: Self)
        ensures
            r@ == sort_seq::<AccessToken>(views_of(items@)),
    {
        let mut copy: Vec<AccessToken> = Vec::new();
        let mut i: usize = 0;
        while i < items.len()
            invariant
                i <= items.len(),
                views_of(copy@) == views_of(items@).subrange(0, i as int),
            decreases items.len() - i,
        {
            let ghost before = views_of(copy@);
            let c = items[i].clone();
            assert(c@ == items@[i as int]@);
            copy.push(c);
            assert(views_of(copy@) =~= before.push(c@));
            i += 1;
            assert(views_of(copy@) =~= views_of(items@).subrange(0, i as int));
        }
        assert(views_of(items@).subrange(0, i as int) =~= views_of(items@));
        AccessTokens { tokens: sort_vec(copy) }
    }
}

/// The outcome of reading a list of tokens.
pub enum ListParsed {
    /// The tokens read, in the order they were written.
    Done(Seq<SpecToken>),
    /// Reading stopped at a position, for the given reason.
    Stuck(int, TokenParseProblem),
}

/// The problem reported when the lexer stops at `p`, at the given spot.
pub open spec fn token_problem_at(s: Seq<char>, p: int, spot: Spot) -> TokenParseProblem {
    match spot {
        Spot::TokenStart => if 0 <= p < s.len() {
            TokenParseProblem::InvalidTokenStart(s[p])
        } else {
            TokenParseProblem::TrailingComma
        },
        Spot::AfterBackslash => TokenParseProblem::TrailingBackslashInQuotes,
        _ => if 0 <= p < s.len() {
            TokenParseProblem::InvalidTokenStart(s[p])
        } else {
            TokenParseProblem::UnclosedQuotedToken
        },
    }
}

/// Reads tokens separated by commas from position `i`, with `read` read so far.
pub open spec fn read_list(s: Seq<char>, i: int, read: Seq<SpecToken>) -> ListParsed
    decreases s.len() - i,
{
    match lex_token(s, i) {
        Lexed::Stuck(p, spot) => ListParsed::Stuck(p, token_problem_at(s, p, spot)),
        Lexed::Token(t, j) => {
            if !(i < j <= s.len()) {
                ListParsed::Stuck(j, TokenParseProblem::TrailingComma)
            } else if j == s.len() {
                ListParsed::Done(read.push(t))
            } else if s[j] == ',' {
                read_list(s, j + 1, read.push(t))
            } else if s[i] == '"' {
                ListParsed::Stuck(j, TokenParseProblem::CharactersOutsideQuotes)
            } else {
                ListParsed::Stuck(j, TokenParseProblem::InvalidTokenStart(s[j]))
            }
        },
    }
}

/// Reads the whole text `s` as a list of tokens.
pub open spec fn parse_token_list(s: Seq<char>) -> ListParsed {
    if s.len() == 0 {
        ListParsed::Done(Seq::empty())
    } else {
        read_list(s, 0, Seq::empty())
    }
}

/// The bytes of the UTF-8 text `s` that the character at position `p` occupies
/// (none where `p` is the end of the text), as offsets truncated to `usize`.
pub open spec fn byte_span(s: Seq<char>, p: int) -> (usize, usize) {
    (
        encode_utf8(s.subrange(0, p)).len() as usize,
        if p < s.len() {
            encode_utf8(s.subrange(0, p + 1)).len() as usize
        } else {
            encode_utf8(s.subrange(0, p)).len() as usize
        },
    )
}

/// What reading the text `s` as a list of tokens gives: the tokens in canonical order, or the
/// bytes where reading stopped and why.
pub open spec fn parse_tokens(s: Seq<char>) -> Result<Seq<SpecToken>, (usize, usize, TokenParseProblem)> {
    match parse_token_list(s) {
        ListParsed::Done(ts) => Ok(sort_seq::<AccessToken>(ts)),
        ListParsed::Stuck(p, problem) => Err((byte_span(s, p).0, byte_span(s, p).1, problem)),
    }
}

/// Reads a list of access tokens from `input`.
pub fn access_tokens(input: &str) -> (r: Result<AccessTokens, (std::ops::Range<usize>, TokenParseProblem)>)
    ensures
        match r {
            Ok(ts) => parse_tokens(input@) == Ok::<Seq<SpecToken>, (usize, usize, TokenParseProblem)>(ts@),
            Err((span, problem)) => parse_tokens(input@) == Err::<Seq<SpecToken>, (usize, usize, TokenParseProblem)>(
                (span.start, span.end, problem),
            ),
        },
{
    let s = crate::text::chars_of(input);
    let mut read: Vec<AccessToken> = Vec::new();
    if s.len() == 0 {
        assert(views_of(read@) =~= Seq::<SpecToken>::empty());
        return Ok(AccessTokens { tokens: sort_vec(read) });
    }
    let mut i: usize = 0;
    assert(views_of(read@) =~= Seq::<SpecToken>::empty());
    loop
        invariant
            i <= s.len(),
            s@ == input@,
            s.len() > 0,
            parse_token_list(s@) == read_list(s@, i as int, views_of(read@)),
        decreases s.len() - i,
    {
        proof {
            lemma_lex_token_end(s@, i as int);
        }
        match read_token(&s, i) {
            Err((p, spot)) => {
                let problem = match spot {
                    Spot::TokenStart => if p < s.len() {
                        TokenParseProblem::InvalidTokenStart(s[p])
                    } else {
                        TokenParseProblem::TrailingComma
                    },
                    Spot::AfterBackslash => TokenParseProblem::TrailingBackslashInQuotes,
                    _ => if p < s.len() {
                        TokenParseProblem::InvalidTokenStart(s[p])
                    } else {
                        TokenParseProblem::UnclosedQuotedToken
                    },
                };
                return Err(span_at(input, &s, p, problem));
            },
            Ok((t, j)) => {
                let quoted = s[i] == '"';
                let ghost before = views_of(read@);
                read.push(t);
                assert(views_of(read@) =~= before.push(t@));
                if j == s.len() {
                    return Ok(AccessTokens { tokens: sort_vec(read) });
                } else if s[j] == ',' {
                    i = j + 1;
                } else if quoted {
                    return Err(span_at(input, &s, j, TokenParseProblem::CharactersOutsideQuotes));
                } else {
                    return Err(span_at(input, &s, j, TokenParseProblem::InvalidTokenStart(s[j])));
                }
            },
        }
    }
}

/// The bytes of `input` that character position `p` occupies, with the problem found there.
fn span_at(input: &str, s: &Vec<char>, p: usize, problem: TokenParseProblem) -> (r: (
    std::ops::Range<usize>,
    TokenParseProblem,
))
    requires
        s@ == input@,
        p <= s.len(),
    ensures
        r.0.start == byte_span(input@, p as int).0,
        r.0.end == byte_span(input@, p as int).1,
        r.1 == problem,
{
    let start = input.substring_char(0, p).len();
    let end = if p < s.len() {
        input.substring_char(0, p + 1).len()
    } else {
        start
    };
    (start..end, problem)
}

/// The texts of the tokens `ts`, each once, in the order in which they first occur (a quoted and
/// an unquoted token with the same text give it once).
pub open spec fn distinct_texts_of(ts: Seq<SpecToken>) -> Seq<Seq<char>>
    decreases ts.len(),
{
    if ts.len() == 0 {
        Seq::empty()
    } else {
        let r = distinct_texts_of(ts.drop_last());
        if r.contains(token_text(ts.last())) {
            r
        } else {
            r.push(token_text(ts.last()))
        }
    }
}

/// The characters of each of `v`.
pub open spec fn texts_view(v: Seq<String>) -> Seq<Seq<char>> {
    Seq::new(v.len(), |i: int| v[i]@)
}

/// The text of a token.
fn text_of(t: &AccessToken) -> (r: String)
    ensures
        r@ == token_text(t@),
{
    match t {
        AccessToken::Quoted(s) => s.clone(),
        AccessToken::Unquoted(s) => s.clone(),
    }
}

impl AccessTokens {
    /// The texts of these tokens, each once, in the order in which they first occur: what a set
    /// of plain strings holds, with no text twice.
    pub fn distinct_texts(&self) -> (r: Vec<String>)
        ensures
            texts_view(r@) == distinct_texts_of(self@),
    {
        let ghost ts = views_of(self.tokens@);
        let mut out: Vec<String> = Vec::new();
        let mut i: usize = 0;
        assert(ts.subrange(0, 0) =~= Seq::<SpecToken>::empty());
        assert(texts_view(out@) =~= Seq::<Seq<char>>::empty());
        while i < self.tokens.len()
            invariant
                ts == views_of(self.tokens@),
                i <= self.tokens.len(),
                texts_view(out@) == distinct_texts_of(ts.subrange(0, i as int)),
            decreases self.tokens.len() - i,
        {
            let text = text_of(&self.tokens[i]);
            let ghost before = texts_view(out@);
            let mut found = false;
            let mut k: usize = 0;
            while k < out.len()
                invariant
                    k <= out.len(),
                    before == texts_view(out@),
                    found == before.subrange(0, k as int).contains(text@),
                decreases out.len() - k,
            {
                let c = compare_text(&out[k], &text);
                proof {
                    lemma_chars_order_total(out@[k as int]@, text@);
                    assert(before.subrange(0, k + 1) =~= before.subrange(0, k as int).push(before[k as int]));
                }
                if c == 0 {
                    found = true;
                }
                proof {
                    let pre = before.subrange(0, k as int);
                    let post = before.subrange(0, k + 1);
                    assert(before[k as int] == out@[k as int]@);
                    if c == 0 {
                        assert(post[k as int] == text@);
                    } else if !found {
                        assert forall|m: int| 0 <= m < post.len() implies post[m] != text@ by {
                            if m < k {
                                assert(post[m] == pre[m]);
                            }
                        }
                    } else {
                        let m = choose|m: int| 0 <= m < pre.len() && pre[m] == text@;
                        assert(post[m] == pre[m]);
                    }
                }
                k += 1;
            }
            proof {
                assert(before.subrange(0, out.len() as int) =~= before);
                let next = ts.subrange(0, i + 1);
                assert(next.drop_last() =~= ts.subrange(0, i as int));
                assert(next.last() == ts[i as int]);
            }
            if !found {
                out.push(text);
                assert(texts_view(out@) =~= before.push(text@));
            }
            i += 1;
        }
        assert(ts.subrange(0, i as int) =~= ts);
        out
    }
}

} // verus!
