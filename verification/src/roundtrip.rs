//! Reading back what was written: the text of a token, a list of tokens or an expression in
//! canonical form reads back as that same value.
use vstd::prelude::*;
use crate::model::{SpecToken, SpecExpr, JunctionType, is_junction, children, junction};
use crate::types::{AccessToken, AccessExpression};
use crate::sort::{sort_seq, is_sorted, lemma_sort_sorted};
use crate::lex::{lemma_unquoted_end, is_unquoted_char, is_quotable_char, is_unquoted_text, token_of_text, unquoted_end, lex_quoted, lex_token, Lexed};
use crate::tokens::{read_list, parse_token_list, parse_tokens, ListParsed};
use crate::display::{escape_char, escaped, quoted_text, show_token, show_tokens, show, show_list, show_expression, JunctionContext};
use crate::expression::{parse_expression, parse_expr, parse_term, parse_tail, Parsed, splice, junction_of_char};
use crate::problems::ExpressionParseProblem;
use crate::shape::{normal, normal_child, in_order, lemma_normal_children, lemma_all_in_order};
use crate::mentions::{tokens_in, lemma_tokens_in_child};

verus! {

/// A token whose text reads back as the same token: an unquoted token with text that may be
/// written unquoted, or a quoted token with some text that may not (every token that reading
/// gives).
pub open spec fn displayable(t: SpecToken) -> bool {
    match t {
        SpecToken::Unquoted(s) => is_unquoted_text(s),
        SpecToken::Quoted(s) => s.len() > 0 && !is_unquoted_text(s),
    }
}

/// Every token of `e` reads back as itself when written.
pub open spec fn tokens_displayable(e: SpecExpr) -> bool {
    forall|t: SpecToken| #[trigger] tokens_in(e).contains(t) ==> displayable(t)
}

proof fn lemma_lex_quoted_displayable(s: Seq<char>, i: int, text: Seq<char>)
    ensures
        lex_quoted(s, i, text) matches Lexed::Token(t, _) ==> displayable(t),
    decreases s.len() - i,
{
    if 0 <= i < s.len() {
        if s[i] == '\\' {
            if i + 1 < s.len() && (s[i + 1] == '"' || s[i + 1] == '\\') {
                lemma_lex_quoted_displayable(s, i + 2, text.push(s[i + 1]));
            }
        } else if s[i] != '"' && is_quotable_char(s[i]) {
            lemma_lex_quoted_displayable(s, i + 1, text.push(s[i]));
        }
    }
}

/// Every token that the lexer reads reads back as itself when written.
pub proof fn lemma_lex_displayable(s: Seq<char>, i: int)
    ensures
        lex_token(s, i) matches Lexed::Token(t, _) ==> displayable(t),
{
    if 0 <= i < s.len() && is_unquoted_char(s[i]) {
        lemma_unquoted_end(s, i);
        lemma_unquoted_end(s, i + 1);
        let x = s.subrange(i, unquoted_end(s, i));
        assert forall|k: int| 0 <= k < x.len() implies #[trigger] is_unquoted_char(x[k]) by {
            assert(x[k] == s[i + k]);
        }
    } else if 0 <= i < s.len() && s[i] == '"' {
        lemma_lex_quoted_displayable(s, i + 1, Seq::empty());
    }
}

proof fn lemma_unquoted_run(s: Seq<char>, i: int, end: int)
    requires
        0 <= i <= end <= s.len(),
        forall|k: int| i <= k < end ==> #[trigger] is_unquoted_char(s[k]),
        end < s.len() ==> !is_unquoted_char(s[end]),
    ensures
        unquoted_end(s, i) == end,
    decreases end - i,
{
    if i < end {
        lemma_unquoted_run(s, i + 1, end);
    }
}

proof fn lemma_quoted_run(s: Seq<char>, p: int, x: Seq<char>, j: int)
    requires
        0 <= p,
        0 <= j <= x.len(),
        p + x.len() + 2 <= s.len(),
        s.subrange(p + 1, p + 1 + x.len()) == x,
        s[p + 1 + x.len()] == '"',
        x.len() > 0,
        forall|i: int| 0 <= i < x.len() ==> #[trigger] is_quotable_char(x[i]),
    ensures
        lex_quoted(s, p + 1 + j, x.subrange(0, j)) == Lexed::Token(token_of_text(x), p + x.len() + 2),
    decreases x.len() - j,
{
    if j < x.len() {
        assert(s[p + 1 + j] == x[j]);
        assert(is_quotable_char(x[j]));
        assert(x.subrange(0, j).push(x[j]) =~= x.subrange(0, j + 1));
        lemma_quoted_run(s, p, x, j + 1);
    } else {
        assert(x.subrange(0, j) =~= x);
    }
}

/// A quoted token with text of characters that stand unescaped between quotes reads as the
/// token with that text.
proof fn lemma_lex_quoted_text(s: Seq<char>, p: int, x: Seq<char>)
    requires
        0 <= p,
        p + x.len() + 2 <= s.len(),
        s[p] == '"',
        s.subrange(p + 1, p + 1 + x.len()) == x,
        s[p + 1 + x.len()] == '"',
        x.len() > 0,
        forall|i: int| 0 <= i < x.len() ==> #[trigger] is_quotable_char(x[i]),
    ensures
        lex_token(s, p) == Lexed::Token(token_of_text(x), p + x.len() + 2),
{
    lemma_quoted_run(s, p, x, 0);
    assert(x.subrange(0, 0) =~= Seq::<char>::empty());
}

/// A displayable token written at `p`, and followed by the end of the text or by a character
/// that cannot continue an unquoted token, reads back there.
pub proof fn lemma_lex_shown(s: Seq<char>, p: int, t: SpecToken)
    requires
        displayable(t),
        0 <= p,
        p + show_token(t).len() <= s.len(),
        s.subrange(p, p + show_token(t).len()) == show_token(t),
        p + show_token(t).len() < s.len() ==> !is_unquoted_char(s[p + show_token(t).len()]),
    ensures
        lex_token(s, p) == Lexed::Token(t, p + show_token(t).len()),
{
    let n = show_token(t).len();
    match t {
        SpecToken::Unquoted(x) => {
            assert(s[p] == x[0]);
            assert forall|k: int| p <= k < p + n implies #[trigger] is_unquoted_char(s[k]) by {
                assert(s[k] == x[k - p]);
            }
            lemma_unquoted_run(s, p, p + n);
        },
        SpecToken::Quoted(x) => {
            let q = quoted_text(x);
            assert forall|k: int| 0 <= k < q.len() implies s[p + k] == q[k] by {
                assert(s.subrange(p, p + n)[k] == s[p + k]);
            }
            assert(s[p] == q[0]);
            assert(x.subrange(0, 0) =~= Seq::<char>::empty());
            assert(escaped(x.subrange(0, 0)) =~= Seq::<char>::empty());
            lemma_escaped_quoted_run(s, p, x, 0);
        },
    }
}

/// The text of the first `m` tokens is where the text of all of them begins; a comma follows it
/// when more tokens come.
proof fn lemma_show_tokens_prefix(ts: Seq<SpecToken>, m: int)
    requires
        0 <= m <= ts.len(),
    ensures
        show_tokens(ts.subrange(0, m)).len() <= show_tokens(ts).len(),
        show_tokens(ts).subrange(0, show_tokens(ts.subrange(0, m)).len() as int) == show_tokens(ts.subrange(0, m)),
        1 <= m < ts.len() ==> show_tokens(ts)[show_tokens(ts.subrange(0, m)).len() as int] == ',',
    decreases ts.len(),
{
    let s = show_tokens(ts);
    if m == ts.len() {
        assert(ts.subrange(0, m) =~= ts);
    } else {
        let init = ts.subrange(0, ts.len() - 1);
        lemma_show_tokens_prefix(init, m);
        assert(init.subrange(0, m) =~= ts.subrange(0, m));
        let si = show_tokens(init);
        let p = show_tokens(ts.subrange(0, m));
        assert(s == (if ts.len() > 1 { si.push(',') } else { si }) + show_token(ts[ts.len() - 1]));
        assert(s.subrange(0, p.len() as int) =~= si.subrange(0, p.len() as int));
        if 1 <= m {
            if m < init.len() {
                assert(s[p.len() as int] == si[p.len() as int]);
            } else {
                assert(init.subrange(0, m) =~= init);
                assert(s[p.len() as int] == ',');
            }
        }
    }
}

/// The text of the first `k + 1` tokens: that of the first `k`, a comma if there were any, and
/// that of token `k`.
proof fn lemma_show_tokens_step(ts: Seq<SpecToken>, k: int)
    requires
        0 <= k < ts.len(),
    ensures
        show_tokens(ts.subrange(0, k + 1)) == (if k > 0 {
            show_tokens(ts.subrange(0, k)).push(',')
        } else {
            show_tokens(ts.subrange(0, k))
        }) + show_token(ts[k]),
{
    assert(ts.subrange(0, k + 1).subrange(0, k) =~= ts.subrange(0, k));
}

proof fn lemma_read_shown_list(ts: Seq<SpecToken>, k: int)
    requires
        0 <= k < ts.len(),
        forall|i: int| 0 <= i < ts.len() ==> #[trigger] displayable(ts[i]),
    ensures
        read_list(
            show_tokens(ts),
            if k == 0 { 0int } else { show_tokens(ts.subrange(0, k)).len() as int + 1 },
            ts.subrange(0, k),
        ) == ListParsed::Done(ts),
    decreases ts.len() - k,
{
    let s = show_tokens(ts);
    let p: int = if k == 0 { 0int } else { show_tokens(ts.subrange(0, k)).len() as int + 1 };
    let t = ts[k];
    let e = show_tokens(ts.subrange(0, k + 1)).len() as int;
    lemma_show_tokens_step(ts, k);
    lemma_show_tokens_prefix(ts, k + 1);
    assert(displayable(t));
    assert(show_token(t).len() > 0);
    assert(p + show_token(t).len() == e);
    assert(s.subrange(p, e) =~= show_token(t)) by {
        assert forall|i: int| 0 <= i < show_token(t).len() implies s[p + i] == show_token(t)[i] by {
            assert(s[p + i] == show_tokens(ts.subrange(0, k + 1))[p + i]);
        }
    }
    lemma_lex_shown(s, p, t);
    assert(ts.subrange(0, k).push(t) =~= ts.subrange(0, k + 1));
    if k + 1 < ts.len() {
        assert(s[e] == ',');
        lemma_read_shown_list(ts, k + 1);
    } else {
        assert(ts.subrange(0, k + 1) =~= ts);
        assert(e == s.len());
    }
}

/// Writing a sorted list of displayable tokens and reading the text back gives the same list.
pub proof fn lemma_tokens_roundtrip(ts: Seq<SpecToken>)
    requires
        is_sorted::<AccessToken>(ts),
        forall|i: int| 0 <= i < ts.len() ==> #[trigger] displayable(ts[i]),
    ensures
        parse_tokens(show_tokens(ts)) == Ok::<Seq<SpecToken>, (usize, usize, crate::problems::TokenParseProblem)>(ts),
{
    lemma_sort_sorted::<AccessToken>(ts);
    if ts.len() > 0 {
        lemma_read_shown_list(ts, 0);
        assert(ts.subrange(0, 0) =~= Seq::<SpecToken>::empty());
        lemma_show_tokens_prefix(ts, 1);
        lemma_show_tokens_step(ts, 0);
        assert(displayable(ts[0]));
        assert(show_tokens(ts.subrange(0, 0)) =~= Seq::<char>::empty());
        assert(show_tokens(ts.subrange(0, 1)).len() > 0);
        assert(show_tokens(ts).len() > 0);
        assert(parse_token_list(show_tokens(ts)) == ListParsed::Done(ts));
        assert(sort_seq::<AccessToken>(ts) == ts);
        assert(parse_tokens(show_tokens(ts)) == Ok::<Seq<SpecToken>, (usize, usize, crate::problems::TokenParseProblem)>(sort_seq::<AccessToken>(ts)));
    } else {
        assert(show_tokens(ts) =~= Seq::<char>::empty());
        assert(ts =~= Seq::<SpecToken>::empty());
        assert(parse_token_list(show_tokens(ts)) == ListParsed::Done(Seq::<SpecToken>::empty()));
    }
}

/// Text that may be written unquoted reads the same between quotes as without them.
pub proof fn lemma_quoted_same_as_unquoted(s: Seq<char>)
    requires
        is_unquoted_text(s),
    ensures
        parse_tokens(seq!['"'] + s + seq!['"']) == parse_tokens(s),
{
    let q = seq!['"'] + s + seq!['"'];
    assert(q.subrange(1, 1 + s.len() as int) =~= s);
    assert forall|i: int| 0 <= i < s.len() implies #[trigger] is_quotable_char(s[i]) by {
        assert(is_unquoted_char(s[i]));
    }
    lemma_lex_quoted_text(q, 0, s);
    assert(q[1 + s.len() as int] == '"');
    let t = SpecToken::Unquoted(s);
    assert(token_of_text(s) == t);
    assert(seq![t].len() == 1);
    assert(is_sorted::<AccessToken>(seq![t]));
    assert(displayable(seq![t][0]));
    lemma_tokens_roundtrip(seq![t]);
    lemma_show_tokens_step(seq![t], 0);
    assert(seq![t].subrange(0, 1) =~= seq![t]);
    assert(show_tokens(seq![t].subrange(0, 0)) =~= Seq::<char>::empty());
    assert(show_tokens(seq![t]) =~= s);
    assert(Seq::<SpecToken>::empty().push(t) =~= seq![t]);
    assert(q.len() == s.len() + 2);
    assert(read_list(q, 0, Seq::empty()) == ListParsed::Done(seq![t]));
    lemma_sort_sorted::<AccessToken>(seq![t]);
    assert(parse_tokens(q) == Ok::<Seq<SpecToken>, (usize, usize, crate::problems::TokenParseProblem)>(seq![t]));
}


/// An expression in canonical written form: the empty expression, a displayable token, or a
/// junction of at least two children in ascending order, each a displayable token or a
/// junction of the other kind in canonical written form.
pub open spec fn canonical(e: SpecExpr) -> bool
    decreases e,
{
    match e {
        SpecExpr::Empty => true,
        SpecExpr::Token(t) => displayable(t),
        SpecExpr::And(cs) => cs.len() >= 2 && is_sorted::<AccessExpression>(cs) && canonical_children(JunctionType::And, cs),
        SpecExpr::Or(cs) => cs.len() >= 2 && is_sorted::<AccessExpression>(cs) && canonical_children(JunctionType::Or, cs),
    }
}

/// Each of `cs` is a displayable token or a junction of the kind other than `kind` in
/// canonical written form.
pub open spec fn canonical_children(kind: JunctionType, cs: Seq<SpecExpr>) -> bool
    decreases cs,
{
    if cs.len() == 0 {
        true
    } else {
        canonical_children(kind, cs.subrange(0, cs.len() - 1)) && ((cs[cs.len() - 1] is Token && displayable(
            cs[cs.len() - 1]->Token_0,
        )) || (is_junction(kind.flip(), cs[cs.len() - 1]) && canonical(cs[cs.len() - 1])))
    }
}

/// `c` is a displayable token or a junction of the kind other than `kind` in canonical
/// written form.
pub open spec fn canonical_child(kind: JunctionType, c: SpecExpr) -> bool {
    (c is Token && displayable(c->Token_0)) || (is_junction(kind.flip(), c) && canonical(c))
}

proof fn lemma_canonical_children(kind: JunctionType, cs: Seq<SpecExpr>)
    ensures
        canonical_children(kind, cs) == forall|i: int| 0 <= i < cs.len() ==> #[trigger] canonical_child(kind, cs[i]),
    decreases cs.len(),
{
    if cs.len() > 0 {
        let init = cs.subrange(0, cs.len() - 1);
        lemma_canonical_children(kind, init);
        assert forall|i: int| 0 <= i < init.len() implies #[trigger] init[i] == cs[i] by {}
        if forall|i: int| 0 <= i < cs.len() ==> #[trigger] canonical_child(kind, cs[i]) {
            assert(canonical_child(kind, cs[cs.len() - 1]));
            assert forall|i: int| 0 <= i < init.len() implies #[trigger] canonical_child(kind, init[i]) by {
                assert(canonical_child(kind, cs[i]));
            }
        }
        if canonical_children(kind, init) && canonical_child(kind, cs[cs.len() - 1]) {
            assert forall|i: int| 0 <= i < cs.len() implies #[trigger] canonical_child(kind, cs[i]) by {
                if i < cs.len() - 1 {
                    assert(canonical_child(kind, init[i]));
                }
            }
        }
    }
}

/// Where the children of a junction of the given kind are written.
pub open spec fn context_of(kind: JunctionType) -> JunctionContext {
    match kind {
        JunctionType::And => JunctionContext::And,
        JunctionType::Or => JunctionContext::Or,
    }
}

/// The character between the children of a junction of the given kind.
pub open spec fn separator(kind: JunctionType) -> char {
    match kind {
        JunctionType::And => '&',
        JunctionType::Or => '|',
    }
}

/// The kind of a junction.
pub open spec fn kind_of(e: SpecExpr) -> JunctionType {
    if e is And {
        JunctionType::And
    } else {
        JunctionType::Or
    }
}

proof fn lemma_show_list_step(cs: Seq<SpecExpr>, sep: char, ctx: JunctionContext, k: int)
    requires
        0 <= k < cs.len(),
    ensures
        show_list(cs.subrange(0, k + 1), sep, ctx) == (if k > 0 {
            show_list(cs.subrange(0, k), sep, ctx).push(sep)
        } else {
            show_list(cs.subrange(0, k), sep, ctx)
        }) + show(cs[k], ctx),
        k == 0 ==> show_list(cs.subrange(0, k), sep, ctx) == Seq::<char>::empty(),
{
    assert(cs.subrange(0, k + 1).subrange(0, k) =~= cs.subrange(0, k));
}

proof fn lemma_show_list_prefix(cs: Seq<SpecExpr>, sep: char, ctx: JunctionContext, m: int)
    requires
        0 <= m <= cs.len(),
    ensures
        show_list(cs.subrange(0, m), sep, ctx).len() <= show_list(cs, sep, ctx).len(),
        show_list(cs, sep, ctx).subrange(0, show_list(cs.subrange(0, m), sep, ctx).len() as int) == show_list(
            cs.subrange(0, m),
            sep,
            ctx,
        ),
        1 <= m < cs.len() ==> show_list(cs, sep, ctx)[show_list(cs.subrange(0, m), sep, ctx).len() as int] == sep,
    decreases cs.len(),
{
    let s = show_list(cs, sep, ctx);
    if m == cs.len() {
        assert(cs.subrange(0, m) =~= cs);
    } else {
        let init = cs.subrange(0, cs.len() - 1);
        lemma_show_list_prefix(init, sep, ctx, m);
        assert(init.subrange(0, m) =~= cs.subrange(0, m));
        let si = show_list(init, sep, ctx);
        let p = show_list(cs.subrange(0, m), sep, ctx);
        assert(s == (if cs.len() > 1 { si.push(sep) } else { si }) + show(cs[cs.len() - 1], ctx));
        assert(s.subrange(0, p.len() as int) =~= si.subrange(0, p.len() as int));
        if 1 <= m {
            if m < init.len() {
                assert(s[p.len() as int] == si[p.len() as int]);
            } else {
                assert(init.subrange(0, m) =~= init);
                assert(s[p.len() as int] == sep);
            }
        }
    }
}

proof fn lemma_splice_plain(kind: JunctionType, cs: Seq<SpecExpr>)
    requires
        forall|i: int| 0 <= i < cs.len() ==> !is_junction(kind, #[trigger] cs[i]),
    ensures
        splice(kind, cs) == cs,
    decreases cs.len(),
{
    if cs.len() > 0 {
        let init = cs.subrange(0, cs.len() - 1);
        assert forall|i: int| 0 <= i < init.len() implies !is_junction(kind, #[trigger] init[i]) by {
            assert(init[i] == cs[i]);
        }
        lemma_splice_plain(kind, init);
        assert(!is_junction(kind, cs[cs.len() - 1]));
        assert(init.push(cs[cs.len() - 1]) =~= cs);
    }
}

/// A term written in canonical form as a child of a junction of kind `kind` reads back.
proof fn lemma_parse_term_shown(s: Seq<char>, p: int, c: SpecExpr, kind: JunctionType)
    requires
        canonical_child(kind, c),
        0 <= p,
        p + show(c, context_of(kind)).len() <= s.len(),
        s.subrange(p, p + show(c, context_of(kind)).len()) == show(c, context_of(kind)),
        p + show(c, context_of(kind)).len() < s.len() ==> !is_unquoted_char(s[p + show(c, context_of(kind)).len()]),
    ensures
        parse_term(s, p) == Parsed::Done(c, p + show(c, context_of(kind)).len()),
    decreases c, 2int, 0int,
{
    let text = show(c, context_of(kind));
    let n = text.len() as int;
    if c is Token {
        let t = c->Token_0;
        assert(text == show_token(t));
        lemma_lex_shown(s, p, t);
        assert(s[p] == text[0]);
        assert(text[0] != '(') by {
            match t {
                SpecToken::Unquoted(x) => {
                    assert(is_unquoted_char(x[0]));
                },
                SpecToken::Quoted(x) => {},
            }
        }
    } else {
        let inner = show_list(children(c), separator(kind.flip()), context_of(kind.flip()));
        assert(text == seq!['('] + inner + seq![')']);
        assert(s[p] == text[0]);
        assert(s.subrange(p + 1, p + 1 + inner.len()) =~= inner) by {
            assert forall|i: int| 0 <= i < inner.len() implies s[p + 1 + i] == inner[i] by {
                assert(s[p + 1 + i] == text[1 + i]);
            }
        }
        assert(s[p + 1 + inner.len()] == text[1 + inner.len() as int]);
        lemma_parse_expr_shown(s, p + 1, c);
    }
}

/// A junction written in canonical form, followed by the end of the text or by a closing
/// parenthesis, reads back.
proof fn lemma_parse_expr_shown(s: Seq<char>, p: int, e: SpecExpr)
    requires
        canonical(e),
        e is And || e is Or,
        0 <= p,
        p + show_list(children(e), separator(kind_of(e)), context_of(kind_of(e))).len() <= s.len(),
        s.subrange(p, p + show_list(children(e), separator(kind_of(e)), context_of(kind_of(e))).len())
            == show_list(children(e), separator(kind_of(e)), context_of(kind_of(e))),
        p + show_list(children(e), separator(kind_of(e)), context_of(kind_of(e))).len() < s.len() ==> s[p
            + show_list(children(e), separator(kind_of(e)), context_of(kind_of(e))).len()] == ')',
    ensures
        parse_expr(s, p) == Parsed::Done(e, p + show_list(children(e), separator(kind_of(e)), context_of(kind_of(e))).len()),
    decreases e, 1int, 0int,
{
    let kind = kind_of(e);
    let cs = children(e);
    let sep = separator(kind);
    let ctx = context_of(kind);
    let list = show_list(cs, sep, ctx);
    lemma_canonical_children(kind, cs);
    lemma_show_list_step(cs, sep, ctx, 0);
    lemma_show_list_prefix(cs, sep, ctx, 1);
    let first = show(cs[0], ctx);
    assert(show_list(cs.subrange(0, 1), sep, ctx) =~= first);
    assert(s.subrange(p, p + first.len()) =~= first) by {
        assert forall|i: int| 0 <= i < first.len() implies s[p + i] == first[i] by {
            assert(s[p + i] == list[i]);
        }
    }
    lemma_show_list_step(cs, sep, ctx, 1);
    lemma_show_list_prefix(cs, sep, ctx, 2);
    assert(first.len() < list.len());
    assert(list[first.len() as int] == sep);
    assert(s[p + first.len()] == list[first.len() as int]);
    assert(canonical_child(kind, cs[0]));
    crate::model::lemma_spec_child_decreases(e, 0);
    lemma_parse_term_shown(s, p, cs[0], kind);
    assert(first.len() > 0) by {
        if cs[0] is Token {
            assert(displayable(cs[0]->Token_0));
        }
    }
    assert(seq![cs[0]] =~= cs.subrange(0, 1));
    lemma_parse_tail_shown(s, p, e, 1);
}

/// The rest of a junction written in canonical form, from the separator before its child `m`,
/// reads back.
proof fn lemma_parse_tail_shown(s: Seq<char>, p: int, e: SpecExpr, m: int)
    requires
        canonical(e),
        e is And || e is Or,
        1 <= m < children(e).len(),
        0 <= p,
        p + show_list(children(e), separator(kind_of(e)), context_of(kind_of(e))).len() <= s.len(),
        s.subrange(p, p + show_list(children(e), separator(kind_of(e)), context_of(kind_of(e))).len())
            == show_list(children(e), separator(kind_of(e)), context_of(kind_of(e))),
        p + show_list(children(e), separator(kind_of(e)), context_of(kind_of(e))).len() < s.len() ==> s[p
            + show_list(children(e), separator(kind_of(e)), context_of(kind_of(e))).len()] == ')',
    ensures
        parse_tail(
            s,
            p + show_list(children(e).subrange(0, m), separator(kind_of(e)), context_of(kind_of(e))).len(),
            children(e).subrange(0, m),
        ) == Parsed::Done(e, p + show_list(children(e), separator(kind_of(e)), context_of(kind_of(e))).len()),
    decreases e, 0int, children(e).len() - m,
{
    let kind = kind_of(e);
    let cs = children(e);
    let sep = separator(kind);
    let ctx = context_of(kind);
    let list = show_list(cs, sep, ctx);
    let n = cs.len() as int;
    let j = p + show_list(cs.subrange(0, m), sep, ctx).len();
    let k = p + show_list(cs.subrange(0, m + 1), sep, ctx).len();
    lemma_canonical_children(kind, cs);
    lemma_show_list_step(cs, sep, ctx, m);
    lemma_show_list_prefix(cs, sep, ctx, m);
    lemma_show_list_prefix(cs, sep, ctx, m + 1);
    let here = show(cs[m], ctx);
    let before = show_list(cs.subrange(0, m), sep, ctx);
    let upto = show_list(cs.subrange(0, m + 1), sep, ctx);
    assert(upto == before.push(sep) + here);
    assert(s[j] == list[before.len() as int]);
    assert(s.subrange(j + 1, j + 1 + here.len()) =~= here) by {
        assert forall|i: int| 0 <= i < here.len() implies s[j + 1 + i] == here[i] by {
            assert(s[j + 1 + i] == list[before.len() + 1 + i]);
            assert(list[before.len() + 1 + i] == upto[before.len() + 1 + i]);
        }
    }
    assert(k == j + 1 + here.len());
    assert(canonical_child(kind, cs[m]));
    if m + 1 < n {
        lemma_show_list_step(cs, sep, ctx, m + 1);
        lemma_show_list_prefix(cs, sep, ctx, m + 2);
        assert(upto.len() < list.len());
        assert(s[k] == list[upto.len() as int]);
    }
    crate::model::lemma_spec_child_decreases(e, m);
    lemma_parse_term_shown(s, j + 1, cs[m], kind);
    assert(cs.subrange(0, m).push(cs[m]) =~= cs.subrange(0, m + 1));
    if m + 1 < n {
        lemma_parse_tail_shown(s, p, e, m + 1);
    } else {
        assert(cs.subrange(0, m + 1) =~= cs);
        assert(k == p + list.len());
        assert forall|i: int| 0 <= i < cs.len() implies !is_junction(kind, #[trigger] cs[i]) by {
            assert(canonical_child(kind, cs[i]));
        }
        lemma_splice_plain(kind, cs);
        lemma_sort_sorted::<AccessExpression>(cs);
        assert(junction_of_char(s[j]) == kind);
    }
}

/// Writing an expression in canonical written form and reading the text back gives the same
/// expression.
pub proof fn lemma_expression_roundtrip(e: SpecExpr)
    requires
        canonical(e),
    ensures
        parse_expression(show_expression(e)) == Ok::<SpecExpr, ExpressionParseProblem>(e),
{
    let s = show_expression(e);
    match e {
        SpecExpr::Empty => {},
        SpecExpr::Token(t) => {
            assert(canonical_child(JunctionType::And, e));
            assert(show(e, context_of(JunctionType::And)) == s);
            assert(s.subrange(0, s.len() as int) =~= s);
            lemma_parse_term_shown(s, 0, e, JunctionType::And);
            assert(s.len() > 0);
        },
        _ => {
            let list = show_list(children(e), separator(kind_of(e)), context_of(kind_of(e)));
            assert(s == list);
            assert(s.subrange(0, s.len() as int) =~= s);
            lemma_parse_expr_shown(s, 0, e);
            lemma_canonical_children(kind_of(e), children(e));
            assert(canonical_child(kind_of(e), children(e)[0]));
            lemma_show_list_prefix(children(e), separator(kind_of(e)), context_of(kind_of(e)), 1);
            lemma_show_list_step(children(e), separator(kind_of(e)), context_of(kind_of(e)), 0);
            assert(s.len() > 0) by {
                let c0 = children(e)[0];
                assert(show_list(children(e).subrange(0, 1), separator(kind_of(e)), context_of(kind_of(e))) =~= show(c0, context_of(kind_of(e))));
                if c0 is Token {
                    assert(displayable(c0->Token_0));
                } else {
                }
            }
        },
    }
}


/// An expression in normal shape whose junctions have their children in order, and whose tokens
/// are displayable, is in canonical written form.
proof fn lemma_canonical_from_shape(e: SpecExpr)
    requires
        normal(e),
        in_order(e),
        forall|t: SpecToken| #[trigger] tokens_in(e).contains(t) ==> displayable(t),
    ensures
        canonical(e),
    decreases e,
{
    match e {
        SpecExpr::Token(t) => {
            assert(tokens_in(e)[0] == t);
            assert(tokens_in(e).contains(t));
        },
        SpecExpr::Empty => {},
        _ => {
            let kind = kind_of(e);
            let cs = children(e);
            lemma_normal_children(kind, cs);
            lemma_all_in_order(cs);
            assert forall|i: int| 0 <= i < cs.len() implies #[trigger] canonical_child(kind, cs[i]) by {
                assert(normal_child(kind, cs[i]));
                assert(in_order(cs[i]));
                assert forall|t: SpecToken| #[trigger] tokens_in(cs[i]).contains(t) implies displayable(t) by {
                    lemma_tokens_in_child(cs, i, t);
                    assert(tokens_in(e).contains(t));
                }
                if cs[i] is Token {
                    let t = cs[i]->Token_0;
                    assert(tokens_in(cs[i])[0] == t);
                    assert(tokens_in(cs[i]).contains(t));
                } else {
                    crate::model::lemma_spec_child_decreases(e, i);
                    lemma_canonical_from_shape(cs[i]);
                }
            }
            lemma_canonical_children(kind, cs);
        },
    }
}

/// An expression in normal shape whose junctions have their children in order, and whose tokens
/// are displayable (as is the case of what reading or simplifying gives, when its tokens are),
/// is written as text that reads back as that same expression.
pub proof fn lemma_ordered_roundtrip(e: SpecExpr)
    requires
        normal(e),
        in_order(e),
        forall|t: SpecToken| #[trigger] tokens_in(e).contains(t) ==> displayable(t),
    ensures
        parse_expression(show_expression(e)) == Ok::<SpecExpr, ExpressionParseProblem>(e),
{
    lemma_canonical_from_shape(e);
    lemma_expression_roundtrip(e);
}


/// Text that a quoted token may hold: at least one character (any character may stand in a
/// quoted token, a double quote or a backslash written after a backslash).
pub open spec fn quotable_text(x: Seq<char>) -> bool {
    x.len() > 0
}

proof fn lemma_escaped_append(a: Seq<char>, b: Seq<char>)
    ensures
        escaped(a + b) == escaped(a) + escaped(b),
    decreases b.len(),
{
    if b.len() == 0 {
        assert(a + b =~= a);
        assert(escaped(a) + escaped(b) =~= escaped(a));
    } else {
        lemma_escaped_append(a, b.drop_last());
        assert((a + b).drop_last() =~= a + b.drop_last());
        assert((a + b).last() == b.last());
    }
}

proof fn lemma_escaped_step(x: Seq<char>, j: int)
    requires
        0 <= j < x.len(),
    ensures
        escaped(x) == escaped(x.subrange(0, j)) + escape_char(x[j]) + escaped(x.subrange(j + 1, x.len() as int)),
{
    let a = x.subrange(0, j);
    let c = seq![x[j]];
    let b = x.subrange(j + 1, x.len() as int);
    assert(x =~= a + c + b);
    lemma_escaped_append(a + c, b);
    lemma_escaped_append(a, c);
    assert(c.drop_last() =~= Seq::<char>::empty());
    assert(escaped(c.drop_last()) =~= Seq::<char>::empty());
    assert(c.last() == x[j]);
    assert(escaped(c) =~= escape_char(x[j]));
}

proof fn lemma_escaped_quoted_run(s: Seq<char>, p: int, x: Seq<char>, j: int)
    requires
        x.len() > 0,
        0 <= p,
        0 <= j <= x.len(),
        p + quoted_text(x).len() <= s.len(),
        forall|k: int| 0 <= k < quoted_text(x).len() ==> s[p + k] == #[trigger] quoted_text(x)[k],
    ensures
        lex_quoted(s, p + 1 + escaped(x.subrange(0, j)).len() as int, x.subrange(0, j)) == Lexed::Token(
            token_of_text(x),
            p + quoted_text(x).len() as int,
        ),
    decreases x.len() - j,
{
    let q = quoted_text(x);
    let i: int = 1 + escaped(x.subrange(0, j)).len() as int;
    if j < x.len() {
        lemma_escaped_step(x, j);
        let c = x[j];
        let rest = escaped(x.subrange(j + 1, x.len() as int));
        assert(q == seq!['"'] + escaped(x.subrange(0, j)) + escape_char(c) + rest + seq!['"']);
        assert(x.subrange(0, j + 1).drop_last() =~= x.subrange(0, j));
        assert(x.subrange(0, j + 1).last() == c);
        assert(escaped(x.subrange(0, j + 1)) == escaped(x.subrange(0, j)) + escape_char(c));
        assert(x.subrange(0, j).push(c) =~= x.subrange(0, j + 1));
        if c == '"' || c == '\\' {
            assert(q[i] == '\\');
            assert(q[i + 1] == c);
            assert(s[p + i] == q[i]);
            assert(s[p + i + 1] == q[i + 1]);
        } else {
            assert(q[i] == c);
            assert(s[p + i] == q[i]);
        }
        lemma_escaped_quoted_run(s, p, x, j + 1);
    } else {
        assert(x.subrange(0, j) =~= x);
        assert(q[i] == '"');
        assert(s[p + i] == q[i]);
    }
}

/// A token written by the quoting rule (a double quote; each character, with a backslash before
/// a double quote or a backslash; a double quote) reads as the token with that text, for any
/// text of characters that a quoted token may hold.
pub proof fn lemma_quoting_rule(x: Seq<char>)
    requires
        quotable_text(x),
    ensures
        parse_tokens(quoted_text(x)) == Ok::<Seq<SpecToken>, (usize, usize, crate::problems::TokenParseProblem)>(
            seq![token_of_text(x)],
        ),
{
    let q = quoted_text(x);
    assert(x.subrange(0, 0) =~= Seq::<char>::empty());
    assert(escaped(x.subrange(0, 0)) =~= Seq::<char>::empty());
    lemma_escaped_quoted_run(q, 0, x, 0);
    assert(q[0] == '"');
    assert(!is_unquoted_char(q[0]));
    let t = token_of_text(x);
    assert(lex_token(q, 0) == Lexed::Token(t, q.len() as int));
    assert(Seq::<SpecToken>::empty().push(t) =~= seq![t]);
    assert(read_list(q, 0, Seq::empty()) == ListParsed::Done(seq![t]));
    assert(is_sorted::<AccessToken>(seq![t]));
    lemma_sort_sorted::<AccessToken>(seq![t]);
}

} // verus!
