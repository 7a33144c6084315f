//! Reading two runs of operands of a junction written in either order gives the same expression.
use vstd::prelude::*;
use crate::model::SpecExpr;
use crate::lex::{Lexed, is_unquoted_char, unquoted_end, lex_quoted, lex_token, lemma_lex_token_end, lemma_unquoted_end};
use crate::expression::{parse_expression, parse_expr, parse_term, parse_tail, Parsed, combined, junction_of_char};
use crate::problems::ExpressionParseProblem;
use crate::parsed::lemma_combined_order;

verus! {

/// `s` stands in `t` from position `o` on, and what follows it in `t` cannot continue an
/// unquoted token.
pub open spec fn embedded(t: Seq<char>, o: int, s: Seq<char>) -> bool {
    &&& 0 <= o
    &&& o + s.len() <= t.len()
    &&& forall|k: int| 0 <= k < s.len() ==> #[trigger] t[o + k] == s[k]
    &&& o + s.len() == t.len() || !is_unquoted_char(t[o + s.len()])
}

proof fn lemma_unquoted_end_embedded(t: Seq<char>, o: int, s: Seq<char>, i: int)
    requires
        embedded(t, o, s),
        0 <= i <= s.len(),
    ensures
        unquoted_end(t, o + i) == o + unquoted_end(s, i),
    decreases s.len() - i,
{
    if i < s.len() {
        assert(t[o + i] == s[i]);
        if is_unquoted_char(s[i]) {
            lemma_unquoted_end_embedded(t, o, s, i + 1);
        }
    }
}

proof fn lemma_lex_quoted_embedded(t: Seq<char>, o: int, s: Seq<char>, i: int, text: Seq<char>)
    requires
        embedded(t, o, s),
        0 <= i,
    ensures
        lex_quoted(s, i, text) matches Lexed::Token(tok, j) ==> lex_quoted(t, o + i, text) == Lexed::Token(tok, o + j),
    decreases s.len() - i,
{
    if i < s.len() {
        assert(t[o + i] == s[i]);
        if s[i] == '\\' {
            if i + 1 < s.len() && (s[i + 1] == '"' || s[i + 1] == '\\') {
                assert(t[o + (i + 1)] == s[i + 1]);
                lemma_lex_quoted_embedded(t, o, s, i + 2, text.push(s[i + 1]));
            }
        } else if s[i] != '"' {
            lemma_lex_quoted_embedded(t, o, s, i + 1, text.push(s[i]));
        }
    }
}

proof fn lemma_lex_token_embedded(t: Seq<char>, o: int, s: Seq<char>, i: int)
    requires
        embedded(t, o, s),
        0 <= i <= s.len(),
    ensures
        lex_token(s, i) matches Lexed::Token(tok, j) ==> lex_token(t, o + i) == Lexed::Token(tok, o + j),
{
    if i < s.len() {
        assert(t[o + i] == s[i]);
        if is_unquoted_char(s[i]) {
            lemma_unquoted_end_embedded(t, o, s, i);
            lemma_unquoted_end(s, i);
            let e = unquoted_end(s, i);
            assert(t.subrange(o + i, o + e) =~= s.subrange(i, e)) by {
                assert forall|k: int| 0 <= k < e - i implies t.subrange(o + i, o + e)[k] == s.subrange(i, e)[k] by {
                    assert(t[o + (i + k)] == s[i + k]);
                }
            }
        } else if s[i] == '"' {
            lemma_lex_quoted_embedded(t, o, s, i + 1, Seq::empty());
        }
    }
}

/// Where a term is read, an expression read, and a junction's rest read in `s` end.
proof fn lemma_term_end(s: Seq<char>, i: int)
    ensures
        parse_term(s, i) matches Parsed::Done(_, j) ==> i < j <= s.len(),
    decreases s.len() - i, 1int,
{
    if 0 <= i < s.len() && s[i] == '(' {
        lemma_expr_end(s, i + 1);
    } else if 0 <= i <= s.len() {
        lemma_lex_token_end(s, i);
    }
}

proof fn lemma_expr_end(s: Seq<char>, i: int)
    ensures
        parse_expr(s, i) matches Parsed::Done(_, j) ==> i < j <= s.len(),
    decreases s.len() - i, 2int,
{
    if 0 <= i <= s.len() {
        lemma_term_end(s, i);
        if let Parsed::Done(h, j1) = parse_term(s, i) {
            if i < j1 < s.len() && (s[j1] == '&' || s[j1] == '|') {
                lemma_tail_end(s, j1, seq![h]);
            }
        }
    }
}

proof fn lemma_tail_end(s: Seq<char>, j: int, items: Seq<SpecExpr>)
    ensures
        parse_tail(s, j, items) matches Parsed::Done(_, k) ==> j < k <= s.len(),
    decreases s.len() - j, 0int,
{
    if 0 <= j < s.len() {
        lemma_term_end(s, j + 1);
        if let Parsed::Done(x, k) = parse_term(s, j + 1) {
            if j < k < s.len() && s[k] == s[j] {
                lemma_tail_end(s, k, items.push(x));
            }
        }
    }
}

/// A term read in `s` is read alike where `s` stands in `t`.
proof fn lemma_term_embedded(t: Seq<char>, o: int, s: Seq<char>, i: int)
    requires
        embedded(t, o, s),
        0 <= i <= s.len(),
    ensures
        parse_term(s, i) matches Parsed::Done(e, j) ==> parse_term(t, o + i) == Parsed::Done(e, o + j),
    decreases s.len() - i, 1int,
{
    if i < s.len() && s[i] == '(' {
        assert(t[o + i] == s[i]);
        lemma_expr_end(s, i + 1);
        if let Parsed::Done(e, j) = parse_expr(s, i + 1) {
            if 0 <= j < s.len() && s[j] == ')' {
                lemma_expr_embedded(t, o, s, i + 1);
                assert(t[o + j] == s[j]);
            }
        }
    } else {
        if i < s.len() {
            assert(t[o + i] == s[i]);
        }
        lemma_lex_token_embedded(t, o, s, i);
    }
}

/// An expression read in `s` is read alike where `s` stands in `t`, when it ends inside `s` or
/// no junction character follows `s` in `t`.
proof fn lemma_expr_embedded(t: Seq<char>, o: int, s: Seq<char>, i: int)
    requires
        embedded(t, o, s),
        0 <= i <= s.len(),
    ensures
        parse_expr(s, i) matches Parsed::Done(e, j) ==> (j < s.len() || o + s.len() == t.len() || (t[o
            + s.len()] != '&' && t[o + s.len()] != '|')) ==> parse_expr(t, o + i) == Parsed::Done(e, o + j),
    decreases s.len() - i, 2int,
{
    lemma_term_end(s, i);
    lemma_term_embedded(t, o, s, i);
    if let Parsed::Done(h, j1) = parse_term(s, i) {
        if j1 < s.len() {
            assert(t[o + j1] == s[j1]);
        }
        if i < j1 < s.len() && (s[j1] == '&' || s[j1] == '|') {
            lemma_tail_end(s, j1, seq![h]);
            lemma_tail_embedded(t, o, s, j1, seq![h]);
        }
    }
}

/// The rest of a junction read in `s` is read alike where `s` stands in `t`, when it ends inside
/// `s` or what follows `s` in `t` is not the junction's character.
proof fn lemma_tail_embedded(t: Seq<char>, o: int, s: Seq<char>, j: int, items: Seq<SpecExpr>)
    requires
        embedded(t, o, s),
        0 <= j < s.len(),
    ensures
        parse_tail(s, j, items) matches Parsed::Done(e, k) ==> (k < s.len() || o + s.len() == t.len() || t[o
            + s.len()] != s[j]) ==> parse_tail(t, o + j, items) == Parsed::Done(e, o + k),
    decreases s.len() - j, 0int,
{
    assert(t[o + j] == s[j]);
    lemma_term_end(s, j + 1);
    lemma_term_embedded(t, o, s, j + 1);
    if let Parsed::Done(x, k) = parse_term(s, j + 1) {
        if k < s.len() {
            assert(t[o + k] == s[k]);
        }
        if j < k < s.len() && s[k] == s[j] {
            lemma_tail_end(s, k, items.push(x));
            lemma_tail_embedded(t, o, s, k, items.push(x));
        }
    }
}

/// The terms that the rest of a junction whose character stands at `j` reads, one after another.
pub open spec fn tail_terms(s: Seq<char>, j: int) -> Seq<SpecExpr>
    decreases s.len() - j,
{
    if j < 0 || j >= s.len() {
        Seq::empty()
    } else {
        match parse_term(s, j + 1) {
            Parsed::Done(x, k) => if j < k < s.len() && s[k] == s[j] {
                seq![x] + tail_terms(s, k)
            } else {
                seq![x]
            },
            Parsed::Stuck(_, _) => Seq::empty(),
        }
    }
}

/// The rest of a junction gives the junction over the terms read so far and the terms it reads,
/// whichever terms were read so far.
proof fn lemma_tail_shape(s: Seq<char>, j: int, items: Seq<SpecExpr>, other: Seq<SpecExpr>)
    ensures
        parse_tail(s, j, items) matches Parsed::Done(e, k) ==> e == combined(junction_of_char(s[j]), items + tail_terms(s, j))
            && parse_tail(s, j, other) == Parsed::Done(combined(junction_of_char(s[j]), other + tail_terms(s, j)), k),
    decreases s.len() - j,
{
    if 0 <= j < s.len() {
        if let Parsed::Done(x, k) = parse_term(s, j + 1) {
            if j < k < s.len() && s[k] == s[j] {
                lemma_tail_shape(s, k, items.push(x), other.push(x));
                assert(items.push(x) + tail_terms(s, k) =~= items + tail_terms(s, j));
                assert(other.push(x) + tail_terms(s, k) =~= other + tail_terms(s, j));
            } else {
                assert(items.push(x) =~= items + tail_terms(s, j));
                assert(other.push(x) =~= other + tail_terms(s, j));
            }
        }
    }
}

/// The rest of a junction that ends where `s` ends goes on in `t` when the junction's character
/// follows `s` there.
proof fn lemma_tail_continues(t: Seq<char>, o: int, s: Seq<char>, j: int, items: Seq<SpecExpr>)
    requires
        embedded(t, o, s),
        0 <= j < s.len(),
        o + s.len() < t.len(),
        t[o + s.len()] == s[j],
        parse_tail(s, j, items) matches Parsed::Done(_, k) && k == s.len(),
    ensures
        parse_tail(t, o + j, items) == parse_tail(t, o + s.len(), items + tail_terms(s, j)),
    decreases s.len() - j,
{
    assert(t[o + j] == s[j]);
    lemma_term_end(s, j + 1);
    lemma_term_embedded(t, o, s, j + 1);
    if let Parsed::Done(x, k) = parse_term(s, j + 1) {
        if j < k < s.len() && s[k] == s[j] {
            assert(t[o + k] == s[k]);
            lemma_tail_continues(t, o, s, k, items.push(x));
            assert(items.push(x) + tail_terms(s, k) =~= items + tail_terms(s, j));
        } else {
            assert(items.push(x) =~= items + tail_terms(s, j));
        }
    }
}

/// The operands that `x` reads as, when it stands among the operands of a junction whose
/// character is `c`: one term, or the terms of a junction with that character.
pub open spec fn operands(x: Seq<char>, c: char) -> Option<Seq<SpecExpr>> {
    match parse_term(x, 0) {
        Parsed::Done(h, j) => if j == x.len() {
            Some(seq![h])
        } else if 0 < j < x.len() && x[j] == c && (match parse_tail(x, j, seq![h]) {
            Parsed::Done(_, k) => k == x.len(),
            Parsed::Stuck(_, _) => false,
        }) {
            Some(seq![h] + tail_terms(x, j))
        } else {
            None
        },
        Parsed::Stuck(_, _) => None,
    }
}

/// A text that reads as operands of a junction with character `c`, followed by `c` and more,
/// reads as those operands and then the rest of the junction.
proof fn lemma_joined_prefix(x: Seq<char>, y: Seq<char>, c: char, xs: Seq<SpecExpr>)
    requires
        c == '&' || c == '|',
        operands(x, c) == Some(xs),
    ensures
        parse_expr(x + seq![c] + y, 0) == parse_tail(x + seq![c] + y, x.len() as int, xs),
{
    let t = x + seq![c] + y;
    assert(t[x.len() as int] == c);
    assert(embedded(t, 0, x)) by {
        assert forall|k: int| 0 <= k < x.len() implies #[trigger] t[0 + k] == x[k] by {}
    }
    lemma_term_end(x, 0);
    lemma_term_embedded(t, 0, x, 0);
    let h = parse_term(x, 0)->Done_0;
    let j1 = parse_term(x, 0)->Done_1;
    if j1 < x.len() {
        assert(t[j1] == x[j1]);
        lemma_tail_continues(t, 0, x, j1, seq![h]);
    }
}

/// Two texts that read as operands of a junction with character `c`, joined by `c`, read as the
/// junction over all their operands.
proof fn lemma_joined(x: Seq<char>, y: Seq<char>, c: char, xs: Seq<SpecExpr>, ys: Seq<SpecExpr>)
    requires
        c == '&' || c == '|',
        operands(x, c) == Some(xs),
        operands(y, c) == Some(ys),
    ensures
        parse_expression(x + seq![c] + y) == Ok::<SpecExpr, ExpressionParseProblem>(combined(junction_of_char(c), xs + ys)),
{
    let t = x + seq![c] + y;
    let o: int = x.len() as int + 1;
    assert(t[x.len() as int] == c);
    assert(embedded(t, 0, x)) by {
        assert forall|k: int| 0 <= k < x.len() implies #[trigger] t[0 + k] == x[k] by {}
    }
    assert(embedded(t, o, y)) by {
        assert forall|k: int| 0 <= k < y.len() implies #[trigger] t[o + k] == y[k] by {}
    }
    lemma_joined_prefix(x, y, c, xs);
    lemma_term_end(y, 0);
    lemma_term_embedded(t, o, y, 0);
    let g = parse_term(y, 0)->Done_0;
    let m1 = parse_term(y, 0)->Done_1;
    if m1 == y.len() {
        assert(xs.push(g) =~= xs + ys);
    } else {
        assert(t[o + m1] == y[m1]);
        lemma_tail_shape(y, m1, seq![g], xs.push(g));
        lemma_tail_end(y, m1, xs.push(g));
        lemma_tail_embedded(t, o, y, m1, xs.push(g));
        assert(xs.push(g) + tail_terms(y, m1) =~= xs + ys);
    }
}

/// Two runs of operands of a junction, written in either order, read as the same expression.
pub proof fn lemma_operands_swapped(x: Seq<char>, y: Seq<char>, c: char)
    requires
        c == '&' || c == '|',
        operands(x, c) is Some,
        operands(y, c) is Some,
    ensures
        parse_expression(x + seq![c] + y) is Ok,
        parse_expression(y + seq![c] + x) == parse_expression(x + seq![c] + y),
{
    let xs = operands(x, c)->Some_0;
    let ys = operands(y, c)->Some_0;
    lemma_joined(x, y, c, xs, ys);
    lemma_joined(y, x, c, ys, xs);
    lemma_combined_order(junction_of_char(c), xs, ys);
}

/// Texts that read on their own, and joined by `c` read, read as operands of a junction with
/// character `c`.
proof fn lemma_operands_of_joined(x: Seq<char>, y: Seq<char>, c: char)
    requires
        c == '&' || c == '|',
        parse_expression(x) is Ok,
        parse_expression(y) is Ok,
        parse_expression(x + seq![c] + y) is Ok,
    ensures
        operands(x, c) is Some,
        operands(y, c) is Some,
{
    let t = x + seq![c] + y;
    let o: int = x.len() as int + 1;
    assert(t[x.len() as int] == c);
    assert(embedded(t, 0, x)) by {
        assert forall|k: int| 0 <= k < x.len() implies #[trigger] t[0 + k] == x[k] by {}
    }
    assert(embedded(t, o, y)) by {
        assert forall|k: int| 0 <= k < y.len() implies #[trigger] t[o + k] == y[k] by {}
    }
    if x.len() == 0 {
        assert(t[0] == c);
        assert(parse_term(t, 0) is Stuck);
        assert(false);
    }
    lemma_term_end(x, 0);
    lemma_term_embedded(t, 0, x, 0);
    let h = parse_term(x, 0)->Done_0;
    let j1 = parse_term(x, 0)->Done_1;
    if j1 < x.len() {
        lemma_tail_end(x, j1, seq![h]);
        if x[j1] != c {
            assert(t[j1] == x[j1]);
            lemma_tail_embedded(t, 0, x, j1, seq![h]);
            assert(parse_expr(t, 0) == parse_expr(x, 0));
            assert(false);
        }
    }
    let xs = operands(x, c)->Some_0;
    lemma_joined_prefix(x, y, c, xs);
    if y.len() == 0 {
        assert(parse_term(t, o) is Stuck);
        assert(false);
    }
    lemma_term_end(y, 0);
    lemma_term_embedded(t, o, y, 0);
    let g = parse_term(y, 0)->Done_0;
    let m1 = parse_term(y, 0)->Done_1;
    if m1 < y.len() {
        lemma_tail_end(y, m1, seq![g]);
        if y[m1] != c {
            assert(t[o + m1] == y[m1]);
            assert(false);
        }
    }
}

/// Two runs of operands of a junction with character `c`, each of which reads on its own,
/// read alike in either order: reordering the operands of a junction does not change what the
/// text reads as.
pub proof fn lemma_operands_reordered(x: Seq<char>, y: Seq<char>, c: char)
    requires
        c == '&' || c == '|',
        parse_expression(x) is Ok,
        parse_expression(y) is Ok,
        parse_expression(x + seq![c] + y) is Ok,
    ensures
        parse_expression(y + seq![c] + x) == parse_expression(x + seq![c] + y),
{
    lemma_operands_of_joined(x, y, c);
    lemma_operands_swapped(x, y, c);
}

} // verus!
