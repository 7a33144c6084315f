//! What reading an expression gives: a well-formed expression in normal shape, with the
//! children of every junction in canonical order, meaning what was written.
use vstd::prelude::*;
use crate::model::{SpecToken, SpecExpr, JunctionType, junction, is_junction, children, holds, all_hold, any_holds, equivalent, lemma_holds_junction};
use crate::types::{AccessExpression, AccessToken};
use crate::tokens::{parse_token_list, parse_tokens, ListParsed};
use crate::sort::{sort_seq, is_sorted, lemma_sort_contents, lemma_sort_arrangement};
use crate::shape::{in_order, all_in_order, lemma_all_in_order, normal, normal_child, normal_children, well_formed, lemma_normal_children, lemma_normal_well_formed, lemma_holds_append, lemma_exprs_same_contents};
use crate::roundtrip::{displayable, tokens_displayable, lemma_lex_displayable, lemma_ordered_roundtrip};
use crate::mentions::{tokens_in, tokens_in_all, lemma_tokens_in_child, lemma_tokens_in_some_child};
use crate::lex::{lex_token, Lexed};
use crate::display::show_expression;
use crate::problems::ExpressionParseProblem;
use crate::expression::{splice, combined, parse_expression, parse_expr, parse_term, parse_tail, Parsed, junction_of_char};

verus! {

/// Splicing keeps the meaning of a junction.
proof fn lemma_splice_holds(kind: JunctionType, items: Seq<SpecExpr>, held: Set<SpecToken>)
    ensures
        holds(junction(kind, splice(kind, items)), held) == holds(junction(kind, items), held),
    decreases items.len(),
{
    lemma_holds_junction(items, held);
    lemma_holds_junction(splice(kind, items), held);
    if items.len() > 0 {
        let init = items.subrange(0, items.len() - 1);
        let last = items[items.len() - 1];
        lemma_splice_holds(kind, init, held);
        lemma_holds_junction(init, held);
        lemma_holds_junction(splice(kind, init), held);
        lemma_holds_append(init, seq![last], held);
        assert(init + seq![last] =~= items);
        lemma_holds_junction(seq![last], held);
        assert(all_hold(seq![last], held) == holds(last, held)) by {
            if holds(last, held) {
                assert forall|i: int| 0 <= i < 1 implies #[trigger] holds(seq![last][i], held) by {}
            }
            assert(seq![last][0] == last);
        }
        assert(any_holds(seq![last], held) == holds(last, held)) by {
            if holds(last, held) {
                assert(holds(seq![last][0], held));
            }
        }
        if is_junction(kind, last) {
            lemma_holds_append(splice(kind, init), children(last), held);
            lemma_holds_junction(children(last), held);
        } else {
            lemma_holds_append(splice(kind, init), seq![last], held);
            assert(splice(kind, init).push(last) =~= splice(kind, init) + seq![last]);
        }
    }
}

/// Putting the children of a junction in canonical order, and taking the children of those of
/// the same kind in their place, does not change what the junction means.
pub proof fn lemma_combined_equivalent(kind: JunctionType, items: Seq<SpecExpr>)
    ensures
        equivalent(combined(kind, items), junction(kind, items)),
{
    let sp = splice(kind, items);
    let so = sort_seq::<AccessExpression>(sp);
    lemma_sort_contents::<AccessExpression>(sp);
    assert forall|held: Set<SpecToken>| #[trigger] holds(combined(kind, items), held) == holds(junction(kind, items), held) by {
        lemma_splice_holds(kind, items, held);
        lemma_holds_junction(sp, held);
        lemma_holds_junction(so, held);
        lemma_exprs_same_contents(so, sp, held);
    }
}


/// A part read so far: in normal shape, in order, not empty, with tokens that read back.
pub open spec fn sound_part(e: SpecExpr) -> bool {
    normal(e) && in_order(e) && !(e is Empty) && tokens_displayable(e)
}

/// Splicing parts read so far gives children fit for a junction of kind `kind`.
proof fn lemma_splice_parts(kind: JunctionType, items: Seq<SpecExpr>)
    requires
        forall|i: int| 0 <= i < items.len() ==> #[trigger] sound_part(items[i]),
    ensures
        splice(kind, items).len() >= items.len(),
        forall|i: int| 0 <= i < splice(kind, items).len() ==> #[trigger] normal_child(kind, splice(kind, items)[i]),
        forall|i: int| 0 <= i < splice(kind, items).len() ==> #[trigger] in_order(splice(kind, items)[i]),
        forall|i: int| 0 <= i < splice(kind, items).len() ==> #[trigger] tokens_displayable(splice(kind, items)[i]),
    decreases items.len(),
{
    if items.len() > 0 {
        let init = items.subrange(0, items.len() - 1);
        let last = items[items.len() - 1];
        assert forall|i: int| 0 <= i < init.len() implies #[trigger] sound_part(init[i]) by {
            assert(sound_part(items[i]));
        }
        lemma_splice_parts(kind, init);
        let si = splice(kind, init);
        assert(sound_part(last));
        if is_junction(kind, last) {
            let cs = children(last);
            lemma_normal_children(kind, cs);
            lemma_all_in_order(cs);
            let r = si + cs;
            assert(splice(kind, items) == r);
            assert(cs.len() >= 2);
            assert forall|i: int| 0 <= i < r.len() implies #[trigger] normal_child(kind, r[i]) by {
                if i < si.len() {
                    assert(r[i] == si[i]);
                } else {
                    assert(r[i] == cs[i - si.len()]);
                }
            }
            assert forall|i: int| 0 <= i < r.len() implies #[trigger] in_order(r[i]) by {
                if i < si.len() {
                    assert(r[i] == si[i]);
                } else {
                    assert(r[i] == cs[i - si.len()]);
                }
            }
            assert forall|i: int| 0 <= i < r.len() implies #[trigger] tokens_displayable(r[i]) by {
                if i < si.len() {
                    assert(r[i] == si[i]);
                } else {
                    let k = i - si.len();
                    assert(r[i] == cs[k]);
                    assert forall|t: SpecToken| #[trigger] tokens_in(cs[k]).contains(t) implies displayable(t) by {
                        lemma_tokens_in_child(cs, k, t);
                        assert(tokens_in(last).contains(t));
                    }
                }
            }
        } else {
            let r = si.push(last);
            assert(splice(kind, items) == r);
            assert(last is Token || is_junction(kind.flip(), last));
            assert(normal_child(kind, last));
            assert forall|i: int| 0 <= i < r.len() implies #[trigger] normal_child(kind, r[i]) by {
                if i < si.len() {
                    assert(r[i] == si[i]);
                }
            }
            assert forall|i: int| 0 <= i < r.len() implies #[trigger] in_order(r[i]) by {
                if i < si.len() {
                    assert(r[i] == si[i]);
                }
            }
            assert forall|i: int| 0 <= i < r.len() implies #[trigger] tokens_displayable(r[i]) by {
                if i < si.len() {
                    assert(r[i] == si[i]);
                }
            }
        }
    }
}

/// A junction combined from at least two parts read so far is a sound part.
proof fn lemma_combined_part(kind: JunctionType, items: Seq<SpecExpr>)
    requires
        items.len() >= 2,
        forall|i: int| 0 <= i < items.len() ==> #[trigger] sound_part(items[i]),
    ensures
        sound_part(combined(kind, items)),
{
    let sp = splice(kind, items);
    let so = sort_seq::<AccessExpression>(sp);
    lemma_splice_parts(kind, items);
    lemma_sort_contents::<AccessExpression>(sp);
    assert forall|i: int| 0 <= i < so.len() implies #[trigger] normal_child(kind, so[i]) by {
        assert(so.contains(so[i]));
        assert(sp.contains(so[i]));
        let k = choose|k: int| 0 <= k < sp.len() && sp[k] == so[i];
        assert(normal_child(kind, sp[k]));
    }
    assert forall|i: int| 0 <= i < so.len() implies #[trigger] in_order(so[i]) by {
        assert(so.contains(so[i]));
        assert(sp.contains(so[i]));
        let k = choose|k: int| 0 <= k < sp.len() && sp[k] == so[i];
        assert(in_order(sp[k]));
    }
    assert forall|t: SpecToken| #[trigger] tokens_in_all(so).contains(t) implies displayable(t) by {
        lemma_tokens_in_some_child(so, t);
        let i = choose|i: int| 0 <= i < so.len() && #[trigger] tokens_in(so[i]).contains(t);
        assert(so.contains(so[i]));
        assert(sp.contains(so[i]));
        let k = choose|k: int| 0 <= k < sp.len() && sp[k] == so[i];
        assert(tokens_displayable(sp[k]));
    }
    lemma_normal_children(kind, so);
    lemma_all_in_order(so);
    assert(so.len() >= 2);
    assert(normal_children(kind, so));
    assert(is_sorted::<AccessExpression>(so));
    assert(all_in_order(so));
    match kind {
        JunctionType::And => {
            assert(combined(kind, items) == SpecExpr::And(so));
            assert(tokens_in(SpecExpr::And(so)) == tokens_in_all(so));
            assert(tokens_displayable(combined(kind, items)));
        },
        JunctionType::Or => {
            assert(combined(kind, items) == SpecExpr::Or(so));
            assert(tokens_in(SpecExpr::Or(so)) == tokens_in_all(so));
            assert(tokens_displayable(combined(kind, items)));
        },
    }
}

proof fn lemma_term_part(s: Seq<char>, i: int)
    ensures
        parse_term(s, i) matches Parsed::Done(e, _) ==> sound_part(e),
    decreases s.len() - i, 1int,
{
    if 0 <= i < s.len() && s[i] == '(' {
        lemma_expr_part(s, i + 1);
    } else {
        lemma_lex_displayable(s, i);
        if let Lexed::Token(t, j) = lex_token(s, i) {
            assert forall|x: SpecToken| #[trigger] tokens_in(SpecExpr::Token(t)).contains(x) implies displayable(x) by {
                assert(tokens_in(SpecExpr::Token(t)) == seq![t]);
            }
        }
    }
}

proof fn lemma_expr_part(s: Seq<char>, i: int)
    ensures
        parse_expr(s, i) matches Parsed::Done(e, _) ==> sound_part(e),
    decreases s.len() - i, 2int,
{
    if 0 <= i <= s.len() {
        lemma_term_part(s, i);
        if let Parsed::Done(head, j) = parse_term(s, i) {
            if i < j < s.len() && (s[j] == '&' || s[j] == '|') {
                lemma_tail_part(s, j, seq![head]);
            }
        }
    }
}

proof fn lemma_tail_part(s: Seq<char>, j: int, items: Seq<SpecExpr>)
    requires
        items.len() >= 1,
        forall|i: int| 0 <= i < items.len() ==> #[trigger] sound_part(items[i]),
    ensures
        parse_tail(s, j, items) matches Parsed::Done(e, _) ==> sound_part(e),
    decreases s.len() - j, 0int,
{
    if 0 <= j < s.len() {
        lemma_term_part(s, j + 1);
        if let Parsed::Done(t, k) = parse_term(s, j + 1) {
            let more = items.push(t);
            assert forall|i: int| 0 <= i < more.len() implies #[trigger] sound_part(more[i]) by {
                if i < items.len() {
                    assert(more[i] == items[i]);
                }
            }
            if j < k < s.len() && s[k] == s[j] {
                lemma_tail_part(s, k, more);
            } else {
                lemma_combined_part(junction_of_char(s[j]), more);
            }
        }
    }
}

/// What reading an expression gives is in normal shape, with the children of every junction in
/// canonical order; so it is well formed.
pub proof fn lemma_parsed_normal(s: Seq<char>)
    ensures
        parse_expression(s) matches Ok(e) ==> normal(e) && in_order(e) && well_formed(e) && tokens_displayable(e),
{
    if s.len() > 0 {
        lemma_expr_part(s, 0);
    }
    if let Ok(e) = parse_expression(s) {
        lemma_normal_well_formed(e);
    }
}


/// Reading a list of tokens puts the tokens written into canonical order, which changes nothing
/// about which tokens are held.
pub proof fn lemma_tokens_read_in_order(s: Seq<char>)
    ensures
        parse_token_list(s) matches ListParsed::Done(ws) ==> parse_tokens(s) == Ok::<
            Seq<SpecToken>,
            (usize, usize, crate::problems::TokenParseProblem),
        >(sort_seq::<AccessToken>(ws)) && is_sorted::<AccessToken>(sort_seq::<AccessToken>(ws))
            && sort_seq::<AccessToken>(ws).to_set() == ws.to_set(),
{
    if let ListParsed::Done(ws) = parse_token_list(s) {
        lemma_sort_contents::<AccessToken>(ws);
        assert(sort_seq::<AccessToken>(ws).to_set() =~= ws.to_set());
    }
}

/// What reading an expression gives is written as text that reads back as that same
/// expression.
pub proof fn lemma_parsed_roundtrip(s: Seq<char>)
    ensures
        parse_expression(s) matches Ok(e) ==> parse_expression(show_expression(e)) == Ok::<
            SpecExpr,
            ExpressionParseProblem,
        >(e),
{
    lemma_parsed_normal(s);
    if let Ok(e) = parse_expression(s) {
        lemma_ordered_roundtrip(e);
    }
}

/// Only the empty text reads as the empty expression.
pub proof fn lemma_parsed_empty(s: Seq<char>)
    ensures
        parse_expression(s) == Ok::<SpecExpr, ExpressionParseProblem>(SpecExpr::Empty) <==> s.len() == 0,
{
    if s.len() > 0 {
        lemma_expr_part(s, 0);
    }
}

proof fn lemma_splice_append(kind: JunctionType, a: Seq<SpecExpr>, b: Seq<SpecExpr>)
    ensures
        splice(kind, a + b) == splice(kind, a) + splice(kind, b),
    decreases b.len(),
{
    if b.len() == 0 {
        assert(a + b =~= a);
        assert(splice(kind, a) + splice(kind, b) =~= splice(kind, a));
    } else {
        let b1 = b.subrange(0, b.len() - 1);
        let last = b[b.len() - 1];
        lemma_splice_append(kind, a, b1);
        assert((a + b).subrange(0, (a + b).len() - 1) =~= a + b1);
        assert((a + b)[(a + b).len() - 1] == last);
        if is_junction(kind, last) {
            assert(splice(kind, a) + splice(kind, b) =~= splice(kind, a) + splice(kind, b1) + children(last));
        } else {
            assert(splice(kind, a) + splice(kind, b) =~= (splice(kind, a) + splice(kind, b1)).push(last));
        }
    }
}

/// The order of the operands of a junction does not change what reading it gives: two runs of
/// operands joined in either order give the same expression.
pub proof fn lemma_combined_order(kind: JunctionType, a: Seq<SpecExpr>, b: Seq<SpecExpr>)
    ensures
        combined(kind, a + b) == combined(kind, b + a),
{
    lemma_splice_append(kind, a, b);
    lemma_splice_append(kind, b, a);
    let sa = splice(kind, a);
    let sb = splice(kind, b);
    vstd::seq_lib::lemma_multiset_commutative(sa, sb);
    vstd::seq_lib::lemma_multiset_commutative(sb, sa);
    assert(sa.to_multiset().add(sb.to_multiset()) =~= sb.to_multiset().add(sa.to_multiset()));
    lemma_sort_arrangement::<AccessExpression>(sa + sb, sb + sa);
}

} // verus!
