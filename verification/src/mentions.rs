//! The tokens that an expression mentions.
use vstd::prelude::*;
use crate::model::{SpecToken, SpecExpr, JunctionType, is_junction, children};
use crate::types::{AccessToken, AccessExpression, AccessTokens, views_of, lemma_expr_view_junction, lemma_child_decreases};
use crate::sort::{sort_dedup, sort_vec, dedup_vec, lemma_contains_append};
use crate::shape::{gather, gather_one};

verus! {

/// The tokens that an expression mentions, in ascending order, each once.
pub open spec fn relevant(e: SpecExpr) -> Seq<SpecToken> {
    sort_dedup::<AccessToken>(tokens_in(e))
}

/// The tokens that occur in `e`, from left to right.
pub open spec fn tokens_in(e: SpecExpr) -> Seq<SpecToken>
    decreases e,
{
    match e {
        SpecExpr::Empty => Seq::empty(),
        SpecExpr::Token(t) => seq![t],
        SpecExpr::And(cs) => tokens_in_all(cs),
        SpecExpr::Or(cs) => tokens_in_all(cs),
    }
}

/// The tokens that occur in the expressions `cs`, from left to right.
pub open spec fn tokens_in_all(cs: Seq<SpecExpr>) -> Seq<SpecToken>
    decreases cs,
{
    if cs.len() == 0 {
        Seq::empty()
    } else {
        tokens_in_all(cs.subrange(0, cs.len() - 1)) + tokens_in(cs[cs.len() - 1])
    }
}

/// Appends to `out` the tokens that occur in `e`, from left to right.
fn collect_tokens(e: &AccessExpression, out: &mut Vec<AccessToken>)
    ensures
        views_of(final(out)@) == views_of(old(out)@) + tokens_in(e@),
    decreases e,
{
    proof {
        lemma_expr_view_junction(*e);
    }
    let ghost start = views_of(out@);
    match e {
        AccessExpression::Empty => {
            assert(start + tokens_in(e@) =~= start);
        },
        AccessExpression::Token(t) => {
            out.push(t.clone());
            assert(views_of(out@) =~= start + tokens_in(e@));
        },
        AccessExpression::And(cs) => {
            let ghost vs = views_of(cs@);
            let mut i: usize = 0;
            assert(vs.subrange(0, 0) =~= Seq::<SpecExpr>::empty());
            assert(views_of(out@) =~= start + tokens_in_all(vs.subrange(0, 0)));
            while i < cs.len()
                invariant
                    *e == AccessExpression::And(*cs),
                    vs == views_of(cs@),
                    i <= cs.len(),
                    views_of(out@) == start + tokens_in_all(vs.subrange(0, i as int)),
                decreases cs.len() - i,
            {
                proof {
                    lemma_child_decreases(*e, i as int);
                }
                let ghost before = views_of(out@);
                collect_tokens(&cs[i], out);
                proof {
                    assert(vs.subrange(0, i + 1).subrange(0, i as int) =~= vs.subrange(0, i as int));
                    assert(vs.subrange(0, i + 1)[i as int] == vs[i as int]);
                    assert(views_of(out@) =~= start + tokens_in_all(vs.subrange(0, i + 1)));
                }
                i += 1;
            }
            assert(vs.subrange(0, vs.len() as int) =~= vs);
        },
        AccessExpression::Or(cs) => {
            let ghost vs = views_of(cs@);
            let mut i: usize = 0;
            assert(vs.subrange(0, 0) =~= Seq::<SpecExpr>::empty());
            assert(views_of(out@) =~= start + tokens_in_all(vs.subrange(0, 0)));
            while i < cs.len()
                invariant
                    *e == AccessExpression::Or(*cs),
                    vs == views_of(cs@),
                    i <= cs.len(),
                    views_of(out@) == start + tokens_in_all(vs.subrange(0, i as int)),
                decreases cs.len() - i,
            {
                proof {
                    lemma_child_decreases(*e, i as int);
                }
                let ghost before = views_of(out@);
                collect_tokens(&cs[i], out);
                proof {
                    assert(vs.subrange(0, i + 1).subrange(0, i as int) =~= vs.subrange(0, i as int));
                    assert(vs.subrange(0, i + 1)[i as int] == vs[i as int]);
                    assert(views_of(out@) =~= start + tokens_in_all(vs.subrange(0, i + 1)));
                }
                i += 1;
            }
            assert(vs.subrange(0, vs.len() as int) =~= vs);
        },
    }
}

impl AccessExpression {
    /// The tokens that this expression mentions, in ascending order, each once.
    pub fn relevant_tokens(&self) -> (r: AccessTokens)
        ensures
            r@ == relevant(self@),
    {
        let mut out: Vec<AccessToken> = Vec::new();
        collect_tokens(self, &mut out);
        assert(views_of(out@) =~= tokens_in(self@));
        AccessTokens { tokens: dedup_vec(sort_vec(out)) }
    }
}

/// The tokens of a child are among the tokens of a list of expressions.
pub proof fn lemma_tokens_in_child(cs: Seq<SpecExpr>, i: int, t: SpecToken)
    requires
        0 <= i < cs.len(),
        tokens_in(cs[i]).contains(t),
    ensures
        tokens_in_all(cs).contains(t),
    decreases cs.len(),
{
    let init = cs.subrange(0, cs.len() - 1);
    let last = tokens_in(cs[cs.len() - 1]);
    let k = choose|k: int| 0 <= k < tokens_in(cs[i]).len() && tokens_in(cs[i])[k] == t;
    if i < cs.len() - 1 {
        assert(init[i] == cs[i]);
        lemma_tokens_in_child(init, i, t);
        let m = choose|m: int| 0 <= m < tokens_in_all(init).len() && tokens_in_all(init)[m] == t;
        assert((tokens_in_all(init) + last)[m] == t);
    } else {
        assert((tokens_in_all(init) + last)[tokens_in_all(init).len() + k] == t);
    }
}

/// A token of a list of expressions is a token of one of them.
pub proof fn lemma_tokens_in_some_child(cs: Seq<SpecExpr>, t: SpecToken)
    requires
        tokens_in_all(cs).contains(t),
    ensures
        exists|k: int| 0 <= k < cs.len() && #[trigger] tokens_in(cs[k]).contains(t),
    decreases cs.len(),
{
    let init = cs.subrange(0, cs.len() - 1);
    let last = tokens_in(cs[cs.len() - 1]);
    let m = choose|m: int| 0 <= m < tokens_in_all(cs).len() && tokens_in_all(cs)[m] == t;
    if m < tokens_in_all(init).len() {
        assert(tokens_in_all(init)[m] == t);
        lemma_tokens_in_some_child(init, t);
        let k = choose|k: int| 0 <= k < init.len() && #[trigger] tokens_in(init[k]).contains(t);
        assert(init[k] == cs[k]);
    } else {
        assert(last[m - tokens_in_all(init).len()] == t);
        assert(tokens_in(cs[cs.len() - 1]).contains(t));
    }
}

/// The tokens of a list whose expressions are all among those of another list are among the
/// tokens of the other list.
pub proof fn lemma_tokens_in_sublist(a: Seq<SpecExpr>, b: Seq<SpecExpr>)
    requires
        forall|x: SpecExpr| #[trigger] a.contains(x) ==> b.contains(x),
    ensures
        forall|t: SpecToken| #[trigger] tokens_in_all(a).contains(t) ==> tokens_in_all(b).contains(t),
{
    assert forall|t: SpecToken| #[trigger] tokens_in_all(a).contains(t) implies tokens_in_all(b).contains(t) by {
        lemma_tokens_in_some_child(a, t);
        let k = choose|k: int| 0 <= k < a.len() && #[trigger] tokens_in(a[k]).contains(t);
        assert(a.contains(a[k]));
        assert(b.contains(a[k]));
        let j = choose|j: int| 0 <= j < b.len() && b[j] == a[k];
        lemma_tokens_in_child(b, j, t);
    }
}

/// The tokens of a list whose expressions each mention no token that the expression at the same
/// place of another list does not are among the tokens of the other list.
pub proof fn lemma_tokens_in_pointwise(a: Seq<SpecExpr>, b: Seq<SpecExpr>)
    requires
        a.len() == b.len(),
        forall|k: int, t: SpecToken| 0 <= k < a.len() && #[trigger] tokens_in(a[k]).contains(t) ==> tokens_in(b[k]).contains(t),
    ensures
        forall|t: SpecToken| #[trigger] tokens_in_all(a).contains(t) ==> tokens_in_all(b).contains(t),
{
    assert forall|t: SpecToken| #[trigger] tokens_in_all(a).contains(t) implies tokens_in_all(b).contains(t) by {
        lemma_tokens_in_some_child(a, t);
        let k = choose|k: int| 0 <= k < a.len() && #[trigger] tokens_in(a[k]).contains(t);
        lemma_tokens_in_child(b, k, t);
    }
}

/// What flattening collects mentions no token that the flattened children do not.
pub proof fn lemma_gather_tokens(kind: JunctionType, items: Seq<SpecExpr>)
    ensures
        forall|t: SpecToken| #[trigger] gather(kind, items).tokens.contains(t) ==> tokens_in_all(items).contains(t),
        forall|t: SpecToken| #[trigger] tokens_in_all(gather(kind, items).junctions).contains(t) ==> tokens_in_all(items).contains(t),
    decreases items,
{
    let g = gather(kind, items);
    if items.len() == 0 {
        assert(tokens_in_all(g.junctions) =~= Seq::<SpecToken>::empty());
    } else {
        let init = items.subrange(0, items.len() - 1);
        let last = items[items.len() - 1];
        lemma_gather_tokens(kind, init);
        lemma_gather_one_tokens(kind, last);
        let a = gather(kind, init);
        let b = gather_one(kind, last);
        assert forall|x: SpecExpr| #[trigger] init.contains(x) implies items.contains(x) by {
            let j = choose|j: int| 0 <= j < init.len() && init[j] == x;
            assert(items[j] == x);
        }
        lemma_tokens_in_sublist(init, items);
        lemma_tokens_in_append(a.junctions, b.junctions);
        assert forall|t: SpecToken| #[trigger] g.tokens.contains(t) implies tokens_in_all(items).contains(t) by {
            lemma_contains_append(a.tokens, b.tokens);
            if b.tokens.contains(t) {
                lemma_tokens_in_child(items, items.len() - 1, t);
            }
        }
        assert forall|t: SpecToken| #[trigger] tokens_in_all(g.junctions).contains(t) implies tokens_in_all(items).contains(t) by {
            lemma_contains_append(tokens_in_all(a.junctions), tokens_in_all(b.junctions));
            if tokens_in_all(b.junctions).contains(t) {
                lemma_tokens_in_child(items, items.len() - 1, t);
            }
        }
    }
}

/// What flattening one child collects mentions no token that the child does not.
pub proof fn lemma_gather_one_tokens(kind: JunctionType, x: SpecExpr)
    ensures
        forall|t: SpecToken| #[trigger] gather_one(kind, x).tokens.contains(t) ==> tokens_in(x).contains(t),
        forall|t: SpecToken| #[trigger] tokens_in_all(gather_one(kind, x).junctions).contains(t) ==> tokens_in(x).contains(t),
    decreases x,
{
    let g = gather_one(kind, x);
    if is_junction(kind, x) {
        lemma_gather_tokens(kind, children(x));
        assert(tokens_in(x) == tokens_in_all(children(x)));
        assert(g == gather(kind, children(x)));
    } else if x is And || x is Or {
        assert(g.junctions == seq![x]);
        assert(g.tokens =~= Seq::<SpecToken>::empty());
        assert(seq![x].subrange(0, 0) =~= Seq::<SpecExpr>::empty());
        assert(tokens_in_all(seq![x].subrange(0, 0)) =~= Seq::<SpecToken>::empty());
        assert(tokens_in_all(g.junctions) =~= tokens_in(x));
    } else {
        assert(g.junctions =~= Seq::<SpecExpr>::empty());
        assert(tokens_in_all(g.junctions) =~= Seq::<SpecToken>::empty());
        if x is Token {
            assert(g.tokens == seq![x->Token_0]);
            assert(tokens_in(x) == seq![x->Token_0]);
        } else {
            assert(g.tokens =~= Seq::<SpecToken>::empty());
        }
    }
}

/// The tokens of two lists one after the other.
pub proof fn lemma_tokens_in_append(a: Seq<SpecExpr>, b: Seq<SpecExpr>)
    ensures
        tokens_in_all(a + b) == tokens_in_all(a) + tokens_in_all(b),
    decreases b.len(),
{
    if b.len() == 0 {
        assert(a + b =~= a);
        assert(tokens_in_all(a) + tokens_in_all(b) =~= tokens_in_all(a));
    } else {
        let bl = b.subrange(0, b.len() - 1);
        lemma_tokens_in_append(a, bl);
        assert((a + b).subrange(0, (a + b).len() - 1) =~= a + bl);
        assert((a + b)[(a + b).len() - 1] == b[b.len() - 1]);
        assert(tokens_in_all(a) + tokens_in_all(b) =~= tokens_in_all(a) + tokens_in_all(bl) + tokens_in(b[b.len() - 1]));
    }
}

} // verus!
