//! Simplifying access expressions without changing what they mean.
use vstd::prelude::*;
use crate::model::{SpecToken, SpecExpr, JunctionType, junction, is_junction, children, holds, equivalent, all_hold, any_holds, entails, size, sizes, lemma_sizes_element, lemma_sizes_push, lemma_holds_junction};
use crate::types::{AccessToken, AccessExpression, views_of, lemma_expr_view_junction, clone_exprs, clone_tokens};
use crate::order::TotalOrder;
use crate::sort::{lemma_sort_sorted, lemma_sort_no_duplicates, contains_equal, is_strictly_sorted, sort_seq, sort_dedup, sort_vec, dedup_vec, reverse_vec, lemma_sort_dedup, lemma_sort_dedup_same, lemma_contains_append, lemma_sort_contents, lemma_dedup_contents, dedup_seq};
use crate::mentions::{tokens_in, tokens_in_all, lemma_tokens_in_child, lemma_tokens_in_some_child, lemma_tokens_in_sublist, lemma_tokens_in_pointwise, lemma_gather_tokens};
use crate::redundant::{redundant_marks, reduced, siblings_reduced, lemma_all_reduced, lemma_gather_reduced, lemma_sorted_reduced, lemma_token_implied_any, any_of_tokens, covered_by, justified, all_justified, identify_redundant_junctions, lemma_any_of_tokens};
use crate::implied::implied_by_one;
use crate::meaning::{reads_holds, parts_reads, lemma_reads_pointwise, lemma_reads_lists, lemma_parts_reads_hold, lemma_gather_something, lemma_junction_reads, lemma_parts_reads_same_tokens, lemma_reads_well_formed};
use crate::shape::{nothing_gathered, lean, lemma_all_lean, in_order, all_in_order, lemma_all_in_order, well_formed, lemma_all_well_formed, lemma_gather_facts, gather, gather_one, lemma_gather_holds, lemma_tokens_append, lemma_tokens_same_contents, normal, normal_child, lemma_normal_children, lemma_exprs_same_contents, lemma_sizes_sort, lemma_sizes_dedup, lemma_sizes_pointwise, lemma_exprs_pointwise, lemma_sizes_prefix, lemma_normal_well_formed, lemma_well_formed_satisfiable, parts_hold, all_tokens_held, some_token_held, all_junctions_of, all_normal};

verus! {

/// Collects the tokens and the junctions of the other kind among the children `root` of a
/// junction of kind `kind`, looking into children that are junctions of the same kind; also
/// tells whether the empty expression is among them. The tokens come sorted, each once.
fn flatten_and_collect(kind: JunctionType, root: Vec<AccessExpression>) -> (r: (Vec<AccessToken>, Vec<AccessExpression>, bool))
    ensures
        views_of(r.0@) == sort_dedup::<AccessToken>(gather(kind, views_of(root@)).tokens),
        views_of(r.1@) == gather(kind, views_of(root@)).junctions,
        r.2 == gather(kind, views_of(root@)).empty,
    decreases sizes(views_of(root@)),
{
    let ghost items = views_of(root@);
    let ghost n = root.len() as int;
    let mut rest = reverse_vec(root);
    let mut tokens: Vec<AccessToken> = Vec::new();
    let mut junctions: Vec<AccessExpression> = Vec::new();
    let mut found_empty = false;
    assert(items.subrange(0, 0) =~= Seq::<SpecExpr>::empty());
    assert(views_of(tokens@) =~= Seq::<SpecToken>::empty());
    assert(views_of(junctions@) =~= Seq::<SpecExpr>::empty());
    while rest.len() > 0
        invariant
            n == items.len(),
            rest.len() <= n,
            forall|j: int| 0 <= j < rest.len() ==> (#[trigger] rest@[j])@ == items[n - 1 - j],
            forall|t: SpecToken|
                #[trigger] views_of(tokens@).contains(t) <==> gather(kind, items.subrange(0, n - rest.len())).tokens.contains(t),
            views_of(junctions@) == gather(kind, items.subrange(0, n - rest.len())).junctions,
            found_empty == gather(kind, items.subrange(0, n - rest.len())).empty,
            sizes(items) < sizes(views_of(root@)) + 1,
        decreases rest.len(),
    {
        let ghost k = n - rest.len();
        let ghost before_tokens = views_of(tokens@);
        let ghost before_junctions = views_of(junctions@);
        let x = rest.pop().unwrap();
        assert(x@ == items[k]);
        proof {
            lemma_expr_view_junction(x);
            lemma_sizes_element(items, k);
            assert(items.subrange(0, k + 1).subrange(0, k) =~= items.subrange(0, k));
            assert(items.subrange(0, k + 1)[k] == items[k]);
        }
        let ghost part = gather_one(kind, x@);
        match x {
            AccessExpression::Empty => {
                found_empty = true;
                assert(views_of(junctions@) =~= before_junctions + part.junctions);
                proof {
                    lemma_contains_append(gather(kind, items.subrange(0, k)).tokens, part.tokens);
                }
            },
            AccessExpression::Token(t) => {
                tokens.push(t);
                assert(views_of(tokens@) =~= before_tokens + part.tokens);
                assert(views_of(junctions@) =~= before_junctions + part.junctions);
                proof {
                    lemma_contains_append(before_tokens, part.tokens);
                    lemma_contains_append(gather(kind, items.subrange(0, k)).tokens, part.tokens);
                }
            },
            AccessExpression::And(gc) => {
                if kind == JunctionType::And {
                    let (mut it, mut ij, ie) = flatten_and_collect(kind, gc);
                    let ghost vt = views_of(it@);
                    tokens.append(&mut it);
                    junctions.append(&mut ij);
                    found_empty = found_empty || ie;
                    assert(views_of(tokens@) =~= before_tokens + vt);
                    assert(views_of(junctions@) =~= before_junctions + part.junctions);
                    proof {
                        lemma_sort_dedup::<AccessToken>(part.tokens);
                        lemma_contains_append(before_tokens, vt);
                        lemma_contains_append(gather(kind, items.subrange(0, k)).tokens, part.tokens);
                    }
                } else {
                    junctions.push(AccessExpression::And(gc));
                    assert(views_of(junctions@) =~= before_junctions + part.junctions);
                    proof {
                        lemma_contains_append(gather(kind, items.subrange(0, k)).tokens, part.tokens);
                    }
                }
            },
            AccessExpression::Or(gc) => {
                if kind == JunctionType::Or {
                    let (mut it, mut ij, ie) = flatten_and_collect(kind, gc);
                    let ghost vt = views_of(it@);
                    tokens.append(&mut it);
                    junctions.append(&mut ij);
                    found_empty = found_empty || ie;
                    assert(views_of(tokens@) =~= before_tokens + vt);
                    assert(views_of(junctions@) =~= before_junctions + part.junctions);
                    proof {
                        lemma_sort_dedup::<AccessToken>(part.tokens);
                        lemma_contains_append(before_tokens, vt);
                        lemma_contains_append(gather(kind, items.subrange(0, k)).tokens, part.tokens);
                    }
                } else {
                    junctions.push(AccessExpression::Or(gc));
                    assert(views_of(junctions@) =~= before_junctions + part.junctions);
                    proof {
                        lemma_contains_append(gather(kind, items.subrange(0, k)).tokens, part.tokens);
                    }
                }
            },
        }
    }
    assert(items.subrange(0, n) =~= items);
    let sorted = sort_vec(tokens);
    let ghost all = views_of(tokens@);
    let unique = dedup_vec(sorted);
    proof {
        lemma_sort_dedup_same::<AccessToken>(all, gather(kind, items).tokens);
    }
    (unique, junctions, found_empty)
}

/// `e` with the children of a junction in ascending order.
pub open spec fn sort_junction(e: SpecExpr) -> SpecExpr {
    match e {
        SpecExpr::And(cs) => SpecExpr::And(sort_seq::<AccessExpression>(cs)),
        SpecExpr::Or(cs) => SpecExpr::Or(sort_seq::<AccessExpression>(cs)),
        _ => e,
    }
}

/// A prefix of a list weighs no more than the list.
pub proof fn lemma_sizes_prefix_le(s: Seq<SpecExpr>, i: int)
    requires
        0 <= i <= s.len(),
    ensures
        sizes(s.subrange(0, i)) <= sizes(s),
    decreases s.len() - i,
{
    if i < s.len() {
        lemma_sizes_prefix(s, i);
        lemma_sizes_prefix_le(s, i + 1);
    } else {
        assert(s.subrange(0, i) =~= s);
    }
}

/// The children of an expression of a list weigh less than the list.
pub proof fn lemma_children_lighter(cur: Seq<SpecExpr>, k: int)
    requires
        0 <= k < cur.len(),
    ensures
        sizes(children(cur[k])) < sizes(cur),
{
    lemma_sizes_element(cur, k);
    match cur[k] {
        SpecExpr::And(cs) => {},
        SpecExpr::Or(cs) => {},
        _ => {
            assert(children(cur[k]) =~= Seq::<SpecExpr>::empty());
        },
    }
}

/// The first `k` tokens of `tv` that are not among `av`, as token expressions, in order.
pub open spec fn kept_tokens(tv: Seq<SpecToken>, av: Seq<SpecToken>, k: int) -> Seq<SpecExpr>
    decreases k,
{
    if k <= 0 {
        Seq::empty()
    } else {
        let r = kept_tokens(tv, av, k - 1);
        if av.contains(tv[k - 1]) {
            r
        } else {
            r.push(SpecExpr::Token(tv[k - 1]))
        }
    }
}

/// The first `k` junctions of `jd` that are not marked in `dropped`, in order.
pub open spec fn kept_junctions(jd: Seq<SpecExpr>, dropped: Seq<bool>, k: int) -> Seq<SpecExpr>
    decreases k,
{
    if k <= 0 {
        Seq::empty()
    } else {
        let r = kept_junctions(jd, dropped, k - 1);
        if dropped[k - 1] {
            r
        } else {
            r.push(jd[k - 1])
        }
    }
}

/// The junction of kind `kind` that assembling the tokens `top` and the junctions `junctions`
/// gives, assuming the tokens `av`: the tokens not assumed, and the junctions, each with its
/// children in order, once each, that the scan of [`redundant_marks`] keeps; no child gives the
/// empty expression, one child stands for itself, and more children are put in order.
pub open spec fn assembled(kind: JunctionType, top: Seq<SpecToken>, junctions: Seq<SpecExpr>, av: Seq<SpecToken>) -> SpecExpr {
    let je = Seq::new(junctions.len(), |i: int| sort_junction(junctions[i]));
    let jd = dedup_seq(sort_seq::<AccessExpression>(je));
    let dropped = redundant_marks(kind, jd, any_of_tokens(top));
    let sv = kept_tokens(top, av, top.len() as int) + kept_junctions(jd, dropped, jd.len() as int);
    if sv.len() == 0 {
        SpecExpr::Empty
    } else if sv.len() == 1 {
        sv[0]
    } else {
        junction(kind, sort_seq::<AccessExpression>(sv))
    }
}

/// What simplifying the junction of kind `kind` over `cs` gives, assuming the tokens `av` are
/// held: its tokens and junctions are collected, the junctions are simplified round by round
/// (in a conjunction, with its tokens assumed), and the result is assembled.
pub open spec fn simplified_junction(kind: JunctionType, cs: Seq<SpecExpr>, av: Seq<SpecToken>) -> SpecExpr
    decreases sizes(cs), 3int, 0int,
{
    proof {
        lemma_gather_facts(kind, cs);
    }
    let g = gather(kind, cs);
    let top = sort_dedup::<AccessToken>(g.tokens);
    let ctx = if kind == JunctionType::And { av + top } else { av };
    let j0 = g.junctions;
    let (top1, squashed) = simplified_rounds(kind, top, ctx, ctx, j0, sizes(j0), sizes(j0));
    match squashed {
        None => SpecExpr::Empty,
        Some(js) => assembled(kind, top1, js, av),
    }
}

/// Each expression of `cur`, a junction of the kind other than `kind`, with its children
/// simplified as such a junction, assuming the tokens `ctx`.
pub open spec fn simplified_each(kind: JunctionType, cur: Seq<SpecExpr>, ctx: Seq<SpecToken>, bound: nat) -> Seq<SpecExpr>
    decreases bound, 1int, cur.len(),
{
    if cur.len() == 0 || sizes(cur) > bound {
        Seq::empty()
    } else {
        proof {
            lemma_children_lighter(cur, cur.len() - 1);
            lemma_sizes_prefix_le(cur, cur.len() - 1);
        }
        simplified_each(kind, cur.subrange(0, cur.len() - 1), ctx, bound).push(
            simplified_junction(kind.flip(), children(cur[cur.len() - 1]), ctx),
        )
    }
}

/// The rounds of simplifying the junctions `cur` of a junction of kind `kind` whose tokens are
/// `top`, with the tokens `ctx` assumed and `av` assumed at the start: each round simplifies
/// every junction and collects what comes out; the new tokens join `top` (and, in a conjunction,
/// `ctx`). A disjunction found to hold gives nothing; the rounds end when a round brings no new
/// token or leaves no junction.
pub open spec fn simplified_rounds(
    kind: JunctionType,
    top: Seq<SpecToken>,
    ctx: Seq<SpecToken>,
    av: Seq<SpecToken>,
    cur: Seq<SpecExpr>,
    bound: nat,
    fuel: nat,
) -> (Seq<SpecToken>, Option<Seq<SpecExpr>>)
    decreases bound, 2int, fuel,
{
    let sv = simplified_each(kind, cur, ctx, bound);
    let g = gather(kind, sv);
    if kind == JunctionType::Or && g.empty {
        (top, None)
    } else {
        let nt = sort_dedup::<AccessToken>(g.tokens);
        let top2 = sort_dedup::<AccessToken>(top + nt);
        let ctx2 = if kind == JunctionType::And { ctx + nt } else { ctx };
        if kind == JunctionType::Or && exists|t: SpecToken| top2.contains(t) && av.contains(t) {
            (top2, None)
        } else if nt.len() == 0 || g.junctions.len() == 0 || fuel == 0 {
            (top2, Some(g.junctions))
        } else {
            simplified_rounds(kind, top2, ctx2, av, g.junctions, bound, (fuel - 1) as nat)
        }
    }
}

/// What simplifying an expression gives.
pub open spec fn simplification(e: SpecExpr) -> SpecExpr {
    match e {
        SpecExpr::And(cs) => simplified_junction(JunctionType::And, cs, Seq::empty()),
        SpecExpr::Or(cs) => simplified_junction(JunctionType::Or, cs, Seq::empty()),
        _ => e,
    }
}

/// A sorted rearrangement of expressions in order is a sorted list of expressions in order.
proof fn lemma_in_order_sorted(cs: Seq<SpecExpr>, ss: Seq<SpecExpr>)
    requires
        forall|e: SpecExpr| #[trigger] ss.contains(e) ==> cs.contains(e),
    ensures
        all_in_order(cs) ==> all_in_order(ss),
{
    lemma_all_in_order(cs);
    lemma_all_in_order(ss);
    if all_in_order(cs) {
        assert forall|i: int| 0 <= i < ss.len() implies #[trigger] in_order(ss[i]) by {
            assert(ss.contains(ss[i]));
            let k = choose|k: int| 0 <= k < cs.len() && cs[k] == ss[i];
            assert(in_order(cs[k]));
        }
    }
}

/// Sorting the children of a lean junction keeps it lean.
proof fn lemma_lean_sorted(kind: JunctionType, cs: Seq<SpecExpr>, ss: Seq<SpecExpr>)
    requires
        ss == sort_seq::<AccessExpression>(cs),
    ensures
        lean(junction(kind, cs)) ==> lean(junction(kind, ss)),
{
    lemma_sort_contents::<AccessExpression>(cs);
    if cs.no_duplicates() {
        lemma_sort_no_duplicates::<AccessExpression>(cs);
    }
    lemma_all_lean(cs);
    lemma_all_lean(ss);
    if lean(junction(kind, cs)) {
        assert forall|i: int| 0 <= i < ss.len() implies #[trigger] lean(ss[i]) by {
            assert(ss.contains(ss[i]));
            let k = choose|k: int| 0 <= k < cs.len() && cs[k] == ss[i];
            assert(lean(cs[k]));
        }
        if kind == JunctionType::And {
            assert forall|i: int, j: int|
                0 <= i < ss.len() && 0 <= j < ss.len() && (#[trigger] ss[i]) is Token && !((#[trigger] ss[j]) is Token)
                implies !tokens_in(ss[j]).contains(ss[i]->Token_0) by {
                assert(ss.contains(ss[i]));
                assert(ss.contains(ss[j]));
                let a = choose|a: int| 0 <= a < cs.len() && cs[a] == ss[i];
                let b = choose|b: int| 0 <= b < cs.len() && cs[b] == ss[j];
                assert(cs[a] is Token && !(cs[b] is Token));
            }
        }
    }
}

/// Putting a junction's children in order keeps its meaning, its weight, its kind and its shape.
proof fn lemma_sort_junction(e: SpecExpr)
    ensures
        forall|held: Set<SpecToken>| #[trigger] holds(sort_junction(e), held) == holds(e, held),
        size(sort_junction(e)) == size(e),
        is_junction(JunctionType::And, sort_junction(e)) == is_junction(JunctionType::And, e),
        is_junction(JunctionType::Or, sort_junction(e)) == is_junction(JunctionType::Or, e),
        normal(e) ==> normal(sort_junction(e)),
        in_order(e) ==> in_order(sort_junction(e)),
        lean(e) ==> lean(sort_junction(e)),
        forall|t: SpecToken| #[trigger] tokens_in(sort_junction(e)).contains(t) ==> tokens_in(e).contains(t),
{
    match e {
        SpecExpr::And(cs) => {
            let ss = sort_seq::<AccessExpression>(cs);
            lemma_sort_contents::<AccessExpression>(cs);
            lemma_sizes_sort(cs);
            lemma_in_order_sorted(cs, ss);
            lemma_tokens_in_sublist(ss, cs);
            assert(tokens_in(sort_junction(e)) == tokens_in_all(ss));
            assert(tokens_in(e) == tokens_in_all(cs));
            lemma_lean_sorted(JunctionType::And, cs, ss);
            assert(e == junction(JunctionType::And, cs));
            assert(sort_junction(e) == junction(JunctionType::And, ss));
            assert forall|held: Set<SpecToken>| #[trigger] holds(sort_junction(e), held) == holds(e, held) by {
                lemma_holds_junction(cs, held);
                lemma_holds_junction(ss, held);
                lemma_exprs_same_contents(ss, cs, held);
            }
            if normal(e) {
                lemma_normal_children(JunctionType::And, cs);
                lemma_normal_children(JunctionType::And, ss);
                assert forall|i: int| 0 <= i < ss.len() implies #[trigger] normal_child(JunctionType::And, ss[i]) by {
                    assert(ss.contains(ss[i]));
                    assert(cs.contains(ss[i]));
                    let j = choose|j: int| 0 <= j < cs.len() && cs[j] == ss[i];
                    assert(normal_child(JunctionType::And, cs[j]));
                }
            }
        },
        SpecExpr::Or(cs) => {
            let ss = sort_seq::<AccessExpression>(cs);
            lemma_sort_contents::<AccessExpression>(cs);
            lemma_sizes_sort(cs);
            lemma_in_order_sorted(cs, ss);
            lemma_tokens_in_sublist(ss, cs);
            assert(tokens_in(sort_junction(e)) == tokens_in_all(ss));
            assert(tokens_in(e) == tokens_in_all(cs));
            lemma_lean_sorted(JunctionType::Or, cs, ss);
            assert(e == junction(JunctionType::Or, cs));
            assert(sort_junction(e) == junction(JunctionType::Or, ss));
            assert forall|held: Set<SpecToken>| #[trigger] holds(sort_junction(e), held) == holds(e, held) by {
                lemma_holds_junction(cs, held);
                lemma_holds_junction(ss, held);
                lemma_exprs_same_contents(ss, cs, held);
            }
            if normal(e) {
                lemma_normal_children(JunctionType::Or, cs);
                lemma_normal_children(JunctionType::Or, ss);
                assert forall|i: int| 0 <= i < ss.len() implies #[trigger] normal_child(JunctionType::Or, ss[i]) by {
                    assert(ss.contains(ss[i]));
                    assert(cs.contains(ss[i]));
                    let j = choose|j: int| 0 <= j < cs.len() && cs[j] == ss[i];
                    assert(normal_child(JunctionType::Or, cs[j]));
                }
            }
        },
        _ => {},
    }
}

/// Puts the children of each junction of `js` in ascending order.
fn sort_each_junction(js: Vec<AccessExpression>) -> (r: Vec<AccessExpression>)
    ensures
        r.len() == js.len(),
        forall|i: int| 0 <= i < r.len() ==> (#[trigger] r@[i])@ == sort_junction(js@[i]@),
{
    let ghost orig = js@;
    let n = js.len();
    let mut rest = reverse_vec(js);
    let mut out: Vec<AccessExpression> = Vec::new();
    while rest.len() > 0
        invariant
            n == orig.len(),
            rest.len() + out.len() == n,
            forall|j: int| 0 <= j < rest.len() ==> #[trigger] rest@[j] == orig[n - 1 - j],
            forall|j: int| 0 <= j < out.len() ==> (#[trigger] out@[j])@ == sort_junction(orig[j]@),
        decreases rest.len(),
    {
        let k = out.len();
        let x = rest.pop().unwrap();
        assert(x == orig[k as int]);
        proof {
            lemma_expr_view_junction(x);
        }
        let y = match x {
            AccessExpression::And(cs) => AccessExpression::And(sort_vec(cs)),
            AccessExpression::Or(cs) => AccessExpression::Or(sort_vec(cs)),
            other => other,
        };
        proof {
            lemma_expr_view_junction(y);
        }
        out.push(y);
    }
    out
}


/// What the assembled children of a junction say: each is a token of `tv` that is not assumed,
/// or a junction of `jd` that stays; and each of those is among them.
pub open spec fn assembled_from(
    sv: Seq<SpecExpr>,
    tv: Seq<SpecToken>,
    av: Seq<SpecToken>,
    jd: Seq<SpecExpr>,
    dropped: Seq<bool>,
) -> bool {
    &&& forall|k: int| 0 <= k < sv.len() && (#[trigger] sv[k]) is Token ==>
        tv.contains(sv[k]->Token_0) && !av.contains(sv[k]->Token_0)
    &&& forall|k: int| 0 <= k < sv.len() && !((#[trigger] sv[k]) is Token) ==>
        exists|m: int| 0 <= m < jd.len() && !dropped[m] && #[trigger] jd[m] == sv[k]
    &&& forall|m: int| 0 <= m < tv.len() && !av.contains(#[trigger] tv[m]) ==> sv.contains(SpecExpr::Token(tv[m]))
    &&& forall|m: int| 0 <= m < jd.len() && !dropped[m] ==> sv.contains(#[trigger] jd[m])
}

/// The assembled junction means what the tokens and the junctions it was assembled from mean.
proof fn lemma_assembled_holds(
    kind: JunctionType,
    tv: Seq<SpecToken>,
    av: Seq<SpecToken>,
    jd: Seq<SpecExpr>,
    dropped: Seq<bool>,
    sv: Seq<SpecExpr>,
    held: Set<SpecToken>,
)
    requires
        dropped.len() == jd.len(),
        all_justified(kind, jd, dropped, any_of_tokens(tv)),
        av.to_set().subset_of(held),
        kind == JunctionType::Or ==> forall|t: SpecToken| tv.contains(t) ==> !av.contains(t),
        assembled_from(sv, tv, av, jd, dropped),
    ensures
        holds(junction(kind, sv), held) == parts_hold(kind, tv, jd, false, held),
{
    lemma_holds_junction(sv, held);
    lemma_any_of_tokens(tv, held);
    if kind == JunctionType::And {
        if all_hold(sv, held) {
            assert forall|i: int| 0 <= i < tv.len() implies held.contains(#[trigger] tv[i]) by {
                if av.contains(tv[i]) {
                    assert(av.to_set().contains(tv[i]));
                } else {
                    assert(sv.contains(SpecExpr::Token(tv[i])));
                    let k = choose|k: int| 0 <= k < sv.len() && sv[k] == SpecExpr::Token(tv[i]);
                    assert(holds(sv[k], held));
                }
            }
            assert forall|m: int| 0 <= m < jd.len() implies #[trigger] holds(jd[m], held) by {
                if !dropped[m] {
                    assert(sv.contains(jd[m]));
                    let k = choose|k: int| 0 <= k < sv.len() && sv[k] == jd[m];
                    assert(holds(sv[k], held));
                } else {
                    assert(justified(kind, jd, dropped, any_of_tokens(tv), m));
                    let y = choose|y: int| 0 <= y < jd.len() && !dropped[y] && #[trigger] covered_by(kind, jd, m, y);
                    assert(sv.contains(jd[y]));
                    let k = choose|k: int| 0 <= k < sv.len() && sv[k] == jd[y];
                    assert(holds(sv[k], held));
                    assert(holds(jd[y], held));
                }
            }
        }
        if all_tokens_held(tv, held) && all_hold(jd, held) {
            assert forall|k: int| 0 <= k < sv.len() implies #[trigger] holds(sv[k], held) by {
                if sv[k] is Token {
                    assert(tv.contains(sv[k]->Token_0));
                    let i = choose|i: int| 0 <= i < tv.len() && tv[i] == sv[k]->Token_0;
                    assert(held.contains(tv[i]));
                } else {
                    let m = choose|m: int| 0 <= m < jd.len() && !dropped[m] && #[trigger] jd[m] == sv[k];
                    assert(holds(jd[m], held));
                }
            }
        }
    } else {
        if any_holds(sv, held) {
            let k = choose|k: int| 0 <= k < sv.len() && #[trigger] holds(sv[k], held);
            if sv[k] is Token {
                assert(tv.contains(sv[k]->Token_0));
                let i = choose|i: int| 0 <= i < tv.len() && tv[i] == sv[k]->Token_0;
                assert(held.contains(tv[i]));
            } else {
                let m = choose|m: int| 0 <= m < jd.len() && !dropped[m] && #[trigger] jd[m] == sv[k];
                assert(holds(jd[m], held));
            }
        }
        if some_token_held(tv, held) {
            let i = choose|i: int| 0 <= i < tv.len() && held.contains(#[trigger] tv[i]);
            assert(tv.contains(tv[i]));
            assert(!av.contains(tv[i]));
            assert(sv.contains(SpecExpr::Token(tv[i])));
            let k = choose|k: int| 0 <= k < sv.len() && sv[k] == SpecExpr::Token(tv[i]);
            assert(holds(sv[k], held));
        }
        if any_holds(jd, held) {
            let m = choose|m: int| 0 <= m < jd.len() && #[trigger] holds(jd[m], held);
            if !dropped[m] {
                assert(sv.contains(jd[m]));
                let k = choose|k: int| 0 <= k < sv.len() && sv[k] == jd[m];
                assert(holds(sv[k], held));
            } else {
                assert(justified(kind, jd, dropped, any_of_tokens(tv), m));
                if entails(jd[m], any_of_tokens(tv)) {
                    assert(holds(any_of_tokens(tv), held));
                    let i = choose|i: int| 0 <= i < tv.len() && held.contains(#[trigger] tv[i]);
                    assert(tv.contains(tv[i]));
                    assert(sv.contains(SpecExpr::Token(tv[i])));
                    let k = choose|k: int| 0 <= k < sv.len() && sv[k] == SpecExpr::Token(tv[i]);
                    assert(holds(sv[k], held));
                } else {
                    let y = choose|y: int| 0 <= y < jd.len() && !dropped[y] && #[trigger] covered_by(kind, jd, m, y);
                    assert(holds(jd[y], held));
                    assert(sv.contains(jd[y]));
                    let k = choose|k: int| 0 <= k < sv.len() && sv[k] == jd[y];
                    assert(holds(sv[k], held));
                }
            }
        }
    }
}


/// What a list of junctions with their children put in order, then sorted and without
/// adjacent duplicates, keeps of the list.
proof fn lemma_tidy_junctions(kind: JunctionType, j0: Seq<SpecExpr>, je: Seq<SpecExpr>, jd: Seq<SpecExpr>)
    requires
        all_junctions_of(kind.flip(), j0),
        all_normal(j0),
        je.len() == j0.len(),
        forall|i: int| 0 <= i < je.len() ==> #[trigger] je[i] == sort_junction(j0[i]),
        jd == dedup_seq(sort_seq::<AccessExpression>(je)),
        forall|i: int| 0 <= i < j0.len() ==> #[trigger] in_order(j0[i]),
        forall|i: int| 0 <= i < j0.len() ==> #[trigger] lean(j0[i]),
    ensures
        jd.no_duplicates(),
        forall|i: int| 0 <= i < jd.len() ==> #[trigger] in_order(jd[i]),
        forall|i: int| 0 <= i < jd.len() ==> #[trigger] lean(jd[i]),
        forall|t: SpecToken| #[trigger] tokens_in_all(jd).contains(t) ==> tokens_in_all(j0).contains(t),
        all_junctions_of(kind.flip(), jd),
        all_normal(jd),
        sizes(jd) <= sizes(j0),
        forall|held: Set<SpecToken>|
            #![trigger all_hold(jd, held)]
            #![trigger any_holds(jd, held)]
            all_hold(jd, held) == all_hold(j0, held) && any_holds(jd, held) == any_holds(j0, held),
{
    let ss = sort_seq::<AccessExpression>(je);
    lemma_sort_contents::<AccessExpression>(je);
    lemma_dedup_contents::<AccessExpression>(ss);
    lemma_sizes_sort(je);
    lemma_sizes_dedup(ss);
    assert forall|i: int, j: int| 0 <= i < jd.len() && 0 <= j < jd.len() && i != j implies jd[i] != jd[j] by {
        AccessExpression::lemma_order_total(jd[i], jd[j]);
        AccessExpression::lemma_order_total(jd[j], jd[i]);
    }
    assert forall|i: int| #![trigger je[i]] 0 <= i < je.len() implies size(je[i]) <= size(j0[i])
        && is_junction(kind.flip(), je[i]) && normal(je[i]) && in_order(je[i]) && lean(je[i]) by {
        lemma_sort_junction(j0[i]);
        assert(is_junction(kind.flip(), j0[i]));
        assert(normal(j0[i]));
        assert(in_order(j0[i]));
        assert(lean(j0[i]));
    }
    lemma_sizes_pointwise(je, j0);
    assert forall|k: int, t: SpecToken| 0 <= k < je.len() && #[trigger] tokens_in(je[k]).contains(t) implies tokens_in(j0[k]).contains(t) by {
        lemma_sort_junction(j0[k]);
    }
    lemma_tokens_in_pointwise(je, j0);
    assert forall|x: SpecExpr| #[trigger] jd.contains(x) implies je.contains(x) by {
        assert(ss.contains(x));
    }
    lemma_tokens_in_sublist(jd, je);
    assert forall|i: int| #![trigger jd[i]] 0 <= i < jd.len() implies is_junction(kind.flip(), jd[i]) && normal(jd[i]) && in_order(jd[i]) && lean(jd[i]) by {
        assert(jd.contains(jd[i]));
        assert(je.contains(jd[i]));
        let k = choose|k: int| 0 <= k < je.len() && je[k] == jd[i];
        assert(is_junction(kind.flip(), je[k]));
    }
    assert forall|held: Set<SpecToken>|
        #![trigger all_hold(jd, held)]
        #![trigger any_holds(jd, held)]
        all_hold(jd, held) == all_hold(j0, held) && any_holds(jd, held) == any_holds(j0, held) by {
        assert forall|i: int| 0 <= i < je.len() implies #[trigger] holds(je[i], held) == holds(j0[i], held) by {
            lemma_sort_junction(j0[i]);
        }
        lemma_exprs_pointwise(je, j0, held);
        assert forall|e: SpecExpr| #[trigger] jd.contains(e) <==> je.contains(e) by {
            if jd.contains(e) {
                assert(ss.contains(e));
            }
            if je.contains(e) {
                assert(ss.contains(e));
            }
        }
        lemma_exprs_same_contents(jd, je, held);
    }
}


/// A junction whose children are in order is left as it is by putting them in order.
proof fn lemma_sort_junction_in_order(e: SpecExpr)
    requires
        in_order(e),
    ensures
        sort_junction(e) == e,
{
    match e {
        SpecExpr::And(cs) => lemma_sort_sorted::<AccessExpression>(cs),
        SpecExpr::Or(cs) => lemma_sort_sorted::<AccessExpression>(cs),
        _ => {},
    }
}

/// The assembled children keep no junction that adds nothing: those kept are pairwise not
/// implied by one another and, in a disjunction, imply none of the tokens.
proof fn lemma_assembled_reduced(
    kind: JunctionType,
    tv: Seq<SpecToken>,
    av: Seq<SpecToken>,
    jd: Seq<SpecExpr>,
    dropped: Seq<bool>,
    sv: Seq<SpecExpr>,
)
    requires
        dropped.len() == jd.len(),
        assembled_from(sv, tv, av, jd, dropped),
        sv.no_duplicates(),
        forall|m: int| 0 <= m < jd.len() ==> #[trigger] reduced(jd[m]),
        forall|x: int, y: int|
            #![trigger dropped[x], dropped[y]]
            0 <= x < dropped.len() && 0 <= y < dropped.len() && x != y && !dropped[x] && !dropped[y]
                ==> !implied_by_one(jd[x], jd[y]),
        kind == JunctionType::Or ==> forall|x: int| 0 <= x < dropped.len() && !(#[trigger] dropped[x])
            ==> !implied_by_one(any_of_tokens(tv), jd[x]),
    ensures
        siblings_reduced(kind, sv),
        forall|k: int| 0 <= k < sv.len() ==> #[trigger] reduced(sv[k]),
{
    assert forall|k: int| 0 <= k < sv.len() implies #[trigger] reduced(sv[k]) by {
        if !(sv[k] is Token) {
            let m = choose|m: int| 0 <= m < jd.len() && !dropped[m] && #[trigger] jd[m] == sv[k];
            assert(reduced(jd[m]));
        }
    }
    assert forall|i: int, j: int|
        0 <= i < sv.len() && 0 <= j < sv.len() && i != j && !(sv[i] is Token) && !(sv[j] is Token)
        implies !implied_by_one(sv[i], sv[j]) by {
        let a = choose|m: int| 0 <= m < jd.len() && !dropped[m] && #[trigger] jd[m] == sv[i];
        let b = choose|m: int| 0 <= m < jd.len() && !dropped[m] && #[trigger] jd[m] == sv[j];
        assert(sv[i] != sv[j]);
        assert(!dropped[a] && !dropped[b]);
    }
    if kind == JunctionType::Or {
        assert forall|i: int, j: int|
            0 <= i < sv.len() && 0 <= j < sv.len() && sv[i] is Token && !(sv[j] is Token)
            implies !implied_by_one(sv[i], sv[j]) by {
            let t = sv[i]->Token_0;
            assert(tv.contains(t));
            let p = choose|p: int| 0 <= p < tv.len() && tv[p] == t;
            let b = choose|m: int| 0 <= m < jd.len() && !dropped[m] && #[trigger] jd[m] == sv[j];
            assert(!dropped[b]);
            if implied_by_one(sv[i], sv[j]) {
                assert(SpecExpr::Token(tv[p]) == sv[i]);
                lemma_token_implied_any(tv, p, sv[j]);
            }
        }
    }
}

/// Builds the junction of kind `kind` over the tokens `top` that are not among `assumed` and
/// over the junctions `junctions` (each with its children in order) that add something, in
/// ascending order; a single child stands for itself, and no child gives the empty expression.
fn assemble(
    kind: JunctionType,
    top: Vec<AccessToken>,
    junctions: Vec<AccessExpression>,
    assumed: &Vec<AccessToken>,
) -> (r: AccessExpression)
    requires
        all_junctions_of(kind.flip(), views_of(junctions@)),
        all_normal(views_of(junctions@)),
        forall|i: int| 0 <= i < junctions.len() ==> #[trigger] in_order(views_of(junctions@)[i]),
        forall|i: int| 0 <= i < junctions.len() ==> #[trigger] lean(views_of(junctions@)[i]),
        forall|i: int| 0 <= i < junctions.len() ==> #[trigger] reduced(views_of(junctions@)[i]),
        views_of(top@).no_duplicates(),
        kind == JunctionType::Or ==> forall|t: SpecToken|
            views_of(top@).contains(t) ==> !views_of(assumed@).contains(t),
        forall|t: SpecToken| #[trigger] tokens_in_all(views_of(junctions@)).contains(t) ==> !views_of(assumed@).contains(t),
        kind == JunctionType::And ==> forall|t: SpecToken|
            #[trigger] tokens_in_all(views_of(junctions@)).contains(t) ==> !views_of(top@).contains(t),
    ensures
        normal(r@),
        in_order(r@),
        lean(r@),
        forall|t: SpecToken| #[trigger] tokens_in(r@).contains(t) ==> !views_of(assumed@).contains(t),
        forall|t: SpecToken| #[trigger] tokens_in(r@).contains(t) ==> views_of(top@).contains(t) || tokens_in_all(
            views_of(junctions@),
        ).contains(t),
        size(r@) <= 1 + top.len() + sizes(views_of(junctions@)),
        kind == JunctionType::And || top.len() + junctions.len() > 0 ==> forall|held: Set<SpecToken>|
            views_of(assumed@).to_set().subset_of(held) ==>
            #[trigger] holds(r@, held) == parts_hold(kind, views_of(top@), views_of(junctions@), false, held),
        top.len() + junctions.len() == 0 ==> r@ == SpecExpr::Empty,
        reduced(r@),
        r@ == assembled(kind, views_of(top@), views_of(junctions@), views_of(assumed@)),
{
    let ghost tv = views_of(top@);
    let ghost av = views_of(assumed@);
    let ghost j0 = views_of(junctions@);
    let each = sort_each_junction(junctions);
    let ghost je = views_of(each@);
    let js = dedup_vec(sort_vec(each));
    let ghost jd = views_of(js@);
    proof {
        lemma_tidy_junctions(kind, j0, je, jd);
        assert(je =~= Seq::new(j0.len(), |i: int| sort_junction(j0[i])));
        lemma_sort_contents::<AccessExpression>(je);
        lemma_dedup_contents::<AccessExpression>(sort_seq::<AccessExpression>(je));
        assert forall|i: int| 0 <= i < je.len() implies #[trigger] reduced(je[i]) by {
            lemma_sort_junction_in_order(j0[i]);
            assert(je[i] == j0[i]);
        }
        assert forall|m: int| 0 <= m < jd.len() implies #[trigger] reduced(jd[m]) by {
            assert(jd.contains(jd[m]));
            assert(sort_seq::<AccessExpression>(je).contains(jd[m]));
            let k = choose|k: int| 0 <= k < je.len() && je[k] == jd[m];
            assert(reduced(je[k]));
        }
    }
    let redundant = identify_redundant_junctions(kind, &js, &top);
    let ghost dropped = redundant_marks(kind, jd, any_of_tokens(tv));
    let mut simplified: Vec<AccessExpression> = Vec::new();
    let mut i: usize = 0;
    assert(views_of(simplified@) =~= Seq::<SpecExpr>::empty());
    assert(views_of(simplified@) =~= kept_tokens(tv, av, 0));
    while i < top.len()
        invariant
            tv == views_of(top@),
            av == views_of(assumed@),
            i <= top.len(),
            forall|k: int| 0 <= k < simplified.len() ==> (#[trigger] views_of(simplified@)[k]) is Token
                && tv.contains(views_of(simplified@)[k]->Token_0) && !av.contains(views_of(simplified@)[k]->Token_0),
            forall|m: int| 0 <= m < i && !av.contains(#[trigger] tv[m]) ==> views_of(simplified@).contains(SpecExpr::Token(tv[m])),
            sizes(views_of(simplified@)) <= i,
            simplified.len() <= i,
            views_of(simplified@) == kept_tokens(tv, av, i as int),
            tv.no_duplicates(),
            views_of(simplified@).no_duplicates(),
            forall|k: int| 0 <= k < simplified.len() ==> tv.subrange(0, i as int).contains(
                (#[trigger] views_of(simplified@)[k])->Token_0,
            ),
        decreases top.len() - i,
    {
        proof {
            assert forall|k: int| 0 <= k < simplified.len() implies tv.subrange(0, i + 1).contains(
                (#[trigger] views_of(simplified@)[k])->Token_0,
            ) by {
                let m = choose|m: int| 0 <= m < i && tv.subrange(0, i as int)[m] == views_of(simplified@)[k]->Token_0;
                assert(tv.subrange(0, i + 1)[m] == views_of(simplified@)[k]->Token_0);
            }
        }
        if !contains_equal(assumed.as_slice(), &top[i]) {
            let ghost before = views_of(simplified@);
            let e = AccessExpression::Token(top[i].clone());
            proof {
                lemma_expr_view_junction(e);
            }
            simplified.push(e);
            proof {
                assert(views_of(simplified@) =~= before.push(e@));
                lemma_sizes_push(before, e@);
                assert(tv.contains(tv[i as int]));
                assert(!tv.subrange(0, i as int).contains(tv[i as int])) by {
                    if tv.subrange(0, i as int).contains(tv[i as int]) {
                        let m = choose|m: int| 0 <= m < i && tv.subrange(0, i as int)[m] == tv[i as int];
                        assert(tv[m] == tv[i as int]);
                    }
                }
                assert forall|k: int| 0 <= k < simplified.len() implies tv.subrange(0, i + 1).contains(
                    (#[trigger] views_of(simplified@)[k])->Token_0,
                ) by {
                    if k < before.len() {
                        assert(views_of(simplified@)[k] == before[k]);
                        let m = choose|m: int| 0 <= m < i && tv.subrange(0, i as int)[m] == before[k]->Token_0;
                        assert(tv.subrange(0, i + 1)[m] == before[k]->Token_0);
                    } else {
                        assert(tv.subrange(0, i + 1)[i as int] == tv[i as int]);
                    }
                }
                assert forall|a: int, b: int| 0 <= a < simplified.len() && 0 <= b < simplified.len() && a != b implies
                    views_of(simplified@)[a] != views_of(simplified@)[b] by {
                    if a < before.len() && b < before.len() {
                        assert(before[a] != before[b]);
                    } else if a < before.len() {
                        assert(tv.subrange(0, i as int).contains(before[a]->Token_0));
                    } else {
                        assert(tv.subrange(0, i as int).contains(before[b]->Token_0));
                    }
                }
                assert forall|m: int| 0 <= m <= i && !av.contains(#[trigger] tv[m]) implies views_of(simplified@).contains(SpecExpr::Token(tv[m])) by {
                    if m < i {
                        let k = choose|k: int| 0 <= k < before.len() && before[k] == SpecExpr::Token(tv[m]);
                        assert(views_of(simplified@)[k] == before[k]);
                    } else {
                        assert(views_of(simplified@)[before.len() as int] == SpecExpr::Token(tv[m]));
                    }
                }
            }
        }
        i += 1;
    }
    let mut j: usize = 0;
    assert(jd.subrange(0, 0) =~= Seq::<SpecExpr>::empty());
    assert(views_of(simplified@) =~= kept_tokens(tv, av, tv.len() as int) + kept_junctions(jd, dropped, 0));
    while j < js.len()
        invariant
            tv == views_of(top@),
            av == views_of(assumed@),
            jd == views_of(js@),
            dropped.len() == js.len(),
            dropped == redundant_marks(kind, jd, any_of_tokens(tv)),
            forall|x: usize| #[trigger] redundant@.contains(x) <==> (x < js.len() && dropped[x as int]),
            j <= js.len(),
            all_junctions_of(kind.flip(), jd),
            forall|k: int| 0 <= k < simplified.len() && (#[trigger] views_of(simplified@)[k]) is Token ==>
                tv.contains(views_of(simplified@)[k]->Token_0) && !av.contains(views_of(simplified@)[k]->Token_0),
            forall|k: int| 0 <= k < simplified.len() && !((#[trigger] views_of(simplified@)[k]) is Token) ==>
                exists|m: int| 0 <= m < j && !dropped[m] && #[trigger] jd[m] == views_of(simplified@)[k],
            forall|m: int| 0 <= m < tv.len() && !av.contains(#[trigger] tv[m]) ==> views_of(simplified@).contains(SpecExpr::Token(tv[m])),
            forall|m: int| 0 <= m < j && !dropped[m] ==> views_of(simplified@).contains(#[trigger] jd[m]),
            sizes(views_of(simplified@)) <= tv.len() + sizes(jd.subrange(0, j as int)),
            simplified.len() <= top.len() + j,
            views_of(simplified@) == kept_tokens(tv, av, tv.len() as int) + kept_junctions(jd, dropped, j as int),
            jd.len() <= junctions.len(),
            jd.no_duplicates(),
            views_of(simplified@).no_duplicates(),
        decreases js.len() - j,
    {
        let ghost before = views_of(simplified@);
        proof {
            lemma_sizes_prefix(jd, j as int);
        }
        let is_redundant = redundant.contains(&j);
        proof {
            broadcast use vstd::std_specs::hash::axiom_usize_obeys_hash_table_key_model,
                vstd::std_specs::hash::axiom_random_state_builds_valid_hashers;
            vstd::std_specs::hash::axiom_set_contains_deref_key(redundant@, &j);
            assert(is_redundant == redundant@.contains(j));
            assert(redundant@.contains(j) == dropped[j as int]);
        }
        if !is_redundant {
            let e = js[j].clone();
            simplified.push(e);
            proof {
                assert(views_of(simplified@) =~= before.push(jd[j as int]));
                assert(before.push(jd[j as int]) =~= kept_tokens(tv, av, tv.len() as int) + kept_junctions(jd, dropped, j + 1));
                lemma_sizes_push(before, jd[j as int]);
                assert(is_junction(kind.flip(), jd[j as int]));
                assert forall|k: int| 0 <= k < simplified.len() && !((#[trigger] views_of(simplified@)[k]) is Token) implies
                    exists|m: int| 0 <= m < j + 1 && !dropped[m] && #[trigger] jd[m] == views_of(simplified@)[k] by {
                    if k < before.len() {
                        assert(views_of(simplified@)[k] == before[k]);
                    } else {
                        assert(jd[j as int] == views_of(simplified@)[k]);
                    }
                }
                assert forall|m: int| 0 <= m < tv.len() && !av.contains(#[trigger] tv[m]) implies views_of(simplified@).contains(SpecExpr::Token(tv[m])) by {
                    let k = choose|k: int| 0 <= k < before.len() && before[k] == SpecExpr::Token(tv[m]);
                    assert(views_of(simplified@)[k] == before[k]);
                }
                assert forall|a: int, b: int| 0 <= a < simplified.len() && 0 <= b < simplified.len() && a != b implies
                    views_of(simplified@)[a] != views_of(simplified@)[b] by {
                    if a < before.len() && b < before.len() {
                        assert(before[a] != before[b]);
                    } else if a < before.len() {
                        if !(before[a] is Token) {
                            let m = choose|m: int| 0 <= m < j && !dropped[m] && #[trigger] jd[m] == before[a];
                            assert(jd[m] != jd[j as int]);
                        }
                    } else {
                        if !(before[b] is Token) {
                            let m = choose|m: int| 0 <= m < j && !dropped[m] && #[trigger] jd[m] == before[b];
                            assert(jd[m] != jd[j as int]);
                        }
                    }
                }
                assert forall|m: int| 0 <= m < j + 1 && !dropped[m] implies views_of(simplified@).contains(#[trigger] jd[m]) by {
                    if m < j {
                        let k = choose|k: int| 0 <= k < before.len() && before[k] == jd[m];
                        assert(views_of(simplified@)[k] == before[k]);
                    } else {
                        assert(views_of(simplified@)[before.len() as int] == jd[m]);
                    }
                }
            }
        }
        j += 1;
    }
    let ghost sv = views_of(simplified@);
    proof {
        assert(jd.subrange(0, jd.len() as int) =~= jd);
        assert(assembled_from(sv, tv, av, jd, dropped));
        lemma_assembled_reduced(kind, tv, av, jd, dropped, sv);
        assert forall|held: Set<SpecToken>| av.to_set().subset_of(held) implies
            #[trigger] holds(junction(kind, sv), held) == parts_hold(kind, tv, j0, false, held) by {
            lemma_assembled_holds(kind, tv, av, jd, dropped, sv, held);
            assert(all_hold(jd, held) == all_hold(j0, held) && any_holds(jd, held) == any_holds(j0, held));
        }
        assert forall|k: int| 0 <= k < sv.len() implies #[trigger] normal_child(kind, sv[k]) by {
            if !(sv[k] is Token) {
                let m = choose|m: int| 0 <= m < jd.len() && !dropped[m] && #[trigger] jd[m] == sv[k];
                assert(is_junction(kind.flip(), jd[m]));
                assert(normal(jd[m]));
            }
        }
        assert forall|k: int| 0 <= k < sv.len() implies #[trigger] in_order(sv[k]) by {
            if !(sv[k] is Token) {
                let m = choose|m: int| 0 <= m < jd.len() && !dropped[m] && #[trigger] jd[m] == sv[k];
                assert(in_order(jd[m]));
            }
        }
        lemma_all_in_order(sv);
        assert forall|t: SpecToken| #[trigger] tokens_in_all(sv).contains(t) implies (tv.contains(t) || tokens_in_all(j0).contains(t))
            && !av.contains(t) by {
            lemma_tokens_in_some_child(sv, t);
            let k = choose|k: int| 0 <= k < sv.len() && #[trigger] tokens_in(sv[k]).contains(t);
            if sv[k] is Token {
                assert(tokens_in(sv[k]) == seq![sv[k]->Token_0]);
                assert(tv.contains(sv[k]->Token_0));
            } else {
                let m = choose|m: int| 0 <= m < jd.len() && !dropped[m] && #[trigger] jd[m] == sv[k];
                lemma_tokens_in_child(jd, m, t);
            }
        }
        assert forall|k: int| 0 <= k < sv.len() implies #[trigger] lean(sv[k]) by {
            if !(sv[k] is Token) {
                let m = choose|m: int| 0 <= m < jd.len() && !dropped[m] && #[trigger] jd[m] == sv[k];
                assert(lean(jd[m]));
            }
        }
        if kind == JunctionType::And {
            assert forall|i: int, j: int|
                0 <= i < sv.len() && 0 <= j < sv.len() && (#[trigger] sv[i]) is Token && !((#[trigger] sv[j]) is Token)
                implies !tokens_in(sv[j]).contains(sv[i]->Token_0) by {
                let t = sv[i]->Token_0;
                assert(tv.contains(t));
                let m = choose|m: int| 0 <= m < jd.len() && !dropped[m] && #[trigger] jd[m] == sv[j];
                if tokens_in(sv[j]).contains(t) {
                    lemma_tokens_in_child(jd, m, t);
                }
            }
        }
        lemma_all_lean(sv);
        assert(lean(junction(kind, sv)));
    }
    let n = simplified.len();
    if n == 0 {
        proof {
            if kind == JunctionType::Or && top.len() + j0.len() > 0 {
                let full = Set::<SpecToken>::full();
                assert(av.to_set().subset_of(full));
                lemma_holds_junction(sv, full);
                assert(!holds(junction(kind, sv), full));
                if tv.len() > 0 {
                    assert(full.contains(tv[0]));
                } else {
                    assert(normal(j0[0]));
                    lemma_normal_well_formed(j0[0]);
                    lemma_well_formed_satisfiable(j0[0]);
                }
                assert(false);
            }
            assert forall|held: Set<SpecToken>| av.to_set().subset_of(held) && (kind == JunctionType::And || top.len() + j0.len() > 0) implies
                #[trigger] holds(SpecExpr::Empty, held) == parts_hold(kind, tv, j0, false, held) by {
                assert(holds(junction(kind, sv), held) == parts_hold(kind, tv, j0, false, held));
                lemma_holds_junction(sv, held);
            }
            assert(tokens_in(SpecExpr::Empty) =~= Seq::<SpecToken>::empty());
        }
        AccessExpression::Empty
    } else if n == 1 {
        let r = simplified.pop().unwrap();
        proof {
            assert(top.len() + junctions.len() > 0);
            assert(r@ == sv[0]);
            assert(in_order(sv[0]));
            assert(lean(sv[0]));
            assert forall|t: SpecToken| #[trigger] tokens_in(r@).contains(t) implies tokens_in_all(sv).contains(t) by {
                lemma_tokens_in_child(sv, 0, t);
            }
            assert(sizes(sv) == sizes(sv.subrange(0, 0)) + size(sv[0]));
            assert(normal_child(kind, sv[0]));
            lemma_normal_well_formed(sv[0]);
            assert forall|held: Set<SpecToken>| av.to_set().subset_of(held) implies
                #[trigger] holds(r@, held) == parts_hold(kind, tv, j0, false, held) by {
                assert(holds(junction(kind, sv), held) == parts_hold(kind, tv, j0, false, held));
                lemma_holds_junction(sv, held);
                if any_holds(sv, held) {
                    let k = choose|k: int| 0 <= k < sv.len() && #[trigger] holds(sv[k], held);
                    assert(k == 0);
                }
            }
        }
        r
    } else {
        let sorted = sort_vec(simplified);
        let ghost ss = views_of(sorted@);
        proof {
            assert(top.len() + junctions.len() > 0);
            lemma_sort_contents::<AccessExpression>(sv);
            lemma_sizes_sort(sv);
            lemma_in_order_sorted(sv, ss);
            lemma_tokens_in_sublist(ss, sv);
            lemma_lean_sorted(kind, sv, ss);
            lemma_sorted_reduced(kind, sv, ss);
            lemma_all_reduced(ss);
            lemma_normal_children(kind, ss);
            assert forall|k: int| 0 <= k < ss.len() implies #[trigger] normal_child(kind, ss[k]) by {
                assert(ss.contains(ss[k]));
                assert(sv.contains(ss[k]));
                let m = choose|m: int| 0 <= m < sv.len() && sv[m] == ss[k];
                assert(normal_child(kind, sv[m]));
            }
            assert forall|held: Set<SpecToken>| av.to_set().subset_of(held) implies
                #[trigger] holds(junction(kind, ss), held) == parts_hold(kind, tv, j0, false, held) by {
                assert(holds(junction(kind, sv), held) == parts_hold(kind, tv, j0, false, held));
                lemma_holds_junction(sv, held);
                lemma_holds_junction(ss, held);
                lemma_exprs_same_contents(ss, sv, held);
            }
        }
        let r = kind.wrap(sorted);
        proof {
            assert(r@ == junction(kind, ss));
            assert(in_order(junction(kind, ss)));
            assert(tokens_in(r@) == tokens_in_all(ss));
        }
        r
    }
}


/// `a` is satisfied, by every set of tokens that includes `assumed`, exactly where simplification
/// reads `b` as satisfied.
pub open spec fn reads_agree_given(a: SpecExpr, b: SpecExpr, assumed: Set<SpecToken>) -> bool {
    forall|held: Set<SpecToken>| assumed.subset_of(held) ==> #[trigger] holds(a, held) == reads_holds(b, held)
}

/// Two ways of splitting a junction of kind `kind` into tokens and junctions read alike for every
/// set of tokens that includes `assumed`.
pub open spec fn parts_read_alike(
    kind: JunctionType,
    t0: Seq<SpecToken>,
    j0: Seq<SpecExpr>,
    t1: Seq<SpecToken>,
    j1: Seq<SpecExpr>,
    assumed: Set<SpecToken>,
) -> bool {
    forall|held: Set<SpecToken>| assumed.subset_of(held) ==>
        #[trigger] parts_reads(kind, t0, j0, held) == parts_reads(kind, t1, j1, held)
}

/// A junction of kind `kind` over `t0` and `j0` reads, for every set of tokens that includes
/// `assumed`, as one over `t1` and `j1` is satisfied.
pub open spec fn parts_read_as(
    kind: JunctionType,
    t0: Seq<SpecToken>,
    j0: Seq<SpecExpr>,
    t1: Seq<SpecToken>,
    j1: Seq<SpecExpr>,
    assumed: Set<SpecToken>,
) -> bool {
    forall|held: Set<SpecToken>| assumed.subset_of(held) ==>
        #[trigger] parts_reads(kind, t0, j0, held) == parts_hold(kind, t1, j1, false, held)
}

/// A junction of kind `kind` over `t0` and `j0` reads as satisfied by every set of tokens that
/// includes `assumed`.
pub open spec fn parts_read_true(kind: JunctionType, t0: Seq<SpecToken>, j0: Seq<SpecExpr>, assumed: Set<SpecToken>) -> bool {
    forall|held: Set<SpecToken>| assumed.subset_of(held) ==> #[trigger] parts_reads(kind, t0, j0, held)
}

/// One round of simplifying the junctions of a junction keeps how it reads, and leaves
/// something of a disjunction that had something.
proof fn lemma_step(
    kind: JunctionType,
    av: Seq<SpecToken>,
    top: Seq<SpecToken>,
    cur: Seq<SpecExpr>,
    cv: Seq<SpecToken>,
    sv: Seq<SpecExpr>,
    top2: Seq<SpecToken>,
    held: Set<SpecToken>,
)
    requires
        av.to_set().subset_of(held),
        sv.len() == cur.len(),
        forall|k: int| 0 <= k < cur.len() ==> #[trigger] reads_agree_given(sv[k], cur[k], cv.to_set()),
        all_normal(sv),
        kind == JunctionType::And ==> forall|t: SpecToken|
            #[trigger] cv.contains(t) <==> (av.contains(t) || top.contains(t)),
        kind == JunctionType::Or ==> cv == av,
        kind == JunctionType::Or ==> !gather(kind, sv).empty,
        forall|t: SpecToken| #[trigger] top2.contains(t) <==> (top.contains(t) || gather(kind, sv).tokens.contains(t)),
    ensures
        parts_reads(kind, top, cur, held) == parts_reads(kind, top2, gather(kind, sv).junctions, held),
        kind == JunctionType::Or && top.len() + cur.len() > 0 ==> top2.len() + gather(kind, sv).junctions.len() > 0,
{
    let g = gather(kind, sv);
    lemma_gather_holds(kind, sv, held);
    lemma_gather_facts(kind, sv);
    lemma_holds_junction(sv, held);
    lemma_tokens_append(top, g.tokens, held);
    lemma_contains_append(top, g.tokens);
    lemma_tokens_same_contents(top2, top + g.tokens, held);
    assert forall|i: int| 0 <= i < sv.len() implies #[trigger] well_formed(sv[i]) by {
        lemma_normal_well_formed(sv[i]);
    }
    lemma_all_well_formed(sv);
    if kind == JunctionType::Or && sv.len() > 0 {
        lemma_gather_something(sv);
    }
    if top.len() > 0 {
        assert(top.contains(top[0]));
        assert(top2.contains(top[0]));
    }
    if g.tokens.len() > 0 {
        assert(g.tokens.contains(g.tokens[0]));
        assert(top2.contains(g.tokens[0]));
    }
    if top2.len() > 0 {
        assert(top2.contains(top2[0]));
    }
    if sv.len() == 0 {
        assert(g == nothing_gathered());
    }
    if kind == JunctionType::Or || all_tokens_held(top, held) {
        assert forall|t: SpecToken| cv.to_set().contains(t) implies held.contains(t) by {
            assert(cv.contains(t));
            if av.contains(t) {
                assert(av.to_set().contains(t));
            } else {
                let i = choose|i: int| 0 <= i < top.len() && top[i] == t;
                assert(held.contains(top[i]));
            }
        }
        assert forall|k: int| 0 <= k < sv.len() implies #[trigger] holds(sv[k], held) == reads_holds(cur[k], held) by {
            assert(reads_agree_given(sv[k], cur[k], cv.to_set()));
        }
        lemma_reads_pointwise(sv, cur, held);
        if kind == JunctionType::And || top2.len() + g.junctions.len() > 0 {
            lemma_parts_reads_hold(kind, top2, g.junctions, held);
        }
    }
}

/// A round that finds the empty expression in a disjunction shows that it reads as always
/// satisfied.
proof fn lemma_step_empty(
    av: Seq<SpecToken>,
    top: Seq<SpecToken>,
    cur: Seq<SpecExpr>,
    sv: Seq<SpecExpr>,
    held: Set<SpecToken>,
)
    requires
        av.to_set().subset_of(held),
        sv.len() == cur.len(),
        forall|k: int| 0 <= k < cur.len() ==> #[trigger] reads_agree_given(sv[k], cur[k], av.to_set()),
        gather(JunctionType::Or, sv).empty,
    ensures
        parts_reads(JunctionType::Or, top, cur, held),
{
    lemma_gather_holds(JunctionType::Or, sv, held);
    lemma_holds_junction(sv, held);
    let k = choose|k: int| 0 <= k < sv.len() && #[trigger] holds(sv[k], held);
    assert(reads_agree_given(sv[k], cur[k], av.to_set()));
    assert(reads_holds(cur[k], held));
    lemma_reads_lists(cur, held);
}

/// Whether some token of `a` is also in `b`.
fn shares_token(a: &Vec<AccessToken>, b: &Vec<AccessToken>) -> (r: bool)
    ensures
        r == exists|t: SpecToken| views_of(a@).contains(t) && views_of(b@).contains(t),
{
    let mut k: usize = 0;
    while k < a.len()
        invariant
            k <= a.len(),
            forall|m: int| 0 <= m < k ==> !views_of(b@).contains(#[trigger] views_of(a@)[m]),
        decreases a.len() - k,
    {
        if contains_equal(b.as_slice(), &a[k]) {
            assert(views_of(a@).contains(views_of(a@)[k as int]));
            return true;
        }
        k += 1;
    }
    proof {
        assert forall|t: SpecToken| views_of(a@).contains(t) implies !views_of(b@).contains(t) by {
            let m = choose|m: int| 0 <= m < a.len() && views_of(a@)[m] == t;
            assert(!views_of(b@).contains(views_of(a@)[m]));
        }
    }
    false
}


/// Simplifies the junctions `junctions` of a junction of kind `kind` whose tokens are `top`,
/// assuming that the tokens `assumed` are held, until no round turns up a new token. In a
/// conjunction each new token is assumed from then on. Gives back the tokens, and the
/// junctions that remain; or nothing, for a disjunction found to hold whenever `assumed` is
/// held.
fn simplify_with_context(
    kind: JunctionType,
    initial: &Vec<AccessToken>,
    assumed: &Vec<AccessToken>,
    junctions: &Vec<AccessExpression>,
) -> (r: (Vec<AccessToken>, Option<Vec<AccessExpression>>))
    requires
        all_junctions_of(kind.flip(), views_of(junctions@)),
        is_strictly_sorted::<AccessToken>(views_of(initial@)),
        kind == JunctionType::And ==> forall|t: SpecToken|
            views_of(initial@).contains(t) ==> views_of(assumed@).contains(t),
    ensures
        kind == JunctionType::And ==> r.1 is Some,
        forall|t: SpecToken| views_of(initial@).contains(t) ==> #[trigger] views_of(r.0@).contains(t),
        is_strictly_sorted::<AccessToken>(views_of(r.0@)),
        r.1 is Some ==> all_junctions_of(kind.flip(), views_of(r.1->0@)) && all_normal(views_of(r.1->0@)),
        r.1 is Some ==> forall|i: int| 0 <= i < r.1->0.len() ==> #[trigger] in_order(views_of(r.1->0@)[i]),
        r.1 is Some ==> forall|i: int| 0 <= i < r.1->0.len() ==> #[trigger] lean(views_of(r.1->0@)[i]),
        r.1 is Some ==> forall|i: int| 0 <= i < r.1->0.len() ==> #[trigger] reduced(views_of(r.1->0@)[i]),
        r.1 is Some ==> forall|t: SpecToken| #[trigger] tokens_in_all(views_of(r.1->0@)).contains(t)
            ==> !views_of(assumed@).contains(t),
        kind == JunctionType::And && r.1 is Some ==> forall|t: SpecToken|
            #[trigger] tokens_in_all(views_of(r.1->0@)).contains(t) ==> !views_of(r.0@).contains(t),
        forall|t: SpecToken| #[trigger] views_of(r.0@).contains(t) ==> views_of(initial@).contains(t) || tokens_in_all(
            views_of(junctions@),
        ).contains(t),
        r.1 is Some ==> forall|t: SpecToken| #[trigger] tokens_in_all(views_of(r.1->0@)).contains(t) ==> tokens_in_all(
            views_of(junctions@),
        ).contains(t),
        r.1 is Some ==> r.0.len() + sizes(views_of(r.1->0@)) <= initial.len() + sizes(views_of(junctions@)),
        kind == JunctionType::Or && r.1 is Some ==> forall|t: SpecToken|
            views_of(r.0@).contains(t) ==> !views_of(assumed@).contains(t),
        r.1 is Some && (kind == JunctionType::And || r.0.len() + r.1->0.len() > 0) ==> parts_read_as(
            kind,
            views_of(initial@),
            views_of(junctions@),
            views_of(r.0@),
            views_of(r.1->0@),
            views_of(assumed@).to_set(),
        ),
        kind == JunctionType::Or && r.1 is Some && initial.len() + junctions.len() > 0 ==> r.0.len() + r.1->0.len() > 0,
        r.1 is None ==> parts_read_true(kind, views_of(initial@), views_of(junctions@), views_of(assumed@).to_set()),
        views_of(r.0@) == simplified_rounds(kind, views_of(initial@), views_of(assumed@), views_of(assumed@), views_of(junctions@), sizes(views_of(junctions@)), sizes(views_of(junctions@))).0,
        (r.1 is Some) == (simplified_rounds(kind, views_of(initial@), views_of(assumed@), views_of(assumed@), views_of(junctions@), sizes(views_of(junctions@)), sizes(views_of(junctions@))).1 is Some),
        r.1 is Some ==> views_of(r.1->0@) == simplified_rounds(kind, views_of(initial@), views_of(assumed@), views_of(assumed@), views_of(junctions@), sizes(views_of(junctions@)), sizes(views_of(junctions@))).1->0,
    decreases sizes(views_of(junctions@)), 0int,
{
    let ghost t0 = views_of(initial@);
    let ghost j0 = views_of(junctions@);
    let ghost av = views_of(assumed@);
    let ghost a0 = av.to_set();
    let mut top = clone_tokens(initial);
    let mut current = clone_exprs(junctions);
    let mut context = clone_tokens(assumed);
    let ghost mut fresh = true;
    let ghost bound = sizes(j0);
    let ghost target = simplified_rounds(kind, t0, av, av, j0, bound, bound);
    let ghost mut fuel: nat = bound;
    loop
        invariant_except_break
            sizes(views_of(current@)) <= fuel,
            simplified_rounds(kind, views_of(top@), views_of(context@), av, views_of(current@), bound, fuel) == target,
        invariant
            bound == sizes(j0),
            target == simplified_rounds(kind, t0, av, av, j0, bound, bound),
            j0 == views_of(junctions@),
            t0 == views_of(initial@),
            av == views_of(assumed@),
            a0 == av.to_set(),
            all_junctions_of(kind.flip(), views_of(current@)),
            is_strictly_sorted::<AccessToken>(views_of(top@)),
            fresh ==> views_of(current@) == j0 && views_of(top@) == t0,
            !fresh ==> all_normal(views_of(current@)),
            !fresh ==> forall|i: int| 0 <= i < current.len() ==> #[trigger] in_order(views_of(current@)[i]),
            !fresh ==> forall|i: int| 0 <= i < current.len() ==> #[trigger] lean(views_of(current@)[i]),
            !fresh ==> forall|i: int| 0 <= i < current.len() ==> #[trigger] reduced(views_of(current@)[i]),
            forall|t: SpecToken| #[trigger] views_of(top@).contains(t) ==> t0.contains(t) || tokens_in_all(j0).contains(t),
            forall|t: SpecToken| #[trigger] tokens_in_all(views_of(current@)).contains(t) ==> tokens_in_all(j0).contains(t),
            forall|t: SpecToken| t0.contains(t) ==> #[trigger] views_of(top@).contains(t),
            sizes(views_of(current@)) <= sizes(j0),
            top.len() + sizes(views_of(current@)) <= t0.len() + sizes(j0),
            kind == JunctionType::And ==> forall|t: SpecToken|
                #[trigger] views_of(context@).contains(t) <==> (av.contains(t) || views_of(top@).contains(t)),
            kind == JunctionType::Or ==> views_of(context@) == av,
            kind == JunctionType::Or && !fresh ==> forall|t: SpecToken|
                views_of(top@).contains(t) ==> !av.contains(t),
            parts_read_alike(kind, t0, j0, views_of(top@), views_of(current@), a0),
            kind == JunctionType::Or && t0.len() + j0.len() > 0 ==> top.len() + current.len() > 0,
        ensures
            !fresh,
            forall|t: SpecToken| #[trigger] tokens_in_all(views_of(current@)).contains(t) ==> !views_of(context@).contains(t),
            target == (views_of(top@), Option::Some(views_of(current@))),
        decreases sizes(views_of(current@)),
    {
        let ghost cur = views_of(current@);
        let ghost cv = views_of(context@);
        let ghost old_top = views_of(top@);
        let mut simplified: Vec<AccessExpression> = Vec::new();
        let mut i: usize = 0;
        while i < current.len()
            invariant
                i <= current.len(),
                cur == views_of(current@),
                cv == views_of(context@),
                j0 == views_of(junctions@),
                all_junctions_of(kind.flip(), cur),
                sizes(cur) <= sizes(j0),
                simplified.len() == i,
                forall|k: int| 0 <= k < i ==> #[trigger] normal(views_of(simplified@)[k]),
                forall|k: int| 0 <= k < i ==> #[trigger] in_order(views_of(simplified@)[k]),
                forall|k: int| 0 <= k < i ==> #[trigger] lean(views_of(simplified@)[k]),
                forall|k: int| 0 <= k < i ==> #[trigger] reduced(views_of(simplified@)[k]),
                forall|k: int, t: SpecToken| 0 <= k < i && #[trigger] tokens_in(views_of(simplified@)[k]).contains(t) ==> !cv.contains(t),
                forall|k: int, t: SpecToken| 0 <= k < i && #[trigger] tokens_in(views_of(simplified@)[k]).contains(t) ==> tokens_in(cur[k]).contains(t),
                forall|k: int| 0 <= k < i ==> #[trigger] size(views_of(simplified@)[k]) <= size(cur[k]),
                forall|k: int| 0 <= k < i ==>
                    #[trigger] reads_agree_given(views_of(simplified@)[k], cur[k], cv.to_set()),
                bound == sizes(j0),
                views_of(simplified@) == simplified_each(kind, cur.subrange(0, i as int), cv, bound),
            decreases current.len() - i,
        {
            proof {
                lemma_sizes_element(cur, i as int);
                lemma_expr_view_junction(current@[i as int]);
                assert(is_junction(kind.flip(), cur[i as int]));
            }
            let x = match &current[i] {
                AccessExpression::And(cs) => simplify_inner(kind.opposite(), cs, &context),
                AccessExpression::Or(cs) => simplify_inner(kind.opposite(), cs, &context),
                _ => AccessExpression::Empty,
            };
            let ghost before = views_of(simplified@);
            simplified.push(x);
            assert(views_of(simplified@) =~= before.push(x@));
            proof {
                let next = cur.subrange(0, i + 1);
                lemma_sizes_prefix_le(cur, i + 1);
                assert(next.subrange(0, i as int) =~= cur.subrange(0, i as int));
                assert(next[i as int] == cur[i as int]);
                assert(x@ == simplified_junction(kind.flip(), children(cur[i as int]), cv));
            }
            i += 1;
        }
        let ghost sv = views_of(simplified@);
        proof {
            assert(cur.subrange(0, cur.len() as int) =~= cur);
            assert(sv == simplified_each(kind, cur, cv, bound));
            lemma_gather_facts(kind, sv);
            lemma_sizes_pointwise(sv, cur);
            lemma_tokens_in_pointwise(sv, cur);
            lemma_gather_tokens(kind, sv);
            assert forall|t: SpecToken| #[trigger] tokens_in_all(sv).contains(t) implies !cv.contains(t) by {
                lemma_tokens_in_some_child(sv, t);
            }
        }
        let ghost g = gather(kind, sv);
        let (nt, nj, fe) = flatten_and_collect(kind, simplified);
        proof {
            lemma_sort_dedup::<AccessToken>(g.tokens);
        }
        if kind == JunctionType::Or && fe {
            proof {
                assert forall|held: Set<SpecToken>| a0.subset_of(held) implies
                    #[trigger] parts_reads(kind, t0, j0, held) by {
                    lemma_step_empty(av, old_top, cur, sv, held);
                    assert(parts_reads(kind, t0, j0, held) == parts_reads(kind, old_top, cur, held));
                }
                assert(target == (old_top, Option::<Seq<SpecExpr>>::None));
            }
            return (top, None);
        }
        let ghost ntv = views_of(nt@);
        let nothing_new = nt.len() == 0;
        let mut merged = top;
        let mut added = clone_tokens(&nt);
        merged.append(&mut added);
        let ghost mv = views_of(merged@);
        assert(mv =~= old_top + ntv);
        top = dedup_vec(sort_vec(merged));
        if kind == JunctionType::And {
            let mut more = nt;
            context.append(&mut more);
            assert(views_of(context@) =~= cv + ntv);
        }
        current = nj;
        proof {
            fresh = false;
            lemma_gather_reduced(kind, sv);
            lemma_sort_dedup::<AccessToken>(mv);
            lemma_contains_append(old_top, ntv);
            lemma_contains_append(cv, ntv);
            assert forall|t: SpecToken| #[trigger] views_of(top@).contains(t) <==> (old_top.contains(t) || g.tokens.contains(t)) by {
                assert(views_of(top@).contains(t) == mv.contains(t));
                assert(ntv.contains(t) == g.tokens.contains(t));
            }
            assert forall|t: SpecToken| t0.contains(t) implies #[trigger] views_of(top@).contains(t) by {
                assert(old_top.contains(t));
            }
            assert forall|t: SpecToken| #[trigger] views_of(top@).contains(t) implies t0.contains(t) || tokens_in_all(j0).contains(t) by {
                if !old_top.contains(t) {
                    assert(g.tokens.contains(t));
                    assert(tokens_in_all(sv).contains(t));
                    assert(tokens_in_all(cur).contains(t));
                }
            }
            assert forall|t: SpecToken| #[trigger] tokens_in_all(views_of(current@)).contains(t) implies tokens_in_all(j0).contains(t) by {
                assert(tokens_in_all(sv).contains(t));
                assert(tokens_in_all(cur).contains(t));
            }
            assert(all_normal(sv));
            assert forall|held: Set<SpecToken>| a0.subset_of(held) implies
                #[trigger] parts_reads(kind, t0, j0, held) == parts_reads(kind, views_of(top@), views_of(current@), held) by {
                lemma_step(kind, av, old_top, cur, cv, sv, views_of(top@), held);
                assert(parts_reads(kind, t0, j0, held) == parts_reads(kind, old_top, cur, held));
            }
            lemma_step(kind, av, old_top, cur, cv, sv, views_of(top@), a0);
        }
        if kind == JunctionType::Or && shares_token(&top, assumed) {
            proof {
                let t = choose|t: SpecToken| views_of(top@).contains(t) && av.contains(t);
                assert forall|held: Set<SpecToken>| a0.subset_of(held) implies
                    #[trigger] parts_reads(kind, t0, j0, held) by {
                    assert(a0.contains(t));
                    let k = choose|k: int| 0 <= k < views_of(top@).len() && views_of(top@)[k] == t;
                    assert(held.contains(views_of(top@)[k]));
                    assert(parts_reads(kind, t0, j0, held) == parts_reads(kind, views_of(top@), views_of(current@), held));
                }
                assert(views_of(top@) == sort_dedup::<AccessToken>(old_top + ntv));
                assert(target == (views_of(top@), Option::<Seq<SpecExpr>>::None));
            }
            return (top, None);
        }
        if nothing_new || current.len() == 0 {
            proof {
                if nothing_new {
                    assert(views_of(context@) =~= cv);
                } else {
                    assert(tokens_in_all(views_of(current@)) =~= Seq::<SpecToken>::empty());
                }
                assert forall|t: SpecToken| #[trigger] tokens_in_all(views_of(current@)).contains(t) implies !views_of(context@).contains(t) by {
                    assert(tokens_in_all(sv).contains(t));
                }
                assert(views_of(top@) == sort_dedup::<AccessToken>(old_top + ntv));
                assert(target == (views_of(top@), Option::Some(views_of(current@))));
            }
            break;
        }
        proof {
            assert(g.tokens.len() > 0);
            assert(views_of(top@) == sort_dedup::<AccessToken>(old_top + ntv));
            assert(sizes(views_of(current@)) < sizes(cur));
            assert(fuel > 0);
            assert(simplified_rounds(kind, old_top, cv, av, cur, bound, fuel) == simplified_rounds(
                kind,
                views_of(top@),
                views_of(context@),
                av,
                views_of(current@),
                bound,
                (fuel - 1) as nat,
            ));
            fuel = (fuel - 1) as nat;
        }
    }
    proof {
        if kind == JunctionType::And || top.len() + current.len() > 0 {
            assert forall|held: Set<SpecToken>| a0.subset_of(held) implies
                #[trigger] parts_reads(kind, t0, j0, held) == parts_hold(kind, views_of(top@), views_of(current@), false, held) by {
                lemma_parts_reads_hold(kind, views_of(top@), views_of(current@), held);
            }
        }
    }
    (top, Some(current))
}

/// Simplifies the junction of kind `kind` over `children`, assuming that the tokens `assumed`
/// are held.
fn simplify_inner(
    kind: JunctionType,
    children: &Vec<AccessExpression>,
    assumed: &Vec<AccessToken>,
) -> (r: AccessExpression)
    ensures
        normal(r@),
        in_order(r@),
        lean(r@),
        forall|t: SpecToken| #[trigger] tokens_in(r@).contains(t) ==> tokens_in_all(views_of(children@)).contains(t),
        forall|t: SpecToken| #[trigger] tokens_in(r@).contains(t) ==> !views_of(assumed@).contains(t),
        size(r@) <= size(junction(kind, views_of(children@))),
        reduced(r@),
        r@ == simplified_junction(kind, views_of(children@), views_of(assumed@)),
        reads_agree_given(r@, junction(kind, views_of(children@)), views_of(assumed@).to_set()),
    decreases sizes(views_of(children@)), 1int,
{
    let ghost cs = views_of(children@);
    let ghost av = views_of(assumed@);
    let ghost a0 = av.to_set();
    let ghost e = junction(kind, cs);
    let ghost g = gather(kind, cs);
    let (top, junctions, _found_empty) = flatten_and_collect(kind, clone_exprs(children));
    let ghost t0 = views_of(top@);
    let ghost j0 = views_of(junctions@);
    proof {
        lemma_gather_facts(kind, cs);
        lemma_sort_dedup::<AccessToken>(g.tokens);
    }
    let mut context = clone_tokens(assumed);
    if kind == JunctionType::And {
        let mut more = clone_tokens(&top);
        context.append(&mut more);
        proof {
            lemma_contains_append(av, t0);
        }
    }
    let ghost cv = views_of(context@);
    assert(kind == JunctionType::Or ==> cv =~= av);
    assert(kind == JunctionType::And ==> cv =~= av + t0);
    let (top1, squashed) = simplify_with_context(kind, &top, &context, &junctions);
    let ghost tv = views_of(top1@);
    match squashed {
        None => {
            proof {
                assert forall|held: Set<SpecToken>| a0.subset_of(held) implies
                    #[trigger] holds(SpecExpr::Empty, held) == reads_holds(e, held) by {
                    lemma_junction_reads(kind, cs, held);
                    lemma_parts_reads_same_tokens(kind, t0, g.tokens, j0, held);
                    assert(cv.to_set() =~= a0);
                    assert(parts_reads(kind, t0, j0, held));
                }
            }
            assert(tokens_in(SpecExpr::Empty) =~= Seq::<SpecToken>::empty());
            AccessExpression::Empty
        },
        Some(js) => {
            proof {
                assert forall|t: SpecToken| #[trigger] tokens_in_all(views_of(js@)).contains(t) implies !av.contains(t) by {
                    assert(!cv.contains(t));
                    if av.contains(t) {
                        lemma_contains_append(av, t0);
                    }
                }
            }
            let ghost jv = views_of(js@);
            proof {
                assert forall|a: int, b: int| 0 <= a < tv.len() && 0 <= b < tv.len() && a != b implies tv[a] != tv[b] by {
                    AccessToken::lemma_order_total(tv[a], tv[b]);
                    AccessToken::lemma_order_total(tv[b], tv[a]);
                }
            }
            let r = assemble(kind, top1, js, assumed);
            proof {
                assert forall|held: Set<SpecToken>| a0.subset_of(held) implies
                    #[trigger] holds(r@, held) == reads_holds(e, held) by {
                    lemma_junction_reads(kind, cs, held);
                    lemma_parts_reads_same_tokens(kind, t0, g.tokens, j0, held);
                    if kind == JunctionType::Or && tv.len() + jv.len() == 0 {
                        assert(t0.len() + j0.len() == 0);
                    } else if kind == JunctionType::Or || all_tokens_held(t0, held) {
                        assert forall|t: SpecToken| cv.to_set().contains(t) implies held.contains(t) by {
                            assert(cv.contains(t));
                            lemma_contains_append(av, t0);
                            if av.contains(t) {
                                assert(a0.contains(t));
                            } else {
                                let i = choose|i: int| 0 <= i < t0.len() && t0[i] == t;
                                assert(held.contains(t0[i]));
                            }
                        }
                        assert(parts_reads(kind, t0, j0, held) == parts_hold(kind, tv, jv, false, held));
                    } else {
                        let i = choose|i: int| 0 <= i < t0.len() && !held.contains(#[trigger] t0[i]);
                        assert(t0.contains(t0[i]));
                        assert(tv.contains(t0[i]));
                        let k = choose|k: int| 0 <= k < tv.len() && tv[k] == t0[i];
                        assert(!held.contains(tv[k]));
                    }
                }
                lemma_gather_tokens(kind, cs);
                assert forall|t: SpecToken| #[trigger] tokens_in(r@).contains(t) implies tokens_in_all(cs).contains(t) by {
                    if tv.contains(t) && !tokens_in_all(j0).contains(t) {
                        assert(t0.contains(t));
                        assert(g.tokens.contains(t));
                    }
                }
            }
            r
        },
    }
}


/// Rewrites an expression into a simpler one: nested junctions of one kind are merged, repeated
/// tokens and tokens that an enclosing conjunction already requires are left out, and junctions
/// that add nothing to their neighbours are dropped. The result is in normal shape, with the
/// children of every junction in canonical order, mentions no token that the expression does
/// not, and no conjunction in it repeats one of its tokens inside its junctions; in none of its
/// junctions is a junction child implied by another (as `implied_by_one` decides), nor, in a
/// disjunction, does one imply a token child ([`reduced`]); it is no larger than the expression.
/// It is satisfied exactly where the expression is as [`reads_holds`] reads it (the empty expression inside a disjunction counts as absent), so a
/// well-formed expression keeps its meaning. Exactly, the result is [`simplification`] of the
/// expression.
pub fn simplify(expression: &AccessExpression) -> (r: AccessExpression)
    ensures
        normal(r@),
        in_order(r@),
        lean(r@),
        forall|t: SpecToken| #[trigger] tokens_in(r@).contains(t) ==> tokens_in(expression@).contains(t),
        size(r@) <= size(expression@),
        r@ == simplification(expression@),
        reduced(r@),
        forall|held: Set<SpecToken>| #[trigger] holds(r@, held) == reads_holds(expression@, held),
        well_formed(expression@) ==> equivalent(r@, expression@),
        expression@ is Empty ==> r@ == expression@,
        expression@ is Token ==> r@ == expression@,
{
    proof {
        lemma_expr_view_junction(*expression);
    }
    let nothing: Vec<AccessToken> = Vec::new();
    proof {
        assert(views_of(nothing@).to_set() =~= Set::<SpecToken>::empty());
        assert(views_of(nothing@) =~= Seq::<SpecToken>::empty());
    }
    let r = match expression {
        AccessExpression::Empty => AccessExpression::Empty,
        AccessExpression::Token(t) => AccessExpression::Token(t.clone()),
        AccessExpression::And(cs) => simplify_inner(JunctionType::And, cs, &nothing),
        AccessExpression::Or(cs) => simplify_inner(JunctionType::Or, cs, &nothing),
    };
    proof {
        assert forall|held: Set<SpecToken>| #[trigger] holds(r@, held) == reads_holds(expression@, held) by {
            assert(Set::<SpecToken>::empty().subset_of(held));
        }
        if well_formed(expression@) {
            assert forall|held: Set<SpecToken>| #[trigger] holds(r@, held) == holds(expression@, held) by {
                lemma_reads_well_formed(expression@, held);
            }
        }
    }
    r
}

impl AccessExpression {
    /// This expression, simplified; see [`simplify`].
    pub fn simplify(&self) -> (r: AccessExpression)
        ensures
            normal(r@),
            in_order(r@),
            lean(r@),
            forall|t: SpecToken| #[trigger] tokens_in(r@).contains(t) ==> tokens_in(self@).contains(t),
            size(r@) <= size(self@),
            r@ == simplification(self@),
            reduced(r@),
            forall|held: Set<SpecToken>| #[trigger] holds(r@, held) == reads_holds(self@, held),
            well_formed(self@) ==> equivalent(r@, self@),
            self@ is Empty ==> r@ == self@,
            self@ is Token ==> r@ == self@,
    {
        simplify(self)
    }
}

} // verus!
