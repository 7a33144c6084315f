//! Finding the junctions of a junction that add nothing to it: those implied by a neighbour
//! (or, in a disjunction, that imply one of its tokens).
use vstd::prelude::*;
use std::collections::HashSet;
use crate::model::{SpecToken, SpecExpr, JunctionType, holds, any_holds, entails, lemma_holds_junction};
use crate::types::{AccessToken, AccessExpression, views_of, lemma_expr_view_junction};
use crate::shape::some_token_held;
use crate::implied::{implied_by_one, is_implied_by_one, lemma_implied_by_one_sound, lemma_some_child_by_one_iff};
use crate::shape::{gather, gather_one};
use crate::sort::{sort_seq, lemma_sort_contents, lemma_sort_no_duplicates};

verus! {

/// The disjunction of the tokens `ts`.
pub open spec fn any_of_tokens(ts: Seq<SpecToken>) -> SpecExpr {
    SpecExpr::Or(Seq::new(ts.len(), |i: int| SpecExpr::Token(ts[i])))
}

/// Junction `x` of `js` may be left out of a junction of kind `kind` for junction `y`: in a
/// conjunction, `y` entails `x`; in a disjunction, `x` entails `y`.
pub open spec fn covered_by(kind: JunctionType, js: Seq<SpecExpr>, x: int, y: int) -> bool {
    match kind {
        JunctionType::And => entails(js[y], js[x]),
        JunctionType::Or => entails(js[x], js[y]),
    }
}

/// Junction `x` of `js` may be left out: in a disjunction it entails `top`, or some junction
/// that stays covers it.
pub open spec fn justified(kind: JunctionType, js: Seq<SpecExpr>, dropped: Seq<bool>, top: SpecExpr, x: int) -> bool {
    (kind == JunctionType::Or && entails(js[x], top)) || exists|y: int|
        0 <= y < js.len() && !dropped[y] && #[trigger] covered_by(kind, js, x, y)
}

/// Every junction marked as dropped may be left out.
pub open spec fn all_justified(kind: JunctionType, js: Seq<SpecExpr>, dropped: Seq<bool>, top: SpecExpr) -> bool {
    forall|x: int| 0 <= x < js.len() && dropped[x] ==> #[trigger] justified(kind, js, dropped, top, x)
}

proof fn lemma_mark(kind: JunctionType, js: Seq<SpecExpr>, dropped: Seq<bool>, top: SpecExpr, m: int, w: int)
    requires
        dropped.len() == js.len(),
        all_justified(kind, js, dropped, top),
        0 <= m < js.len(),
        0 <= w < js.len(),
        w != m,
        !dropped[w],
        covered_by(kind, js, m, w),
    ensures
        all_justified(kind, js, dropped.update(m, true), top),
{
    let d2 = dropped.update(m, true);
    assert forall|x: int| 0 <= x < js.len() && d2[x] implies #[trigger] justified(kind, js, d2, top, x) by {
        if x == m {
            assert(covered_by(kind, js, x, w));
        } else {
            assert(dropped[x]);
            assert(justified(kind, js, dropped, top, x));
            if !(kind == JunctionType::Or && entails(js[x], top)) {
                let y = choose|y: int| 0 <= y < js.len() && !dropped[y] && #[trigger] covered_by(kind, js, x, y);
                if y == m {
                    assert(covered_by(kind, js, x, w)) by {
                        if kind == JunctionType::And {
                            assert forall|held: Set<SpecToken>| #[trigger] holds(js[w], held) implies holds(js[x], held) by {
                                assert(holds(js[m], held));
                            }
                        } else {
                            assert forall|held: Set<SpecToken>| #[trigger] holds(js[x], held) implies holds(js[w], held) by {
                                assert(holds(js[m], held));
                            }
                        }
                    }
                } else {
                    assert(covered_by(kind, js, x, y));
                }
            }
        }
    }
}

proof fn lemma_mark_top(js: Seq<SpecExpr>, dropped: Seq<bool>, top: SpecExpr, m: int)
    requires
        dropped.len() == js.len(),
        all_justified(JunctionType::Or, js, dropped, top),
        0 <= m < js.len(),
        entails(js[m], top),
    ensures
        all_justified(JunctionType::Or, js, dropped.update(m, true), top),
{
    let d2 = dropped.update(m, true);
    assert forall|x: int| 0 <= x < js.len() && d2[x] implies #[trigger] justified(JunctionType::Or, js, d2, top, x) by {
        if x != m {
            assert(dropped[x]);
            assert(justified(JunctionType::Or, js, dropped, top, x));
            if !entails(js[x], top) {
                let y = choose|y: int| 0 <= y < js.len() && !dropped[y] && #[trigger] covered_by(JunctionType::Or, js, x, y);
                if y == m {
                    assert forall|held: Set<SpecToken>| #[trigger] holds(js[x], held) implies holds(top, held) by {
                        assert(holds(js[m], held));
                    }
                } else {
                    assert(covered_by(JunctionType::Or, js, x, y));
                }
            }
        }
    }
}

/// The marks after junction `i` of `js` is held against the earlier junctions `j..i` that are
/// not marked, one by one, until it is marked itself: in a conjunction, of `i` and `j`, the one
/// that the other implies is marked; in a disjunction, the one that implies the other.
pub open spec fn scan_against(kind: JunctionType, js: Seq<SpecExpr>, i: int, j: int, dropped: Seq<bool>) -> Seq<bool>
    decreases i - j,
{
    if j >= i || dropped[i] {
        dropped
    } else if dropped[j] {
        scan_against(kind, js, i, j + 1, dropped)
    } else {
        let i_implies_j = implied_by_one(js[j], js[i]);
        let j_implies_i = implied_by_one(js[i], js[j]);
        let next = match kind {
            JunctionType::And => if i_implies_j {
                dropped.update(j, true)
            } else if j_implies_i {
                dropped.update(i, true)
            } else {
                dropped
            },
            JunctionType::Or => if i_implies_j {
                dropped.update(i, true)
            } else if j_implies_i {
                dropped.update(j, true)
            } else {
                dropped
            },
        };
        scan_against(kind, js, i, j + 1, next)
    }
}

/// The marks after the junctions of `js` from `i` on are taken in turn: in a disjunction, one
/// that implies `top` is marked; any other is held against the earlier ones.
pub open spec fn scan_from(kind: JunctionType, js: Seq<SpecExpr>, top: SpecExpr, i: int, dropped: Seq<bool>) -> Seq<bool>
    decreases js.len() - i,
{
    if i < 0 || i >= js.len() {
        dropped
    } else if kind == JunctionType::Or && implied_by_one(top, js[i]) {
        scan_from(kind, js, top, i + 1, dropped.update(i, true))
    } else {
        scan_from(kind, js, top, i + 1, scan_against(kind, js, i, 0, dropped))
    }
}

/// Which junctions of `js` a junction of kind `kind` with the tokens whose disjunction is `top`
/// leaves out: the marks of the scan over them, starting with none.
pub open spec fn redundant_marks(kind: JunctionType, js: Seq<SpecExpr>, top: SpecExpr) -> Seq<bool> {
    scan_from(kind, js, top, 0, Seq::new(js.len(), |k: int| false))
}

/// The disjunction of the given tokens.
fn tokens_disjunction(tokens: &Vec<AccessToken>) -> (r: AccessExpression)
    ensures
        r@ == any_of_tokens(views_of(tokens@)),
{
    let mut out: Vec<AccessExpression> = Vec::new();
    let mut i: usize = 0;
    while i < tokens.len()
        invariant
            i <= tokens.len(),
            out.len() == i,
            forall|k: int| 0 <= k < i ==> (#[trigger] out@[k])@ == SpecExpr::Token(tokens@[k]@),
        decreases tokens.len() - i,
    {
        let e = AccessExpression::Token(tokens[i].clone());
        proof {
            lemma_expr_view_junction(e);
        }
        out.push(e);
        i += 1;
    }
    assert(views_of(out@) =~= Seq::new(tokens@.len(), |k: int| SpecExpr::Token(views_of(tokens@)[k])));
    let r = AccessExpression::Or(out);
    proof {
        lemma_expr_view_junction(r);
    }
    r
}

/// The marks of [`redundant_marks`], as flags, with what they guarantee.
fn redundant_flags(
    kind: JunctionType,
    junctions: &Vec<AccessExpression>,
    top_tokens: &Vec<AccessToken>,
) -> (dropped: Vec<bool>)
    ensures
        dropped.len() == junctions.len(),
        dropped@ == redundant_marks(kind, views_of(junctions@), any_of_tokens(views_of(top_tokens@))),
        all_justified(kind, views_of(junctions@), dropped@, any_of_tokens(views_of(top_tokens@))),
        forall|x: int, y: int|
            #![trigger dropped@[x], dropped@[y]]
            0 <= x < dropped.len() && 0 <= y < dropped.len() && x != y && !dropped@[x] && !dropped@[y]
                ==> !implied_by_one(views_of(junctions@)[x], views_of(junctions@)[y]),
        kind == JunctionType::Or ==> forall|x: int| 0 <= x < dropped.len() && !(#[trigger] dropped@[x])
            ==> !implied_by_one(any_of_tokens(views_of(top_tokens@)), views_of(junctions@)[x]),
{
    let ghost js = views_of(junctions@);
    let top = tokens_disjunction(top_tokens);
    let ghost tv = top@;
    let n = junctions.len();
    let mut dropped: Vec<bool> = Vec::new();
    let mut k: usize = 0;
    while k < n
        invariant
            n == junctions.len(),
            k <= n,
            dropped.len() == k,
            forall|x: int| 0 <= x < k ==> !(#[trigger] dropped@[x]),
        decreases n - k,
    {
        dropped.push(false);
        k += 1;
    }
    assert(dropped@ =~= Seq::new(js.len(), |k: int| false));
    let ghost marks = redundant_marks(kind, js, tv);
    let mut i: usize = 0;
    while i < n
        invariant
            marks == redundant_marks(kind, js, tv),
            scan_from(kind, js, tv, i as int, dropped@) == marks,
            n == junctions.len(),
            js == views_of(junctions@),
            tv == top@,
            i <= n,
            dropped.len() == n,
            forall|x: int| i <= x < n ==> !(#[trigger] dropped@[x]),
            all_justified(kind, js, dropped@, tv),
            forall|x: int, y: int|
                #![trigger dropped@[x], dropped@[y]]
                0 <= x < i && 0 <= y < i && x != y && !dropped@[x] && !dropped@[y] ==> !implied_by_one(js[x], js[y]),
            kind == JunctionType::Or ==> forall|x: int| 0 <= x < i && !(#[trigger] dropped@[x]) ==> !implied_by_one(tv, js[x]),
        decreases n - i,
    {
        let current = &junctions[i];
        assert(js[i as int] == current@);
        let mut skip = false;
        if kind == JunctionType::Or {
            let implied_top = is_implied_by_one(&top, current);
            if implied_top {
                proof {
                    assert forall|held: Set<SpecToken>| #[trigger] holds(js[i as int], held) implies holds(tv, held) by {
                        lemma_implied_by_one_sound(tv, js[i as int], held);
                    }
                    lemma_mark_top(js, dropped@, tv, i as int);
                }
                dropped.set(i, true);
                skip = true;
            }
            proof {
                if !implied_top {
                    assert(!implied_by_one(tv, js[i as int]));
                }
            }
        }
        let ghost at_start = dropped@;
        if !skip {
            let mut j: usize = 0;
            while j < i && !dropped[i]
                invariant
                    scan_against(kind, js, i as int, j as int, dropped@) == scan_against(kind, js, i as int, 0, at_start),
                    dropped.len() == n,
                    n == junctions.len(),
                    js == views_of(junctions@),
                    tv == top@,
                    j <= i < n,
                    current@ == js[i as int],
                    dropped.len() == n,
                    forall|x: int| i < x < n ==> !(#[trigger] dropped@[x]),
                    all_justified(kind, js, dropped@, tv),
                    forall|x: int, y: int|
                        #![trigger dropped@[x], dropped@[y]]
                        0 <= x < i && 0 <= y < i && x != y && !dropped@[x] && !dropped@[y] ==> !implied_by_one(js[x], js[y]),
                    kind == JunctionType::Or ==> forall|x: int| 0 <= x < i && !(#[trigger] dropped@[x]) ==> !implied_by_one(tv, js[x]),
                    kind == JunctionType::Or ==> !implied_by_one(tv, js[i as int]),
                    !dropped@[i as int] ==> forall|y: int| 0 <= y < j && !(#[trigger] dropped@[y])
                        ==> !implied_by_one(js[i as int], js[y]) && !implied_by_one(js[y], js[i as int]),
                decreases i - j,
            {
                if !dropped[j] {
                    let other = &junctions[j];
                    assert(js[j as int] == other@);
                    let i_implies_j = is_implied_by_one(other, current);
                    let j_implies_i = is_implied_by_one(current, other);
                    proof {
                        if i_implies_j {
                            assert forall|held: Set<SpecToken>| #[trigger] holds(js[i as int], held) implies holds(js[j as int], held) by {
                                lemma_implied_by_one_sound(js[j as int], js[i as int], held);
                            }
                        }
                        if j_implies_i {
                            assert forall|held: Set<SpecToken>| #[trigger] holds(js[j as int], held) implies holds(js[i as int], held) by {
                                lemma_implied_by_one_sound(js[i as int], js[j as int], held);
                            }
                        }
                    }
                    match kind {
                        JunctionType::And => {
                            if i_implies_j {
                                proof {
                                    assert(covered_by(kind, js, j as int, i as int));
                                    lemma_mark(kind, js, dropped@, tv, j as int, i as int);
                                }
                                dropped.set(j, true);
                            } else if j_implies_i {
                                proof {
                                    assert(covered_by(kind, js, i as int, j as int));
                                    lemma_mark(kind, js, dropped@, tv, i as int, j as int);
                                }
                                dropped.set(i, true);
                            }
                        },
                        JunctionType::Or => {
                            if i_implies_j {
                                proof {
                                    assert(covered_by(kind, js, i as int, j as int));
                                    lemma_mark(kind, js, dropped@, tv, i as int, j as int);
                                }
                                dropped.set(i, true);
                            } else if j_implies_i {
                                proof {
                                    assert(covered_by(kind, js, j as int, i as int));
                                    lemma_mark(kind, js, dropped@, tv, j as int, i as int);
                                }
                                dropped.set(j, true);
                            }
                        },
                    }
                }
                j += 1;
            }
        }
        i += 1;
    }
    dropped
}

/// The indices of the junctions of `junctions` that may be left out of a junction of kind
/// `kind` that also holds the tokens `top_tokens` (exactly those of [`redundant_marks`]): in a disjunction, one that implies one of the tokens;
/// and of two junctions where one implies the other, the one that adds nothing (the weaker in
/// a conjunction, the stronger in a disjunction). Junctions are taken in turn, each against
/// the earlier ones still kept; so of the junctions kept, none is implied by another one (as
/// [`implied_by_one`] decides), and in a disjunction none implies the disjunction of the tokens.
pub fn identify_redundant_junctions(
    kind: JunctionType,
    junctions: &Vec<AccessExpression>,
    top_tokens: &Vec<AccessToken>,
) -> (redundant: HashSet<usize>)
    ensures
        forall|i: usize| #[trigger] redundant@.contains(i) <==> (i < junctions.len() && redundant_marks(kind, views_of(junctions@), any_of_tokens(views_of(top_tokens@)))[i as int]),
        redundant_marks(kind, views_of(junctions@), any_of_tokens(views_of(top_tokens@))).len() == junctions.len(),
        all_justified(kind, views_of(junctions@), redundant_marks(kind, views_of(junctions@), any_of_tokens(views_of(top_tokens@))), any_of_tokens(views_of(top_tokens@))),
        forall|x: int, y: int|
            #![trigger redundant_marks(kind, views_of(junctions@), any_of_tokens(views_of(top_tokens@)))[x], redundant_marks(kind, views_of(junctions@), any_of_tokens(views_of(top_tokens@)))[y]]
            0 <= x < junctions.len() && 0 <= y < junctions.len() && x != y && !redundant_marks(kind, views_of(junctions@), any_of_tokens(views_of(top_tokens@)))[x] && !redundant_marks(kind, views_of(junctions@), any_of_tokens(views_of(top_tokens@)))[y]
                ==> !implied_by_one(views_of(junctions@)[x], views_of(junctions@)[y]),
        kind == JunctionType::Or ==> forall|x: int| 0 <= x < junctions.len() && !(#[trigger] redundant_marks(kind, views_of(junctions@), any_of_tokens(views_of(top_tokens@)))[x])
            ==> !implied_by_one(any_of_tokens(views_of(top_tokens@)), views_of(junctions@)[x]),
{
    broadcast use vstd::std_specs::hash::axiom_usize_obeys_hash_table_key_model,
        vstd::std_specs::hash::axiom_random_state_builds_valid_hashers;
    let flags = redundant_flags(kind, junctions, top_tokens);
    let mut redundant: HashSet<usize> = HashSet::new();
    let mut i: usize = 0;
    while i < flags.len()
        invariant
            i <= flags.len(),
            forall|x: usize| #[trigger] redundant@.contains(x) <==> (x < i && flags@[x as int]),
        decreases flags.len() - i,
    {
        if flags[i] {
            redundant.insert(i);
        }
        i += 1;
    }
    redundant
}

/// How the disjunction of some tokens is satisfied.
pub proof fn lemma_any_of_tokens(ts: Seq<SpecToken>, held: Set<SpecToken>)
    ensures
        holds(any_of_tokens(ts), held) == some_token_held(ts, held),
{
    let cs = Seq::new(ts.len(), |i: int| SpecExpr::Token(ts[i]));
    lemma_holds_junction(cs, held);
    if any_holds(cs, held) {
        let i = choose|i: int| 0 <= i < cs.len() && #[trigger] holds(cs[i], held);
        assert(held.contains(ts[i]));
    }
    if some_token_held(ts, held) {
        let i = choose|i: int| 0 <= i < ts.len() && held.contains(#[trigger] ts[i]);
        assert(holds(cs[i], held));
    }
}

/// Among the children `cs` of a junction of kind `kind`, no junction is implied (as
/// [`implied_by_one`] decides) by another junction, and in a disjunction no junction implies
/// one of the tokens.
pub open spec fn siblings_reduced(kind: JunctionType, cs: Seq<SpecExpr>) -> bool {
    &&& forall|i: int, j: int|
        #![trigger cs[i], cs[j]]
        0 <= i < cs.len() && 0 <= j < cs.len() && i != j && !(cs[i] is Token) && !(cs[j] is Token)
            ==> !implied_by_one(cs[i], cs[j])
    &&& kind == JunctionType::Or ==> forall|i: int, j: int|
        #![trigger cs[i], cs[j]]
        0 <= i < cs.len() && 0 <= j < cs.len() && cs[i] is Token && !(cs[j] is Token)
            ==> !implied_by_one(cs[i], cs[j])
}

/// In every junction of `e`, no child adds nothing in the sense of [`siblings_reduced`].
pub open spec fn reduced(e: SpecExpr) -> bool
    decreases e,
{
    match e {
        SpecExpr::And(cs) => siblings_reduced(JunctionType::And, cs) && all_reduced(cs),
        SpecExpr::Or(cs) => siblings_reduced(JunctionType::Or, cs) && all_reduced(cs),
        _ => true,
    }
}

/// Every expression of `cs` is reduced.
pub open spec fn all_reduced(cs: Seq<SpecExpr>) -> bool
    decreases cs,
{
    if cs.len() == 0 {
        true
    } else {
        all_reduced(cs.subrange(0, cs.len() - 1)) && reduced(cs[cs.len() - 1])
    }
}

pub proof fn lemma_all_reduced(cs: Seq<SpecExpr>)
    ensures
        all_reduced(cs) == forall|i: int| 0 <= i < cs.len() ==> #[trigger] reduced(cs[i]),
    decreases cs.len(),
{
    if cs.len() > 0 {
        let init = cs.subrange(0, cs.len() - 1);
        lemma_all_reduced(init);
        assert forall|i: int| 0 <= i < init.len() implies #[trigger] init[i] == cs[i] by {}
        if forall|i: int| 0 <= i < cs.len() ==> #[trigger] reduced(cs[i]) {
            assert(reduced(cs[cs.len() - 1]));
            assert forall|i: int| 0 <= i < init.len() implies #[trigger] reduced(init[i]) by {
                assert(reduced(cs[i]));
            }
        }
        if all_reduced(init) && reduced(cs[cs.len() - 1]) {
            assert forall|i: int| 0 <= i < cs.len() implies #[trigger] reduced(cs[i]) by {
                if i < cs.len() - 1 {
                    assert(reduced(init[i]));
                }
            }
        }
    }
}

/// Flattening reduced expressions collects reduced junctions.
pub proof fn lemma_gather_reduced(kind: JunctionType, items: Seq<SpecExpr>)
    requires
        forall|i: int| 0 <= i < items.len() ==> #[trigger] reduced(items[i]),
    ensures
        forall|i: int| 0 <= i < gather(kind, items).junctions.len() ==> #[trigger] reduced(gather(kind, items).junctions[i]),
    decreases items,
{
    if items.len() > 0 {
        let init = items.subrange(0, items.len() - 1);
        let last = items[items.len() - 1];
        assert forall|i: int| 0 <= i < init.len() implies #[trigger] reduced(init[i]) by {
            assert(init[i] == items[i]);
        }
        lemma_gather_reduced(kind, init);
        lemma_gather_one_reduced(kind, last);
        let a = gather(kind, init);
        let b = gather_one(kind, last);
        let g = gather(kind, items);
        assert forall|i: int| 0 <= i < g.junctions.len() implies #[trigger] reduced(g.junctions[i]) by {
            if i < a.junctions.len() {
                assert(g.junctions[i] == a.junctions[i]);
            } else {
                assert(g.junctions[i] == b.junctions[i - a.junctions.len()]);
            }
        }
    }
}

/// Flattening one reduced child collects reduced junctions.
pub proof fn lemma_gather_one_reduced(kind: JunctionType, x: SpecExpr)
    requires
        reduced(x),
    ensures
        forall|i: int| 0 <= i < gather_one(kind, x).junctions.len() ==> #[trigger] reduced(gather_one(kind, x).junctions[i]),
    decreases x,
{
    let g = gather_one(kind, x);
    match x {
        SpecExpr::And(cs) => {
            if kind == JunctionType::And {
                assert(all_reduced(cs));
                lemma_all_reduced(cs);
                lemma_gather_reduced(kind, cs);
                assert(g == gather(kind, cs));
            } else {
                assert(g.junctions =~= seq![x]);
                assert(g.junctions.len() == 1);
                assert(g.junctions[0] == x);
                assert(reduced(g.junctions[0]));
            }
        },
        SpecExpr::Or(cs) => {
            if kind == JunctionType::Or {
                assert(all_reduced(cs));
                lemma_all_reduced(cs);
                lemma_gather_reduced(kind, cs);
                assert(g == gather(kind, cs));
            } else {
                assert(g.junctions =~= seq![x]);
                assert(g.junctions.len() == 1);
                assert(g.junctions[0] == x);
                assert(reduced(g.junctions[0]));
            }
        },
        _ => {},
    }
}

/// A junction implied by one of some tokens is implied by their disjunction.
pub proof fn lemma_token_implied_any(ts: Seq<SpecToken>, i: int, q: SpecExpr)
    requires
        0 <= i < ts.len(),
        implied_by_one(SpecExpr::Token(ts[i]), q),
    ensures
        implied_by_one(any_of_tokens(ts), q),
{
    let rc = Seq::new(ts.len(), |k: int| SpecExpr::Token(ts[k]));
    assert(rc[i] == SpecExpr::Token(ts[i]));
    lemma_some_child_by_one_iff(rc, q);
}

/// Junctions that sorting children may rearrange keep the property.
pub proof fn lemma_sorted_reduced(kind: JunctionType, sv: Seq<SpecExpr>, ss: Seq<SpecExpr>)
    requires
        ss == sort_seq::<AccessExpression>(sv),
        sv.no_duplicates(),
        siblings_reduced(kind, sv),
        forall|k: int| 0 <= k < sv.len() ==> #[trigger] reduced(sv[k]),
    ensures
        siblings_reduced(kind, ss),
        forall|k: int| 0 <= k < ss.len() ==> #[trigger] reduced(ss[k]),
{
    lemma_sort_contents::<AccessExpression>(sv);
    lemma_sort_no_duplicates::<AccessExpression>(sv);
    assert forall|k: int| 0 <= k < ss.len() implies #[trigger] reduced(ss[k]) by {
        assert(ss.contains(ss[k]));
        let a = choose|a: int| 0 <= a < sv.len() && sv[a] == ss[k];
        assert(reduced(sv[a]));
    }
    assert forall|i: int, j: int|
        0 <= i < ss.len() && 0 <= j < ss.len() && i != j && !(ss[i] is Token) && !(ss[j] is Token)
        implies !implied_by_one(ss[i], ss[j]) by {
        assert(ss.contains(ss[i]));
        assert(ss.contains(ss[j]));
        let a = choose|a: int| 0 <= a < sv.len() && sv[a] == ss[i];
        let b = choose|b: int| 0 <= b < sv.len() && sv[b] == ss[j];
        assert(sv[a] != sv[b]);
    }
    if kind == JunctionType::Or {
        assert forall|i: int, j: int|
            0 <= i < ss.len() && 0 <= j < ss.len() && ss[i] is Token && !(ss[j] is Token)
            implies !implied_by_one(ss[i], ss[j]) by {
            assert(ss.contains(ss[i]));
            assert(ss.contains(ss[j]));
            let a = choose|a: int| 0 <= a < sv.len() && sv[a] == ss[i];
            let b = choose|b: int| 0 <= b < sv.len() && sv[b] == ss[j];
            assert(sv[a] is Token && !(sv[b] is Token));
        }
    }
}

} // verus!
