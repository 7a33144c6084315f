//! Shapes of expressions: the ones that simplification accepts and the ones it produces, and
//! what flattening a junction collects.
use vstd::prelude::*;
use crate::model::{
    SpecToken, SpecExpr, JunctionType, junction, is_junction, children, holds, all_hold, any_holds,
    size, sizes, lemma_holds_junction, lemma_sizes_append, lemma_sizes_push,
};
use crate::types::AccessExpression;
use crate::mentions::tokens_in;
use crate::order::TotalOrder;
use crate::sort::{insert_sorted, sort_seq, dedup_seq, is_sorted};

verus! {

/// An expression that simplification can work on: no disjunction is without children, and the
/// empty expression appears in no disjunction.
pub open spec fn well_formed(e: SpecExpr) -> bool
    decreases e,
{
    match e {
        SpecExpr::Empty => true,
        SpecExpr::Token(_) => true,
        SpecExpr::And(cs) => all_well_formed(cs),
        SpecExpr::Or(cs) => cs.len() > 0 && no_empty(cs) && all_well_formed(cs),
    }
}

/// Every expression of `cs` is well formed.
pub open spec fn all_well_formed(cs: Seq<SpecExpr>) -> bool
    decreases cs,
{
    if cs.len() == 0 {
        true
    } else {
        all_well_formed(cs.subrange(0, cs.len() - 1)) && well_formed(cs[cs.len() - 1])
    }
}

/// No expression of `cs` is the empty expression.
pub open spec fn no_empty(cs: Seq<SpecExpr>) -> bool {
    forall|i: int| 0 <= i < cs.len() ==> !(#[trigger] cs[i] is Empty)
}

/// An expression in the shape that simplification produces: a junction has at least two
/// children, each of them a token or a junction of the other kind in this shape.
pub open spec fn normal(e: SpecExpr) -> bool
    decreases e,
{
    match e {
        SpecExpr::Empty => true,
        SpecExpr::Token(_) => true,
        SpecExpr::And(cs) => cs.len() >= 2 && normal_children(JunctionType::And, cs),
        SpecExpr::Or(cs) => cs.len() >= 2 && normal_children(JunctionType::Or, cs),
    }
}

/// Each of `cs` is a token, or a junction of the kind other than `kind` in normal shape.
pub open spec fn normal_children(kind: JunctionType, cs: Seq<SpecExpr>) -> bool
    decreases cs,
{
    if cs.len() == 0 {
        true
    } else {
        normal_children(kind, cs.subrange(0, cs.len() - 1)) && (cs[cs.len() - 1] is Token || (is_junction(
            kind.flip(),
            cs[cs.len() - 1],
        ) && normal(cs[cs.len() - 1])))
    }
}

/// `c` is a token, or a junction of the kind other than `kind` in normal shape.
pub open spec fn normal_child(kind: JunctionType, c: SpecExpr) -> bool {
    c is Token || (is_junction(kind.flip(), c) && normal(c))
}

pub proof fn lemma_all_well_formed(cs: Seq<SpecExpr>)
    ensures
        all_well_formed(cs) == forall|i: int| 0 <= i < cs.len() ==> #[trigger] well_formed(cs[i]),
    decreases cs.len(),
{
    if cs.len() > 0 {
        let init = cs.subrange(0, cs.len() - 1);
        lemma_all_well_formed(init);
        assert forall|i: int| 0 <= i < init.len() implies #[trigger] init[i] == cs[i] by {}
        assert(all_well_formed(cs) == (all_well_formed(init) && well_formed(cs[cs.len() - 1])));
        if forall|i: int| 0 <= i < cs.len() ==> #[trigger] well_formed(cs[i]) {
            assert(well_formed(cs[cs.len() - 1]));
            assert forall|i: int| 0 <= i < init.len() implies #[trigger] well_formed(init[i]) by {
                assert(well_formed(cs[i]));
            }
        }
        if all_well_formed(init) && well_formed(cs[cs.len() - 1]) {
            assert forall|i: int| 0 <= i < cs.len() implies #[trigger] well_formed(cs[i]) by {
                if i < cs.len() - 1 {
                    assert(well_formed(init[i]));
                }
            }
        }
    }
}

pub proof fn lemma_normal_children(kind: JunctionType, cs: Seq<SpecExpr>)
    ensures
        normal_children(kind, cs) == forall|i: int| 0 <= i < cs.len() ==> #[trigger] normal_child(kind, cs[i]),
    decreases cs.len(),
{
    if cs.len() > 0 {
        let init = cs.subrange(0, cs.len() - 1);
        lemma_normal_children(kind, init);
        assert forall|i: int| 0 <= i < init.len() implies #[trigger] init[i] == cs[i] by {}
        assert(normal_children(kind, cs) == (normal_children(kind, init) && normal_child(kind, cs[cs.len() - 1])));
        if forall|i: int| 0 <= i < cs.len() ==> #[trigger] normal_child(kind, cs[i]) {
            assert(normal_child(kind, cs[cs.len() - 1]));
            assert forall|i: int| 0 <= i < init.len() implies #[trigger] normal_child(kind, init[i]) by {
                assert(normal_child(kind, cs[i]));
            }
        }
        if normal_children(kind, init) && normal_child(kind, cs[cs.len() - 1]) {
            assert forall|i: int| 0 <= i < cs.len() implies #[trigger] normal_child(kind, cs[i]) by {
                if i < cs.len() - 1 {
                    assert(normal_child(kind, init[i]));
                }
            }
        }
    }
}

/// An expression in normal shape is well formed.
pub proof fn lemma_normal_well_formed(e: SpecExpr)
    requires
        normal(e),
    ensures
        well_formed(e),
    decreases e,
{
    match e {
        SpecExpr::And(cs) => {
            lemma_normal_children(JunctionType::And, cs);
            assert forall|i: int| 0 <= i < cs.len() implies #[trigger] well_formed(cs[i]) by {
                assert(normal_child(JunctionType::And, cs[i]));
                crate::model::lemma_spec_child_decreases(e, i);
                if !(cs[i] is Token) {
                    lemma_normal_well_formed(cs[i]);
                }
            }
            lemma_all_well_formed(cs);
        },
        SpecExpr::Or(cs) => {
            lemma_normal_children(JunctionType::Or, cs);
            assert forall|i: int| 0 <= i < cs.len() implies #[trigger] well_formed(cs[i]) by {
                assert(normal_child(JunctionType::Or, cs[i]));
                crate::model::lemma_spec_child_decreases(e, i);
                if !(cs[i] is Token) {
                    lemma_normal_well_formed(cs[i]);
                }
            }
            assert forall|i: int| 0 <= i < cs.len() implies !(#[trigger] cs[i] is Empty) by {
                assert(normal_child(JunctionType::Or, cs[i]));
            }
            lemma_all_well_formed(cs);
        },
        _ => {},
    }
}

/// Holding every token there is satisfies every well-formed expression.
pub proof fn lemma_well_formed_satisfiable(e: SpecExpr)
    requires
        well_formed(e),
    ensures
        holds(e, Set::full()),
    decreases e,
{
    match e {
        SpecExpr::And(cs) => {
            lemma_all_well_formed(cs);
            assert forall|i: int| 0 <= i < cs.len() implies #[trigger] holds(cs[i], Set::full()) by {
                crate::model::lemma_spec_child_decreases(e, i);
                lemma_well_formed_satisfiable(cs[i]);
            }
            lemma_holds_junction(cs, Set::full());
        },
        SpecExpr::Or(cs) => {
            lemma_all_well_formed(cs);
            crate::model::lemma_spec_child_decreases(e, 0);
            lemma_well_formed_satisfiable(cs[0]);
            lemma_holds_junction(cs, Set::full());
        },
        _ => {},
    }
}

/// What flattening a junction's children collects.
pub struct Gathered {
    /// The tokens among the children, and among the children of nested junctions of the same kind.
    pub tokens: Seq<SpecToken>,
    /// The junctions of the other kind found there.
    pub junctions: Seq<SpecExpr>,
    /// Whether the empty expression was found there.
    pub empty: bool,
}

pub open spec fn nothing_gathered() -> Gathered {
    Gathered { tokens: Seq::empty(), junctions: Seq::empty(), empty: false }
}

pub open spec fn merge(a: Gathered, b: Gathered) -> Gathered {
    Gathered { tokens: a.tokens + b.tokens, junctions: a.junctions + b.junctions, empty: a.empty || b.empty }
}

/// What flattening the children `items` of a junction of kind `kind` collects, in order.
pub open spec fn gather(kind: JunctionType, items: Seq<SpecExpr>) -> Gathered
    decreases items,
{
    if items.len() == 0 {
        nothing_gathered()
    } else {
        merge(gather(kind, items.subrange(0, items.len() - 1)), gather_one(kind, items[items.len() - 1]))
    }
}

/// What flattening one child `x` of a junction of kind `kind` collects.
pub open spec fn gather_one(kind: JunctionType, x: SpecExpr) -> Gathered
    decreases x,
{
    match x {
        SpecExpr::Empty => Gathered { tokens: Seq::empty(), junctions: Seq::empty(), empty: true },
        SpecExpr::Token(t) => Gathered { tokens: seq![t], junctions: Seq::empty(), empty: false },
        SpecExpr::And(cs) => if kind == JunctionType::And {
            gather(kind, cs)
        } else {
            Gathered { tokens: Seq::empty(), junctions: seq![x], empty: false }
        },
        SpecExpr::Or(cs) => if kind == JunctionType::Or {
            gather(kind, cs)
        } else {
            Gathered { tokens: Seq::empty(), junctions: seq![x], empty: false }
        },
    }
}

/// Every token of `ts` is held.
pub open spec fn all_tokens_held(ts: Seq<SpecToken>, held: Set<SpecToken>) -> bool {
    forall|i: int| 0 <= i < ts.len() ==> held.contains(#[trigger] ts[i])
}

/// Some token of `ts` is held.
pub open spec fn some_token_held(ts: Seq<SpecToken>, held: Set<SpecToken>) -> bool {
    exists|i: int| 0 <= i < ts.len() && held.contains(#[trigger] ts[i])
}

/// Whether a junction of kind `kind` over the tokens `ts`, the junctions `js` and, where
/// `empty`, the empty expression, is satisfied.
pub open spec fn parts_hold(
    kind: JunctionType,
    ts: Seq<SpecToken>,
    js: Seq<SpecExpr>,
    empty: bool,
    held: Set<SpecToken>,
) -> bool {
    match kind {
        JunctionType::And => all_tokens_held(ts, held) && all_hold(js, held),
        JunctionType::Or => empty || some_token_held(ts, held) || any_holds(js, held),
    }
}

pub proof fn lemma_tokens_append(a: Seq<SpecToken>, b: Seq<SpecToken>, held: Set<SpecToken>)
    ensures
        all_tokens_held(a + b, held) == (all_tokens_held(a, held) && all_tokens_held(b, held)),
        some_token_held(a + b, held) == (some_token_held(a, held) || some_token_held(b, held)),
{
    let m = a + b;
    if all_tokens_held(a, held) && all_tokens_held(b, held) {
        assert forall|i: int| 0 <= i < m.len() implies held.contains(#[trigger] m[i]) by {
            if i < a.len() {
                assert(m[i] == a[i]);
            } else {
                assert(m[i] == b[i - a.len()]);
            }
        }
    }
    if all_tokens_held(m, held) {
        assert forall|i: int| 0 <= i < a.len() implies held.contains(#[trigger] a[i]) by {
            assert(m[i] == a[i]);
        }
        assert forall|i: int| 0 <= i < b.len() implies held.contains(#[trigger] b[i]) by {
            assert(m[i + a.len()] == b[i]);
        }
    }
    if some_token_held(a, held) {
        let i = choose|i: int| 0 <= i < a.len() && held.contains(#[trigger] a[i]);
        assert(m[i] == a[i]);
    }
    if some_token_held(b, held) {
        let i = choose|i: int| 0 <= i < b.len() && held.contains(#[trigger] b[i]);
        assert(m[i + a.len()] == b[i]);
    }
    if some_token_held(m, held) {
        let i = choose|i: int| 0 <= i < m.len() && held.contains(#[trigger] m[i]);
        if i < a.len() {
            assert(m[i] == a[i]);
        } else {
            assert(m[i] == b[i - a.len()]);
        }
    }
}

pub proof fn lemma_holds_append(a: Seq<SpecExpr>, b: Seq<SpecExpr>, held: Set<SpecToken>)
    ensures
        all_hold(a + b, held) == (all_hold(a, held) && all_hold(b, held)),
        any_holds(a + b, held) == (any_holds(a, held) || any_holds(b, held)),
{
    let m = a + b;
    if all_hold(a, held) && all_hold(b, held) {
        assert forall|i: int| 0 <= i < m.len() implies #[trigger] holds(m[i], held) by {
            if i < a.len() {
                assert(m[i] == a[i]);
            } else {
                assert(m[i] == b[i - a.len()]);
            }
        }
    }
    if all_hold(m, held) {
        assert forall|i: int| 0 <= i < a.len() implies #[trigger] holds(a[i], held) by {
            assert(m[i] == a[i]);
        }
        assert forall|i: int| 0 <= i < b.len() implies #[trigger] holds(b[i], held) by {
            assert(m[i + a.len()] == b[i]);
        }
    }
    if any_holds(a, held) {
        let i = choose|i: int| 0 <= i < a.len() && #[trigger] holds(a[i], held);
        assert(m[i] == a[i]);
    }
    if any_holds(b, held) {
        let i = choose|i: int| 0 <= i < b.len() && #[trigger] holds(b[i], held);
        assert(m[i + a.len()] == b[i]);
    }
    if any_holds(m, held) {
        let i = choose|i: int| 0 <= i < m.len() && #[trigger] holds(m[i], held);
        if i < a.len() {
            assert(m[i] == a[i]);
        } else {
            assert(m[i] == b[i - a.len()]);
        }
    }
}

proof fn lemma_parts_merge(kind: JunctionType, a: Gathered, b: Gathered, held: Set<SpecToken>)
    ensures
        parts_hold(kind, merge(a, b).tokens, merge(a, b).junctions, merge(a, b).empty, held) == match kind {
            JunctionType::And => parts_hold(kind, a.tokens, a.junctions, a.empty, held) && parts_hold(
                kind,
                b.tokens,
                b.junctions,
                b.empty,
                held,
            ),
            JunctionType::Or => parts_hold(kind, a.tokens, a.junctions, a.empty, held) || parts_hold(
                kind,
                b.tokens,
                b.junctions,
                b.empty,
                held,
            ),
        },
{
    lemma_tokens_append(a.tokens, b.tokens, held);
    lemma_holds_append(a.junctions, b.junctions, held);
}

/// Flattening keeps the meaning of a junction: what it collects is satisfied exactly when the
/// junction is.
pub proof fn lemma_gather_holds(kind: JunctionType, items: Seq<SpecExpr>, held: Set<SpecToken>)
    ensures
        parts_hold(kind, gather(kind, items).tokens, gather(kind, items).junctions, gather(kind, items).empty, held)
            == holds(junction(kind, items), held),
    decreases items,
{
    lemma_holds_junction(items, held);
    if items.len() > 0 {
        let init = items.subrange(0, items.len() - 1);
        let last = items[items.len() - 1];
        lemma_gather_holds(kind, init, held);
        lemma_gather_one_holds(kind, last, held);
        lemma_parts_merge(kind, gather(kind, init), gather_one(kind, last), held);
        lemma_holds_junction(init, held);
        assert forall|i: int| 0 <= i < init.len() implies #[trigger] init[i] == items[i] by {}
        if kind == JunctionType::And {
            if all_hold(items, held) {
                assert forall|i: int| 0 <= i < init.len() implies #[trigger] holds(init[i], held) by {
                    assert(holds(items[i], held));
                }
            }
            if all_hold(init, held) && holds(last, held) {
                assert forall|i: int| 0 <= i < items.len() implies #[trigger] holds(items[i], held) by {
                    if i < init.len() {
                        assert(holds(init[i], held));
                    }
                }
            }
        } else {
            if any_holds(items, held) {
                let i = choose|i: int| 0 <= i < items.len() && #[trigger] holds(items[i], held);
                if i < init.len() {
                    assert(holds(init[i], held));
                }
            }
            if any_holds(init, held) {
                let i = choose|i: int| 0 <= i < init.len() && #[trigger] holds(init[i], held);
                assert(holds(items[i], held));
            }
        }
    } else {
        if kind == JunctionType::Or {
        }
    }
}

/// Flattening keeps the meaning of one child.
pub proof fn lemma_gather_one_holds(kind: JunctionType, x: SpecExpr, held: Set<SpecToken>)
    ensures
        parts_hold(kind, gather_one(kind, x).tokens, gather_one(kind, x).junctions, gather_one(kind, x).empty, held)
            == holds(x, held),
    decreases x,
{
    let g = gather_one(kind, x);
    match x {
        SpecExpr::Empty => {},
        SpecExpr::Token(t) => {
            assert(g.tokens[0] == t);
        },
        SpecExpr::And(cs) => {
            if kind == JunctionType::And {
                lemma_gather_holds(kind, cs, held);
            } else {
                assert(g.junctions[0] == x);
            }
        },
        SpecExpr::Or(cs) => {
            if kind == JunctionType::Or {
                lemma_gather_holds(kind, cs, held);
            } else {
                assert(g.junctions[0] == x);
            }
        },
    }
}

} // verus!
verus! {

/// All of `cs` are in normal shape.
pub open spec fn all_normal(cs: Seq<SpecExpr>) -> bool {
    forall|i: int| 0 <= i < cs.len() ==> #[trigger] normal(cs[i])
}

/// Every expression of `js` is a junction of kind `kind`.
pub open spec fn all_junctions_of(kind: JunctionType, js: Seq<SpecExpr>) -> bool {
    forall|i: int| 0 <= i < js.len() ==> #[trigger] is_junction(kind, js[i])
}

/// What flattening collects: no more than there was, junctions of the other kind only, in the
/// shapes they had, and no empty expression from a well-formed disjunction.
pub proof fn lemma_gather_facts(kind: JunctionType, items: Seq<SpecExpr>)
    ensures
        gather(kind, items).tokens.len() + sizes(gather(kind, items).junctions) <= sizes(items),
        all_junctions_of(kind.flip(), gather(kind, items).junctions),
        all_well_formed(items) ==> forall|i: int|
            0 <= i < gather(kind, items).junctions.len() ==> #[trigger] well_formed(gather(kind, items).junctions[i]),
        all_normal(items) ==> all_normal(gather(kind, items).junctions),
        kind == JunctionType::Or && all_well_formed(items) && no_empty(items) ==> !gather(kind, items).empty,
        (forall|i: int| 0 <= i < items.len() ==> #[trigger] in_order(items[i])) ==> forall|i: int|
            0 <= i < gather(kind, items).junctions.len() ==> #[trigger] in_order(gather(kind, items).junctions[i]),
        (forall|i: int| 0 <= i < items.len() ==> #[trigger] lean(items[i])) ==> forall|i: int|
            0 <= i < gather(kind, items).junctions.len() ==> #[trigger] lean(gather(kind, items).junctions[i]),
    decreases items,
{
    let g = gather(kind, items);
    if items.len() == 0 {
        assert(sizes(g.junctions) == 0);
    } else {
        let init = items.subrange(0, items.len() - 1);
        let last = items[items.len() - 1];
        lemma_gather_facts(kind, init);
        lemma_gather_one_facts(kind, last);
        let a = gather(kind, init);
        let b = gather_one(kind, last);
        lemma_sizes_append(a.junctions, b.junctions);
        assert(sizes(items) == sizes(init) + size(last));
        assert forall|i: int| 0 <= i < g.junctions.len() implies #[trigger] g.junctions[i] == if i < a.junctions.len() {
            a.junctions[i]
        } else {
            b.junctions[i - a.junctions.len()]
        } by {}
        assert forall|i: int| 0 <= i < init.len() implies #[trigger] init[i] == items[i] by {}
        lemma_all_well_formed(items);
        lemma_all_well_formed(init);
        if all_well_formed(items) {
            assert forall|i: int| 0 <= i < g.junctions.len() implies #[trigger] well_formed(g.junctions[i]) by {
                if i < a.junctions.len() {
                    assert(well_formed(a.junctions[i]));
                } else {
                    assert(well_formed(b.junctions[i - a.junctions.len()]));
                }
            }
        }
        assert forall|i: int| 0 <= i < g.junctions.len() implies #[trigger] is_junction(kind.flip(), g.junctions[i]) by {
            if i < a.junctions.len() {
                assert(is_junction(kind.flip(), a.junctions[i]));
            } else {
                assert(is_junction(kind.flip(), b.junctions[i - a.junctions.len()]));
            }
        }
        if all_normal(items) {
            assert(all_normal(init));
            assert(normal(last));
            assert forall|i: int| 0 <= i < g.junctions.len() implies #[trigger] normal(g.junctions[i]) by {
                if i < a.junctions.len() {
                    assert(normal(a.junctions[i]));
                } else {
                    assert(normal(b.junctions[i - a.junctions.len()]));
                }
            }
        }
        if kind == JunctionType::Or && all_well_formed(items) && no_empty(items) {
            assert(no_empty(init));
            assert(!(last is Empty));
        }
        if forall|i: int| 0 <= i < items.len() ==> #[trigger] in_order(items[i]) {
            assert forall|i: int| 0 <= i < init.len() implies #[trigger] in_order(init[i]) by {
                assert(in_order(items[i]));
            }
            assert(in_order(last));
            assert forall|i: int| 0 <= i < g.junctions.len() implies #[trigger] in_order(g.junctions[i]) by {
                if i < a.junctions.len() {
                    assert(in_order(a.junctions[i]));
                } else {
                    assert(in_order(b.junctions[i - a.junctions.len()]));
                }
            }
        }
        if forall|i: int| 0 <= i < items.len() ==> #[trigger] lean(items[i]) {
            assert forall|i: int| 0 <= i < init.len() implies #[trigger] lean(init[i]) by {
                assert(lean(items[i]));
            }
            assert(lean(last));
            assert forall|i: int| 0 <= i < g.junctions.len() implies #[trigger] lean(g.junctions[i]) by {
                if i < a.junctions.len() {
                    assert(lean(a.junctions[i]));
                } else {
                    assert(lean(b.junctions[i - a.junctions.len()]));
                }
            }
        }
    }
}

/// What flattening one child collects.
pub proof fn lemma_gather_one_facts(kind: JunctionType, x: SpecExpr)
    ensures
        gather_one(kind, x).tokens.len() + sizes(gather_one(kind, x).junctions) <= size(x),
        is_junction(kind, x) ==> gather_one(kind, x).tokens.len() + sizes(gather_one(kind, x).junctions) < size(x),
        all_junctions_of(kind.flip(), gather_one(kind, x).junctions),
        well_formed(x) ==> forall|i: int|
            0 <= i < gather_one(kind, x).junctions.len() ==> #[trigger] well_formed(gather_one(kind, x).junctions[i]),
        normal(x) ==> all_normal(gather_one(kind, x).junctions),
        kind == JunctionType::Or && well_formed(x) && !(x is Empty) ==> !gather_one(kind, x).empty,
        in_order(x) ==> forall|i: int|
            0 <= i < gather_one(kind, x).junctions.len() ==> #[trigger] in_order(gather_one(kind, x).junctions[i]),
        lean(x) ==> forall|i: int|
            0 <= i < gather_one(kind, x).junctions.len() ==> #[trigger] lean(gather_one(kind, x).junctions[i]),
    decreases x,
{
    let g = gather_one(kind, x);
    match x {
        SpecExpr::Empty => {},
        SpecExpr::Token(_) => {},
        SpecExpr::And(cs) => {
            if kind == JunctionType::And {
                lemma_gather_facts(kind, cs);
                lemma_all_in_order(cs);
                lemma_all_lean(cs);
                if normal(x) {
                    lemma_normal_children(JunctionType::And, cs);
                    assert forall|i: int| 0 <= i < cs.len() implies #[trigger] normal(cs[i]) by {
                        assert(normal_child(JunctionType::And, cs[i]));
                    }
                }
            } else {
                lemma_sizes_push(Seq::empty(), x);
                assert(g.junctions =~= Seq::<SpecExpr>::empty().push(x));
                assert(g.junctions[0] == x);
            }
        },
        SpecExpr::Or(cs) => {
            if kind == JunctionType::Or {
                lemma_gather_facts(kind, cs);
                lemma_all_in_order(cs);
                lemma_all_lean(cs);
                if normal(x) {
                    lemma_normal_children(JunctionType::Or, cs);
                    assert forall|i: int| 0 <= i < cs.len() implies #[trigger] normal(cs[i]) by {
                        assert(normal_child(JunctionType::Or, cs[i]));
                    }
                }
            } else {
                lemma_sizes_push(Seq::empty(), x);
                assert(g.junctions =~= Seq::<SpecExpr>::empty().push(x));
                assert(g.junctions[0] == x);
            }
        },
    }
}

} // verus!
verus! {

/// Whether every token of a list is held, or some is, depends only on which tokens it holds.
pub proof fn lemma_tokens_same_contents(a: Seq<SpecToken>, b: Seq<SpecToken>, held: Set<SpecToken>)
    requires
        forall|t: SpecToken| #[trigger] a.contains(t) <==> b.contains(t),
    ensures
        all_tokens_held(a, held) == all_tokens_held(b, held),
        some_token_held(a, held) == some_token_held(b, held),
{
    if all_tokens_held(a, held) {
        assert forall|i: int| 0 <= i < b.len() implies held.contains(#[trigger] b[i]) by {
            assert(b.contains(b[i]));
            assert(a.contains(b[i]));
            let j = choose|j: int| 0 <= j < a.len() && a[j] == b[i];
            assert(held.contains(a[j]));
        }
    }
    if all_tokens_held(b, held) {
        assert forall|i: int| 0 <= i < a.len() implies held.contains(#[trigger] a[i]) by {
            assert(a.contains(a[i]));
            assert(b.contains(a[i]));
            let j = choose|j: int| 0 <= j < b.len() && b[j] == a[i];
            assert(held.contains(b[j]));
        }
    }
    if some_token_held(a, held) {
        let i = choose|i: int| 0 <= i < a.len() && held.contains(#[trigger] a[i]);
        assert(a.contains(a[i]));
        assert(b.contains(a[i]));
        let j = choose|j: int| 0 <= j < b.len() && b[j] == a[i];
        assert(held.contains(b[j]));
    }
    if some_token_held(b, held) {
        let i = choose|i: int| 0 <= i < b.len() && held.contains(#[trigger] b[i]);
        assert(b.contains(b[i]));
        assert(a.contains(b[i]));
        let j = choose|j: int| 0 <= j < a.len() && a[j] == b[i];
        assert(held.contains(a[j]));
    }
}

/// Whether every expression of a list is satisfied, or some is, depends only on which
/// expressions it holds.
pub proof fn lemma_exprs_same_contents(a: Seq<SpecExpr>, b: Seq<SpecExpr>, held: Set<SpecToken>)
    requires
        forall|e: SpecExpr| #[trigger] a.contains(e) <==> b.contains(e),
    ensures
        all_hold(a, held) == all_hold(b, held),
        any_holds(a, held) == any_holds(b, held),
{
    if all_hold(a, held) {
        assert forall|i: int| 0 <= i < b.len() implies #[trigger] holds(b[i], held) by {
            assert(b.contains(b[i]));
            assert(a.contains(b[i]));
            let j = choose|j: int| 0 <= j < a.len() && a[j] == b[i];
            assert(holds(a[j], held));
        }
    }
    if all_hold(b, held) {
        assert forall|i: int| 0 <= i < a.len() implies #[trigger] holds(a[i], held) by {
            assert(a.contains(a[i]));
            assert(b.contains(a[i]));
            let j = choose|j: int| 0 <= j < b.len() && b[j] == a[i];
            assert(holds(b[j], held));
        }
    }
    if any_holds(a, held) {
        let i = choose|i: int| 0 <= i < a.len() && #[trigger] holds(a[i], held);
        assert(a.contains(a[i]));
        assert(b.contains(a[i]));
        let j = choose|j: int| 0 <= j < b.len() && b[j] == a[i];
        assert(holds(b[j], held));
    }
    if any_holds(b, held) {
        let i = choose|i: int| 0 <= i < b.len() && #[trigger] holds(b[i], held);
        assert(b.contains(b[i]));
        assert(a.contains(b[i]));
        let j = choose|j: int| 0 <= j < a.len() && a[j] == b[i];
        assert(holds(a[j], held));
    }
}

/// Lists whose expressions are satisfied alike, position by position, are satisfied alike.
pub proof fn lemma_exprs_pointwise(a: Seq<SpecExpr>, b: Seq<SpecExpr>, held: Set<SpecToken>)
    requires
        a.len() == b.len(),
        forall|i: int| 0 <= i < a.len() ==> #[trigger] holds(a[i], held) == holds(b[i], held),
    ensures
        all_hold(a, held) == all_hold(b, held),
        any_holds(a, held) == any_holds(b, held),
{
    if all_hold(a, held) {
        assert forall|i: int| 0 <= i < b.len() implies #[trigger] holds(b[i], held) by {
            assert(holds(a[i], held));
        }
    }
    if all_hold(b, held) {
        assert forall|i: int| 0 <= i < a.len() implies #[trigger] holds(a[i], held) by {
            assert(holds(b[i], held));
        }
    }
    if any_holds(a, held) {
        let i = choose|i: int| 0 <= i < a.len() && #[trigger] holds(a[i], held);
        assert(holds(b[i], held));
    }
    if any_holds(b, held) {
        let i = choose|i: int| 0 <= i < b.len() && #[trigger] holds(b[i], held);
        assert(holds(a[i], held));
    }
}

/// The first `i + 1` expressions weigh the first `i` and the next one.
pub proof fn lemma_sizes_prefix(s: Seq<SpecExpr>, i: int)
    requires
        0 <= i < s.len(),
    ensures
        sizes(s.subrange(0, i + 1)) == sizes(s.subrange(0, i)) + size(s[i]),
{
    assert(s.subrange(0, i + 1).subrange(0, i) =~= s.subrange(0, i));
}

/// A list whose expressions weigh no more, position by position, than those of another list
/// of the same length weighs no more than it.
pub proof fn lemma_sizes_pointwise(a: Seq<SpecExpr>, b: Seq<SpecExpr>)
    requires
        a.len() == b.len(),
        forall|i: int| 0 <= i < a.len() ==> #[trigger] size(a[i]) <= size(b[i]),
    ensures
        sizes(a) <= sizes(b),
    decreases a.len(),
{
    if a.len() > 0 {
        let n = a.len() - 1;
        assert forall|i: int| 0 <= i < n implies #[trigger] size(a.subrange(0, n)[i]) <= size(b.subrange(0, n)[i]) by {
            assert(size(a[i]) <= size(b[i]));
        }
        lemma_sizes_pointwise(a.subrange(0, n), b.subrange(0, n));
        assert(size(a[n]) <= size(b[n]));
    }
}

proof fn lemma_sizes_front(x: SpecExpr, r: Seq<SpecExpr>)
    ensures
        sizes(seq![x] + r) == size(x) + sizes(r),
{
    lemma_sizes_append(seq![x], r);
    lemma_sizes_push(Seq::empty(), x);
    assert(Seq::<SpecExpr>::empty().push(x) =~= seq![x]);
}

proof fn lemma_sizes_insert(r: Seq<SpecExpr>, x: SpecExpr)
    ensures
        sizes(insert_sorted::<AccessExpression>(r, x)) == sizes(r) + size(x),
    decreases r.len(),
{
    if r.len() == 0 {
        lemma_sizes_front(x, r);
        assert(seq![x] + r =~= seq![x]);
    } else if AccessExpression::order(x, r[0]) < 0 {
        lemma_sizes_front(x, r);
    } else {
        let r1 = r.subrange(1, r.len() as int);
        lemma_sizes_insert(r1, x);
        lemma_sizes_front(r[0], insert_sorted::<AccessExpression>(r1, x));
        lemma_sizes_front(r[0], r1);
        assert(seq![r[0]] + r1 =~= r);
    }
}

/// Sorting a list keeps its weight.
pub proof fn lemma_sizes_sort(s: Seq<SpecExpr>)
    ensures
        sizes(sort_seq::<AccessExpression>(s)) == sizes(s),
    decreases s.len(),
{
    if s.len() > 0 {
        let s1 = s.subrange(1, s.len() as int);
        lemma_sizes_sort(s1);
        lemma_sizes_insert(sort_seq::<AccessExpression>(s1), s[0]);
        lemma_sizes_front(s[0], s1);
        assert(seq![s[0]] + s1 =~= s);
    }
}

/// Removing adjacent duplicates does not make a list heavier.
pub proof fn lemma_sizes_dedup(s: Seq<SpecExpr>)
    ensures
        sizes(dedup_seq(s)) <= sizes(s),
    decreases s.len(),
{
    if s.len() > 0 {
        let s1 = s.subrange(1, s.len() as int);
        lemma_sizes_dedup(s1);
        lemma_sizes_front(s[0], s1);
        lemma_sizes_front(s[0], dedup_seq(s1));
        assert(seq![s[0]] + s1 =~= s);
    }
}

} // verus!
verus! {

/// Every junction in `e` has its children in ascending order.
pub open spec fn in_order(e: SpecExpr) -> bool
    decreases e,
{
    match e {
        SpecExpr::And(cs) => is_sorted::<AccessExpression>(cs) && all_in_order(cs),
        SpecExpr::Or(cs) => is_sorted::<AccessExpression>(cs) && all_in_order(cs),
        _ => true,
    }
}

/// Every expression of `cs` is in order.
pub open spec fn all_in_order(cs: Seq<SpecExpr>) -> bool
    decreases cs,
{
    if cs.len() == 0 {
        true
    } else {
        all_in_order(cs.subrange(0, cs.len() - 1)) && in_order(cs[cs.len() - 1])
    }
}

pub proof fn lemma_all_in_order(cs: Seq<SpecExpr>)
    ensures
        all_in_order(cs) == forall|i: int| 0 <= i < cs.len() ==> #[trigger] in_order(cs[i]),
    decreases cs.len(),
{
    if cs.len() > 0 {
        let init = cs.subrange(0, cs.len() - 1);
        lemma_all_in_order(init);
        assert forall|i: int| 0 <= i < init.len() implies #[trigger] init[i] == cs[i] by {}
        if forall|i: int| 0 <= i < cs.len() ==> #[trigger] in_order(cs[i]) {
            assert(in_order(cs[cs.len() - 1]));
            assert forall|i: int| 0 <= i < init.len() implies #[trigger] in_order(init[i]) by {
                assert(in_order(cs[i]));
            }
        }
        if all_in_order(init) && in_order(cs[cs.len() - 1]) {
            assert forall|i: int| 0 <= i < cs.len() implies #[trigger] in_order(cs[i]) by {
                if i < cs.len() - 1 {
                    assert(in_order(init[i]));
                }
            }
        }
    }
}

} // verus!
verus! {

/// No junction in `e` has the same child twice, and in every conjunction of `e` no token that
/// is a child of the conjunction occurs inside the junctions among its children.
pub open spec fn lean(e: SpecExpr) -> bool
    decreases e,
{
    match e {
        SpecExpr::And(cs) => cs.no_duplicates() && all_lean(cs) && forall|i: int, j: int|
            0 <= i < cs.len() && 0 <= j < cs.len() && (#[trigger] cs[i]) is Token && !((#[trigger] cs[j]) is Token)
                ==> !tokens_in(cs[j]).contains(cs[i]->Token_0),
        SpecExpr::Or(cs) => cs.no_duplicates() && all_lean(cs),
        _ => true,
    }
}

/// Every expression of `cs` is lean.
pub open spec fn all_lean(cs: Seq<SpecExpr>) -> bool
    decreases cs,
{
    if cs.len() == 0 {
        true
    } else {
        all_lean(cs.subrange(0, cs.len() - 1)) && lean(cs[cs.len() - 1])
    }
}

pub proof fn lemma_all_lean(cs: Seq<SpecExpr>)
    ensures
        all_lean(cs) == forall|i: int| 0 <= i < cs.len() ==> #[trigger] lean(cs[i]),
    decreases cs.len(),
{
    if cs.len() > 0 {
        let init = cs.subrange(0, cs.len() - 1);
        lemma_all_lean(init);
        assert forall|i: int| 0 <= i < init.len() implies #[trigger] init[i] == cs[i] by {}
        if forall|i: int| 0 <= i < cs.len() ==> #[trigger] lean(cs[i]) {
            assert(lean(cs[cs.len() - 1]));
            assert forall|i: int| 0 <= i < init.len() implies #[trigger] lean(init[i]) by {
                assert(lean(cs[i]));
            }
        }
        if all_lean(init) && lean(cs[cs.len() - 1]) {
            assert forall|i: int| 0 <= i < cs.len() implies #[trigger] lean(cs[i]) by {
                if i < cs.len() - 1 {
                    assert(lean(init[i]));
                }
            }
        }
    }
}

} // verus!
