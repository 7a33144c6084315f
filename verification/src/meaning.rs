//! What an expression means to simplification: as `holds`, except inside a disjunction, where
//! the empty expression counts as absent and a disjunction with nothing else counts as always
//! satisfied. For a well-formed expression the two agree.
use vstd::prelude::*;
use crate::model::{SpecToken, SpecExpr, JunctionType, junction, holds, all_hold, any_holds, size, sizes, lemma_holds_junction, lemma_sizes_element};
use crate::shape::{
    gather, gather_one, well_formed, all_well_formed, lemma_all_well_formed, lemma_gather_facts,
    lemma_gather_holds, all_tokens_held, some_token_held, lemma_tokens_append, lemma_normal_well_formed,
    lemma_tokens_same_contents, parts_hold, all_normal,
};

verus! {

/// Whether `e` is satisfied by the tokens `held`, as simplification reads `e`.
pub open spec fn reads_holds(e: SpecExpr, held: Set<SpecToken>) -> bool
    decreases size(e), 1int,
{
    match e {
        SpecExpr::Empty => true,
        SpecExpr::Token(t) => held.contains(t),
        SpecExpr::And(cs) => reads_all(cs, held),
        SpecExpr::Or(cs) => {
            proof {
                lemma_gather_facts(JunctionType::Or, cs);
            }
            let g = gather(JunctionType::Or, cs);
            if g.tokens.len() == 0 && g.junctions.len() == 0 {
                true
            } else {
                some_token_held(g.tokens, held) || reads_any(g.junctions, held)
            }
        },
    }
}

/// Every expression of `cs` is satisfied, as simplification reads it.
pub open spec fn reads_all(cs: Seq<SpecExpr>, held: Set<SpecToken>) -> bool
    decreases sizes(cs), 2int,
{
    if cs.len() == 0 {
        true
    } else {
        proof {
            lemma_sizes_element(cs, cs.len() - 1);
        }
        reads_all(cs.subrange(0, cs.len() - 1), held) && reads_holds(cs[cs.len() - 1], held)
    }
}

/// Some expression of `cs` is satisfied, as simplification reads it.
pub open spec fn reads_any(cs: Seq<SpecExpr>, held: Set<SpecToken>) -> bool
    decreases sizes(cs), 2int,
{
    if cs.len() == 0 {
        false
    } else {
        proof {
            lemma_sizes_element(cs, cs.len() - 1);
        }
        reads_any(cs.subrange(0, cs.len() - 1), held) || reads_holds(cs[cs.len() - 1], held)
    }
}

/// A junction of kind `kind` over the tokens `ts` and the junctions `js`, as simplification reads
/// it: a disjunction over nothing is satisfied.
pub open spec fn parts_reads(kind: JunctionType, ts: Seq<SpecToken>, js: Seq<SpecExpr>, held: Set<SpecToken>) -> bool {
    match kind {
        JunctionType::And => all_tokens_held(ts, held) && reads_all(js, held),
        JunctionType::Or => if ts.len() == 0 && js.len() == 0 {
            true
        } else {
            some_token_held(ts, held) || reads_any(js, held)
        },
    }
}

/// The lists of expressions, read pointwise.
pub proof fn lemma_reads_lists(cs: Seq<SpecExpr>, held: Set<SpecToken>)
    ensures
        reads_all(cs, held) == forall|i: int| 0 <= i < cs.len() ==> #[trigger] reads_holds(cs[i], held),
        reads_any(cs, held) == exists|i: int| 0 <= i < cs.len() && #[trigger] reads_holds(cs[i], held),
    decreases cs.len(),
{
    if cs.len() > 0 {
        let init = cs.subrange(0, cs.len() - 1);
        lemma_reads_lists(init, held);
        assert forall|i: int| 0 <= i < init.len() implies #[trigger] init[i] == cs[i] by {}
        if reads_all(init, held) && reads_holds(cs[cs.len() - 1], held) {
            assert forall|i: int| 0 <= i < cs.len() implies #[trigger] reads_holds(cs[i], held) by {
                if i < cs.len() - 1 {
                    assert(reads_holds(init[i], held));
                }
            }
        }
        if forall|i: int| 0 <= i < cs.len() ==> #[trigger] reads_holds(cs[i], held) {
            assert(reads_holds(cs[cs.len() - 1], held));
            assert forall|i: int| 0 <= i < init.len() implies #[trigger] reads_holds(init[i], held) by {
                assert(reads_holds(cs[i], held));
            }
        }
        if reads_any(init, held) {
            let i = choose|i: int| 0 <= i < init.len() && #[trigger] reads_holds(init[i], held);
            assert(reads_holds(cs[i], held));
        }
        if exists|i: int| 0 <= i < cs.len() && #[trigger] reads_holds(cs[i], held) {
            let i = choose|i: int| 0 <= i < cs.len() && #[trigger] reads_holds(cs[i], held);
            if i < cs.len() - 1 {
                assert(reads_holds(init[i], held));
            }
        }
    }
}

/// Where each expression of `cs` reads as it holds, so do the lists.
pub proof fn lemma_reads_lists_hold(cs: Seq<SpecExpr>, held: Set<SpecToken>)
    requires
        forall|i: int| 0 <= i < cs.len() ==> #[trigger] reads_holds(cs[i], held) == holds(cs[i], held),
    ensures
        reads_all(cs, held) == all_hold(cs, held),
        reads_any(cs, held) == any_holds(cs, held),
{
    lemma_reads_lists(cs, held);
    if reads_all(cs, held) {
        assert forall|i: int| 0 <= i < cs.len() implies #[trigger] holds(cs[i], held) by {
            assert(reads_holds(cs[i], held));
        }
    }
    if all_hold(cs, held) {
        assert forall|i: int| 0 <= i < cs.len() implies #[trigger] reads_holds(cs[i], held) by {
            assert(holds(cs[i], held));
        }
    }
    if reads_any(cs, held) {
        let i = choose|i: int| 0 <= i < cs.len() && #[trigger] reads_holds(cs[i], held);
        assert(holds(cs[i], held));
    }
    if any_holds(cs, held) {
        let i = choose|i: int| 0 <= i < cs.len() && #[trigger] holds(cs[i], held);
        assert(reads_holds(cs[i], held));
    }
}

proof fn lemma_reads_append(a: Seq<SpecExpr>, b: Seq<SpecExpr>, held: Set<SpecToken>)
    ensures
        reads_all(a + b, held) == (reads_all(a, held) && reads_all(b, held)),
{
    let m = a + b;
    lemma_reads_lists(a, held);
    lemma_reads_lists(b, held);
    lemma_reads_lists(m, held);
    if reads_all(a, held) && reads_all(b, held) {
        assert forall|i: int| 0 <= i < m.len() implies #[trigger] reads_holds(m[i], held) by {
            if i < a.len() {
                assert(m[i] == a[i]);
                assert(reads_holds(a[i], held));
            } else {
                assert(m[i] == b[i - a.len()]);
                assert(reads_holds(b[i - a.len()], held));
            }
        }
    }
    if reads_all(m, held) {
        assert forall|i: int| 0 <= i < a.len() implies #[trigger] reads_holds(a[i], held) by {
            assert(m[i] == a[i]);
            assert(reads_holds(m[i], held));
        }
        assert forall|i: int| 0 <= i < b.len() implies #[trigger] reads_holds(b[i], held) by {
            assert(m[i + a.len()] == b[i]);
            assert(reads_holds(m[i + a.len()], held));
        }
    }
}

/// A non-empty list of well-formed expressions in which flattening a disjunction finds no empty
/// expression gives some token or some junction.
pub proof fn lemma_gather_something(items: Seq<SpecExpr>)
    requires
        items.len() > 0,
        all_well_formed(items),
        !gather(JunctionType::Or, items).empty,
    ensures
        gather(JunctionType::Or, items).tokens.len() + gather(JunctionType::Or, items).junctions.len() > 0,
    decreases sizes(items),
{
    let init = items.subrange(0, items.len() - 1);
    let last = items[items.len() - 1];
    lemma_all_well_formed(items);
    assert(well_formed(last));
    let g1 = gather_one(JunctionType::Or, last);
    assert(!g1.empty);
    match last {
        SpecExpr::Or(cs) => {
            lemma_sizes_element(items, items.len() - 1);
            lemma_gather_something(cs);
        },
        _ => {},
    }
}

/// Flattening a conjunction keeps how simplification reads it.
pub proof fn lemma_gather_reads(items: Seq<SpecExpr>, held: Set<SpecToken>)
    ensures
        reads_all(items, held) == (all_tokens_held(gather(JunctionType::And, items).tokens, held)
            && reads_all(gather(JunctionType::And, items).junctions, held)),
    decreases sizes(items), 1int,
{
    if items.len() > 0 {
        let init = items.subrange(0, items.len() - 1);
        let last = items[items.len() - 1];
        lemma_sizes_element(items, items.len() - 1);
        let gi = gather(JunctionType::And, init);
        let g1 = gather_one(JunctionType::And, last);
        lemma_gather_reads(init, held);
        lemma_gather_one_reads(last, held);
        lemma_tokens_append(gi.tokens, g1.tokens, held);
        lemma_reads_append(gi.junctions, g1.junctions, held);
    }
}

/// Flattening one child of a conjunction keeps how simplification reads it.
pub proof fn lemma_gather_one_reads(x: SpecExpr, held: Set<SpecToken>)
    ensures
        reads_holds(x, held) == (all_tokens_held(gather_one(JunctionType::And, x).tokens, held)
            && reads_all(gather_one(JunctionType::And, x).junctions, held)),
    decreases size(x), 0int,
{
    let g = gather_one(JunctionType::And, x);
    match x {
        SpecExpr::Empty => {
            assert(reads_all(g.junctions, held));
            assert(all_tokens_held(g.tokens, held));
        },
        SpecExpr::Token(t) => {
            assert(g.tokens[0] == t);
        },
        SpecExpr::And(cs) => {
            lemma_gather_reads(cs, held);
        },
        SpecExpr::Or(cs) => {
            assert(g.junctions.subrange(0, 0) =~= Seq::<SpecExpr>::empty());
            assert(reads_all(Seq::<SpecExpr>::empty(), held));
            assert(g.junctions[0] == x);
            assert(reads_all(g.junctions, held) == reads_holds(x, held));
        },
    }
}

/// Simplification reads a well-formed expression as it holds.
pub proof fn lemma_reads_well_formed(e: SpecExpr, held: Set<SpecToken>)
    requires
        well_formed(e),
    ensures
        reads_holds(e, held) == holds(e, held),
    decreases size(e),
{
    match e {
        SpecExpr::And(cs) => {
            lemma_all_well_formed(cs);
            assert forall|i: int| 0 <= i < cs.len() implies #[trigger] reads_holds(cs[i], held) == holds(cs[i], held) by {
                lemma_sizes_element(cs, i);
                lemma_reads_well_formed(cs[i], held);
            }
            lemma_reads_lists_hold(cs, held);
            lemma_holds_junction(cs, held);
        },
        SpecExpr::Or(cs) => {
            let g = gather(JunctionType::Or, cs);
            lemma_gather_facts(JunctionType::Or, cs);
            lemma_gather_holds(JunctionType::Or, cs, held);
            lemma_all_well_formed(cs);
            lemma_gather_something(cs);
            assert forall|i: int| 0 <= i < g.junctions.len() implies #[trigger] reads_holds(g.junctions[i], held)
                == holds(g.junctions[i], held) by {
                lemma_sizes_element(g.junctions, i);
                lemma_reads_well_formed(g.junctions[i], held);
            }
            lemma_reads_lists_hold(g.junctions, held);
        },
        _ => {},
    }
}

/// Over junctions in normal shape, a junction reads as it holds, unless it is a disjunction over
/// nothing.
pub proof fn lemma_parts_reads_hold(kind: JunctionType, ts: Seq<SpecToken>, js: Seq<SpecExpr>, held: Set<SpecToken>)
    requires
        all_normal(js),
        kind == JunctionType::And || ts.len() + js.len() > 0,
    ensures
        parts_reads(kind, ts, js, held) == parts_hold(kind, ts, js, false, held),
{
    assert forall|i: int| 0 <= i < js.len() implies #[trigger] reads_holds(js[i], held) == holds(js[i], held) by {
        lemma_normal_well_formed(js[i]);
        lemma_reads_well_formed(js[i], held);
    }
    lemma_reads_lists_hold(js, held);
}

/// Expressions `a` that hold as simplification reads `b`, one by one, hold all or some together as
/// `b` reads.
pub proof fn lemma_reads_pointwise(a: Seq<SpecExpr>, b: Seq<SpecExpr>, held: Set<SpecToken>)
    requires
        a.len() == b.len(),
        forall|k: int| 0 <= k < a.len() ==> #[trigger] holds(a[k], held) == reads_holds(b[k], held),
    ensures
        all_hold(a, held) == reads_all(b, held),
        any_holds(a, held) == reads_any(b, held),
{
    lemma_reads_lists(b, held);
    if all_hold(a, held) {
        assert forall|k: int| 0 <= k < b.len() implies #[trigger] reads_holds(b[k], held) by {
            assert(holds(a[k], held));
        }
    }
    if reads_all(b, held) {
        assert forall|k: int| 0 <= k < a.len() implies #[trigger] holds(a[k], held) by {
            assert(reads_holds(b[k], held));
        }
    }
    if any_holds(a, held) {
        let k = choose|k: int| 0 <= k < a.len() && #[trigger] holds(a[k], held);
        assert(reads_holds(b[k], held));
    }
    if reads_any(b, held) {
        let k = choose|k: int| 0 <= k < b.len() && #[trigger] reads_holds(b[k], held);
        assert(holds(a[k], held));
    }
}

/// A junction reads as what flattening it collects.
pub proof fn lemma_junction_reads(kind: JunctionType, cs: Seq<SpecExpr>, held: Set<SpecToken>)
    ensures
        reads_holds(junction(kind, cs), held) == parts_reads(
            kind,
            gather(kind, cs).tokens,
            gather(kind, cs).junctions,
            held,
        ),
{
    if kind == JunctionType::And {
        lemma_gather_reads(cs, held);
    }
}

/// Two lists of the same tokens make a junction read alike.
pub proof fn lemma_parts_reads_same_tokens(
    kind: JunctionType,
    a: Seq<SpecToken>,
    b: Seq<SpecToken>,
    js: Seq<SpecExpr>,
    held: Set<SpecToken>,
)
    requires
        forall|t: SpecToken| #[trigger] a.contains(t) <==> b.contains(t),
    ensures
        parts_reads(kind, a, js, held) == parts_reads(kind, b, js, held),
        (a.len() == 0) == (b.len() == 0),
{
    lemma_tokens_same_contents(a, b, held);
    if a.len() > 0 {
        assert(a.contains(a[0]));
    }
    if b.len() > 0 {
        assert(b.contains(b[0]));
    }
}

} // verus!
