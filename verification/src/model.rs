//! Mathematical models of tokens and expressions, and what an expression means.
use vstd::prelude::*;

verus! {

/// The abstract value of an access token: its kind and its text.
pub enum SpecToken {
    Unquoted(Seq<char>),
    Quoted(Seq<char>),
}

/// The abstract value of an access expression.
pub enum SpecExpr {
    Empty,
    Token(SpecToken),
    And(Seq<SpecExpr>),
    Or(Seq<SpecExpr>),
}

/// The two kinds of junction.
#[derive(Debug, PartialEq, Eq, Structural, Clone, Copy)]
pub enum JunctionType {
    And,
    Or,
}

impl JunctionType {
    /// The other kind of junction.
    pub open spec fn flip(self) -> JunctionType {
        match self {
            JunctionType::And => JunctionType::Or,
            JunctionType::Or => JunctionType::And,
        }
    }

    /// The other kind of junction.
    pub fn opposite(&self) -> (r: JunctionType)
        ensures
            r == self.flip(),
    {
        match self {
            JunctionType::And => JunctionType::Or,
            JunctionType::Or => JunctionType::And,
        }
    }
}

/// The junction of the given kind over `cs`.
pub open spec fn junction(kind: JunctionType, cs: Seq<SpecExpr>) -> SpecExpr {
    match kind {
        JunctionType::And => SpecExpr::And(cs),
        JunctionType::Or => SpecExpr::Or(cs),
    }
}

/// `e` is a junction of the given kind.
pub open spec fn is_junction(kind: JunctionType, e: SpecExpr) -> bool {
    match kind {
        JunctionType::And => e is And,
        JunctionType::Or => e is Or,
    }
}

/// The children of a junction; nothing for other expressions.
pub open spec fn children(e: SpecExpr) -> Seq<SpecExpr> {
    match e {
        SpecExpr::And(cs) => cs,
        SpecExpr::Or(cs) => cs,
        _ => Seq::empty(),
    }
}

/// Whether the expression `e` is satisfied by a user who holds the tokens in `held`.
pub open spec fn holds(e: SpecExpr, held: Set<SpecToken>) -> bool
    decreases e,
{
    match e {
        SpecExpr::Empty => true,
        SpecExpr::Token(t) => held.contains(t),
        SpecExpr::And(cs) => holds_all(cs, held),
        SpecExpr::Or(cs) => holds_any(cs, held),
    }
}

/// Every expression of `cs` is satisfied.
pub open spec fn holds_all(cs: Seq<SpecExpr>, held: Set<SpecToken>) -> bool
    decreases cs,
{
    if cs.len() == 0 {
        true
    } else {
        holds_all(cs.subrange(0, cs.len() - 1), held) && holds(cs[cs.len() - 1], held)
    }
}

/// Some expression of `cs` is satisfied.
pub open spec fn holds_any(cs: Seq<SpecExpr>, held: Set<SpecToken>) -> bool
    decreases cs,
{
    if cs.len() == 0 {
        false
    } else {
        holds_any(cs.subrange(0, cs.len() - 1), held) || holds(cs[cs.len() - 1], held)
    }
}

/// Every expression of `cs` is satisfied.
pub open spec fn all_hold(cs: Seq<SpecExpr>, held: Set<SpecToken>) -> bool {
    forall|i: int| 0 <= i < cs.len() ==> #[trigger] holds(cs[i], held)
}

/// Some expression of `cs` is satisfied.
pub open spec fn any_holds(cs: Seq<SpecExpr>, held: Set<SpecToken>) -> bool {
    exists|i: int| 0 <= i < cs.len() && #[trigger] holds(cs[i], held)
}

/// Two expressions are satisfied by exactly the same sets of tokens.
pub open spec fn equivalent(a: SpecExpr, b: SpecExpr) -> bool {
    forall|held: Set<SpecToken>| #[trigger] holds(a, held) == holds(b, held)
}

/// Every set of tokens that satisfies `a` satisfies `b`.
pub open spec fn entails(a: SpecExpr, b: SpecExpr) -> bool {
    forall|held: Set<SpecToken>| #[trigger] holds(a, held) ==> holds(b, held)
}

/// The number of nodes of an expression tree.
pub open spec fn size(e: SpecExpr) -> nat
    decreases e,
{
    match e {
        SpecExpr::And(cs) => 1 + sizes(cs),
        SpecExpr::Or(cs) => 1 + sizes(cs),
        _ => 1,
    }
}

/// The number of nodes of a list of expression trees.
pub open spec fn sizes(cs: Seq<SpecExpr>) -> nat
    decreases cs,
{
    if cs.len() == 0 {
        0
    } else {
        sizes(cs.subrange(0, cs.len() - 1)) + size(cs[cs.len() - 1])
    }
}

pub proof fn lemma_sizes_push(cs: Seq<SpecExpr>, e: SpecExpr)
    ensures
        sizes(cs.push(e)) == sizes(cs) + size(e),
{
    assert(cs.push(e).subrange(0, cs.len() as int) =~= cs);
}

pub proof fn lemma_sizes_append(a: Seq<SpecExpr>, b: Seq<SpecExpr>)
    ensures
        sizes(a + b) == sizes(a) + sizes(b),
    decreases b.len(),
{
    if b.len() == 0 {
        assert(a + b =~= a);
    } else {
        let bl = b.subrange(0, b.len() - 1);
        lemma_sizes_append(a, bl);
        assert((a + b).subrange(0, (a + b).len() - 1) =~= a + bl);
    }
}

pub proof fn lemma_sizes_element(cs: Seq<SpecExpr>, i: int)
    requires
        0 <= i < cs.len(),
    ensures
        size(cs[i]) <= sizes(cs),
        size(cs[i]) >= 1,
    decreases cs.len(),
{
    if i < cs.len() - 1 {
        lemma_sizes_element(cs.subrange(0, cs.len() - 1), i);
    }
    lemma_size_positive(cs[i]);
}

pub proof fn lemma_size_positive(e: SpecExpr)
    ensures
        size(e) >= 1,
{
}

} // verus!
verus! {

proof fn lemma_holds_all(cs: Seq<SpecExpr>, held: Set<SpecToken>)
    ensures
        holds_all(cs, held) == all_hold(cs, held),
        holds_any(cs, held) == any_holds(cs, held),
    decreases cs.len(),
{
    if cs.len() > 0 {
        let init = cs.subrange(0, cs.len() - 1);
        lemma_holds_all(init, held);
        assert forall|i: int| 0 <= i < init.len() implies #[trigger] init[i] == cs[i] by {}
        if all_hold(init, held) && holds(cs[cs.len() - 1], held) {
            assert forall|i: int| 0 <= i < cs.len() implies #[trigger] holds(cs[i], held) by {
                if i < cs.len() - 1 {
                    assert(init[i] == cs[i]);
                }
            }
        }
        if all_hold(cs, held) {
            assert forall|i: int| 0 <= i < init.len() implies #[trigger] holds(init[i], held) by {
                assert(init[i] == cs[i]);
            }
        }
        if any_holds(init, held) {
            let i = choose|i: int| 0 <= i < init.len() && #[trigger] holds(init[i], held);
            assert(init[i] == cs[i]);
        }
        if any_holds(cs, held) {
            let i = choose|i: int| 0 <= i < cs.len() && #[trigger] holds(cs[i], held);
            if i < cs.len() - 1 {
                assert(init[i] == cs[i]);
            }
        }
    }
}

/// How a junction is satisfied.
pub broadcast proof fn lemma_holds_junction(cs: Seq<SpecExpr>, held: Set<SpecToken>)
    ensures
        #[trigger] holds(SpecExpr::And(cs), held) == all_hold(cs, held),
        #[trigger] holds(SpecExpr::Or(cs), held) == any_holds(cs, held),
{
    lemma_holds_all(cs, held);
}

} // verus!
verus! {

/// A junction is structurally larger than its children, and than each of them.
pub proof fn lemma_spec_child_decreases(e: SpecExpr, k: int)
    ensures
        e is And ==> decreases_to!(e => e->And_0),
        e is Or ==> decreases_to!(e => e->Or_0),
        e is And && 0 <= k < e->And_0.len() ==> decreases_to!(e => e->And_0[k]),
        e is Or && 0 <= k < e->Or_0.len() ==> decreases_to!(e => e->Or_0[k]),
{
    if e is And {
        assert(decreases_to!(e => e->And_0));
        if 0 <= k < e->And_0.len() {
            assert(decreases_to!(e->And_0 => e->And_0[k]));
        }
    }
    if e is Or {
        assert(decreases_to!(e => e->Or_0));
        if 0 <= k < e->Or_0.len() {
            assert(decreases_to!(e->Or_0 => e->Or_0[k]));
        }
    }
}

} // verus!
