//! Deciding, by the shape of expressions, that some expressions together imply another.
use vstd::prelude::*;
use crate::model::{SpecToken, SpecExpr, holds, all_hold, lemma_holds_junction};
use crate::types::{AccessExpression, views_of, lemma_expr_view_junction};
use crate::order::TotalOrder;
use crate::sort::contains_equal;

verus! {

/// `requirement` follows from `provided` all holding, as the shapes show: it is one of them or
/// empty; a conjunction among them has children that imply it; a disjunction among them has
/// every one of its children imply it; or it is a disjunction with a child implied, or a
/// conjunction with every child implied.
pub open spec fn implied(requirement: SpecExpr, provided: Seq<SpecExpr>) -> bool
    decreases requirement, provided, 2int,
{
    provided.contains(requirement) || requirement is Empty || any_unlocks(requirement, provided)
        || match requirement {
        SpecExpr::Or(rc) => some_child_implied(rc, provided),
        SpecExpr::And(rc) => every_child_implied(rc, provided),
        _ => false,
    }
}

/// Some expression of `provided` implies `requirement` by its own shape.
pub open spec fn any_unlocks(requirement: SpecExpr, provided: Seq<SpecExpr>) -> bool
    decreases requirement, provided, 1int,
{
    if provided.len() == 0 {
        false
    } else {
        any_unlocks(requirement, provided.subrange(0, provided.len() - 1))
            || unlocks(requirement, provided[provided.len() - 1])
    }
}

/// The junction `p` implies `requirement`: a conjunction through its children together, a
/// disjunction through each of its children alone.
pub open spec fn unlocks(requirement: SpecExpr, p: SpecExpr) -> bool
    decreases requirement, p, 0int,
{
    match p {
        SpecExpr::And(pc) => implied(requirement, pc),
        SpecExpr::Or(pc) => every_alternative_implies(requirement, pc),
        _ => false,
    }
}

/// Each of `alternatives`, alone, implies `requirement`.
pub open spec fn every_alternative_implies(requirement: SpecExpr, alternatives: Seq<SpecExpr>) -> bool
    decreases requirement, alternatives, 1int,
{
    if alternatives.len() == 0 {
        true
    } else {
        every_alternative_implies(requirement, alternatives.subrange(0, alternatives.len() - 1))
            && implied_by_one(requirement, alternatives[alternatives.len() - 1])
    }
}

/// `requirement` follows from the single expression `q` (the case of one provided expression).
pub open spec fn implied_by_one(requirement: SpecExpr, q: SpecExpr) -> bool
    decreases requirement, q, 2int,
{
    q == requirement || requirement is Empty || unlocks(requirement, q) || match requirement {
        SpecExpr::Or(rc) => some_child_implied_by_one(rc, q),
        SpecExpr::And(rc) => every_child_implied_by_one(rc, q),
        _ => false,
    }
}

pub open spec fn some_child_implied(rc: Seq<SpecExpr>, provided: Seq<SpecExpr>) -> bool
    decreases rc, provided, 0int,
{
    if rc.len() == 0 {
        false
    } else {
        some_child_implied(rc.subrange(0, rc.len() - 1), provided) || implied(rc[rc.len() - 1], provided)
    }
}

pub open spec fn every_child_implied(rc: Seq<SpecExpr>, provided: Seq<SpecExpr>) -> bool
    decreases rc, provided, 0int,
{
    if rc.len() == 0 {
        true
    } else {
        every_child_implied(rc.subrange(0, rc.len() - 1), provided) && implied(rc[rc.len() - 1], provided)
    }
}

pub open spec fn some_child_implied_by_one(rc: Seq<SpecExpr>, q: SpecExpr) -> bool
    decreases rc, q, 0int,
{
    if rc.len() == 0 {
        false
    } else {
        some_child_implied_by_one(rc.subrange(0, rc.len() - 1), q) || implied_by_one(rc[rc.len() - 1], q)
    }
}

pub open spec fn every_child_implied_by_one(rc: Seq<SpecExpr>, q: SpecExpr) -> bool
    decreases rc, q, 0int,
{
    if rc.len() == 0 {
        true
    } else {
        every_child_implied_by_one(rc.subrange(0, rc.len() - 1), q) && implied_by_one(rc[rc.len() - 1], q)
    }
}

proof fn lemma_any_unlocks_iff(requirement: SpecExpr, provided: Seq<SpecExpr>)
    ensures
        any_unlocks(requirement, provided) == exists|i: int|
            0 <= i < provided.len() && unlocks(requirement, #[trigger] provided[i]),
    decreases provided.len(),
{
    if provided.len() > 0 {
        let init = provided.subrange(0, provided.len() - 1);
        lemma_any_unlocks_iff(requirement, init);
        if exists|i: int| 0 <= i < provided.len() && unlocks(requirement, #[trigger] provided[i]) {
            let i = choose|i: int| 0 <= i < provided.len() && unlocks(requirement, #[trigger] provided[i]);
            if i < provided.len() - 1 {
                assert(init[i] == provided[i]);
            }
        }
        if any_unlocks(requirement, init) {
            let i = choose|i: int| 0 <= i < init.len() && unlocks(requirement, #[trigger] init[i]);
            assert(provided[i] == init[i]);
        }
    }
}

proof fn lemma_every_alternative_iff(requirement: SpecExpr, alternatives: Seq<SpecExpr>)
    ensures
        every_alternative_implies(requirement, alternatives) == forall|k: int|
            0 <= k < alternatives.len() ==> implied_by_one(requirement, #[trigger] alternatives[k]),
    decreases alternatives.len(),
{
    if alternatives.len() > 0 {
        let init = alternatives.subrange(0, alternatives.len() - 1);
        lemma_every_alternative_iff(requirement, init);
        if forall|k: int| 0 <= k < alternatives.len() ==> implied_by_one(requirement, #[trigger] alternatives[k]) {
            assert forall|k: int| 0 <= k < init.len() implies implied_by_one(requirement, #[trigger] init[k]) by {
                assert(init[k] == alternatives[k]);
            }
        }
        if every_alternative_implies(requirement, alternatives) {
            assert forall|k: int| 0 <= k < alternatives.len() implies implied_by_one(requirement, #[trigger] alternatives[k]) by {
                if k < alternatives.len() - 1 {
                    assert(init[k] == alternatives[k]);
                }
            }
        }
    }
}

proof fn lemma_some_child_iff(rc: Seq<SpecExpr>, provided: Seq<SpecExpr>)
    ensures
        some_child_implied(rc, provided) == exists|k: int| 0 <= k < rc.len() && implied(#[trigger] rc[k], provided),
    decreases rc.len(),
{
    if rc.len() > 0 {
        let init = rc.subrange(0, rc.len() - 1);
        lemma_some_child_iff(init, provided);
        if exists|k: int| 0 <= k < rc.len() && implied(#[trigger] rc[k], provided) {
            let k = choose|k: int| 0 <= k < rc.len() && implied(#[trigger] rc[k], provided);
            if k < rc.len() - 1 {
                assert(init[k] == rc[k]);
            }
        }
        if some_child_implied(init, provided) {
            let k = choose|k: int| 0 <= k < init.len() && implied(#[trigger] init[k], provided);
            assert(rc[k] == init[k]);
        }
    }
}

proof fn lemma_every_child_iff(rc: Seq<SpecExpr>, provided: Seq<SpecExpr>)
    ensures
        every_child_implied(rc, provided) == forall|k: int| 0 <= k < rc.len() ==> implied(#[trigger] rc[k], provided),
    decreases rc.len(),
{
    if rc.len() > 0 {
        let init = rc.subrange(0, rc.len() - 1);
        lemma_every_child_iff(init, provided);
        if forall|k: int| 0 <= k < rc.len() ==> implied(#[trigger] rc[k], provided) {
            assert forall|k: int| 0 <= k < init.len() implies implied(#[trigger] init[k], provided) by {
                assert(init[k] == rc[k]);
            }
        }
        if every_child_implied(rc, provided) {
            assert forall|k: int| 0 <= k < rc.len() implies implied(#[trigger] rc[k], provided) by {
                if k < rc.len() - 1 {
                    assert(init[k] == rc[k]);
                }
            }
        }
    }
}

pub proof fn lemma_some_child_by_one_iff(rc: Seq<SpecExpr>, q: SpecExpr)
    ensures
        some_child_implied_by_one(rc, q) == exists|k: int| 0 <= k < rc.len() && implied_by_one(#[trigger] rc[k], q),
    decreases rc.len(),
{
    if rc.len() > 0 {
        let init = rc.subrange(0, rc.len() - 1);
        lemma_some_child_by_one_iff(init, q);
        if exists|k: int| 0 <= k < rc.len() && implied_by_one(#[trigger] rc[k], q) {
            let k = choose|k: int| 0 <= k < rc.len() && implied_by_one(#[trigger] rc[k], q);
            if k < rc.len() - 1 {
                assert(init[k] == rc[k]);
            }
        }
        if some_child_implied_by_one(init, q) {
            let k = choose|k: int| 0 <= k < init.len() && implied_by_one(#[trigger] init[k], q);
            assert(rc[k] == init[k]);
        }
    }
}

proof fn lemma_every_child_by_one_iff(rc: Seq<SpecExpr>, q: SpecExpr)
    ensures
        every_child_implied_by_one(rc, q) == forall|k: int| 0 <= k < rc.len() ==> implied_by_one(#[trigger] rc[k], q),
    decreases rc.len(),
{
    if rc.len() > 0 {
        let init = rc.subrange(0, rc.len() - 1);
        lemma_every_child_by_one_iff(init, q);
        if forall|k: int| 0 <= k < rc.len() ==> implied_by_one(#[trigger] rc[k], q) {
            assert forall|k: int| 0 <= k < init.len() implies implied_by_one(#[trigger] init[k], q) by {
                assert(init[k] == rc[k]);
            }
        }
        if every_child_implied_by_one(rc, q) {
            assert forall|k: int| 0 <= k < rc.len() implies implied_by_one(#[trigger] rc[k], q) by {
                if k < rc.len() - 1 {
                    assert(init[k] == rc[k]);
                }
            }
        }
    }
}

/// What `implied` decides is true of every set of tokens: whoever satisfies every provided
/// expression satisfies the requirement.
pub proof fn lemma_implied_sound(requirement: SpecExpr, provided: Seq<SpecExpr>, held: Set<SpecToken>)
    requires
        implied(requirement, provided),
        all_hold(provided, held),
    ensures
        holds(requirement, held),
    decreases requirement, provided, 2int,
{
    if provided.contains(requirement) {
        let i = choose|i: int| 0 <= i < provided.len() && provided[i] == requirement;
        assert(holds(provided[i], held));
    } else if requirement is Empty {
    } else if any_unlocks(requirement, provided) {
        lemma_any_unlocks_iff(requirement, provided);
        let i = choose|i: int| 0 <= i < provided.len() && unlocks(requirement, #[trigger] provided[i]);
        assert(holds(provided[i], held));
        lemma_unlocks_sound(requirement, provided[i], held);
    } else {
        match requirement {
            SpecExpr::Or(rc) => {
                lemma_some_child_iff(rc, provided);
                let k = choose|k: int| 0 <= k < rc.len() && implied(#[trigger] rc[k], provided);
                lemma_implied_sound(rc[k], provided, held);
                lemma_holds_junction(rc, held);
            },
            SpecExpr::And(rc) => {
                assert forall|k: int| 0 <= k < rc.len() implies #[trigger] holds(rc[k], held) by {
                    lemma_every_child_iff(rc, provided);
                    lemma_implied_sound(rc[k], provided, held);
                }
                lemma_holds_junction(rc, held);
            },
            _ => {},
        }
    }
}

/// What `unlocks` decides is true of every set of tokens.
pub proof fn lemma_unlocks_sound(requirement: SpecExpr, p: SpecExpr, held: Set<SpecToken>)
    requires
        unlocks(requirement, p),
        holds(p, held),
    ensures
        holds(requirement, held),
    decreases requirement, p, 0int,
{
    match p {
        SpecExpr::And(pc) => {
            lemma_holds_junction(pc, held);
            lemma_implied_sound(requirement, pc, held);
        },
        SpecExpr::Or(pc) => {
            lemma_holds_junction(pc, held);
            let k = choose|k: int| 0 <= k < pc.len() && #[trigger] holds(pc[k], held);
            lemma_every_alternative_iff(requirement, pc);
            lemma_implied_by_one_sound(requirement, pc[k], held);
        },
        _ => {},
    }
}

/// What `implied_by_one` decides is true of every set of tokens.
pub proof fn lemma_implied_by_one_sound(requirement: SpecExpr, q: SpecExpr, held: Set<SpecToken>)
    requires
        implied_by_one(requirement, q),
        holds(q, held),
    ensures
        holds(requirement, held),
    decreases requirement, q, 2int,
{
    if q == requirement {
    } else if requirement is Empty {
    } else if unlocks(requirement, q) {
        lemma_unlocks_sound(requirement, q, held);
    } else {
        match requirement {
            SpecExpr::Or(rc) => {
                lemma_some_child_by_one_iff(rc, q);
                let k = choose|k: int| 0 <= k < rc.len() && implied_by_one(#[trigger] rc[k], q);
                lemma_implied_by_one_sound(rc[k], q, held);
                lemma_holds_junction(rc, held);
            },
            SpecExpr::And(rc) => {
                assert forall|k: int| 0 <= k < rc.len() implies #[trigger] holds(rc[k], held) by {
                    lemma_every_child_by_one_iff(rc, q);
                    lemma_implied_by_one_sound(rc[k], q, held);
                }
                lemma_holds_junction(rc, held);
            },
            _ => {},
        }
    }
}

/// Whether `requirement` follows from every expression of `provided` holding, as their shapes show.
pub fn is_implied_by(requirement: &AccessExpression, provided: &[AccessExpression]) -> (r: bool)
    ensures
        r == implied(requirement@, views_of(provided@)),
    decreases requirement@, views_of(provided@), 2int,
{
    let ghost prov = views_of(provided@);
    proof {
        lemma_expr_view_junction(*requirement);
        lemma_any_unlocks_iff(requirement@, prov);
    }
    if contains_equal(provided, requirement) {
        return true;
    }
    if let AccessExpression::Empty = requirement {
        return true;
    }
    let mut i: usize = 0;
    while i < provided.len()
        invariant
            prov == views_of(provided@),
            i <= provided.len(),
            forall|j: int| 0 <= j < i ==> !unlocks(requirement@, #[trigger] prov[j]),
        decreases provided.len() - i,
    {
        proof {
            assert(prov[i as int] == provided@[i as int]@);
            assert(decreases_to!(prov => prov[i as int]));
        }
        if unlocks_expr(requirement, &provided[i]) {
            proof {
                lemma_any_unlocks_iff(requirement@, prov);
            }
            return true;
        }
        i += 1;
    }
    proof {
        lemma_any_unlocks_iff(requirement@, prov);
    }
    match requirement {
        AccessExpression::Or(rc) => {
            let ghost rv = views_of(rc@);
            let mut k: usize = 0;
            while k < rc.len()
                invariant
                    prov == views_of(provided@),
                    rv == views_of(rc@),
                    requirement@ == SpecExpr::Or(rv),
                    k <= rc.len(),
                    forall|j: int| 0 <= j < k ==> !implied(#[trigger] rv[j], prov),
                decreases rc.len() - k,
            {
                proof {
                    assert(rv[k as int] == rc@[k as int]@);
                    crate::model::lemma_spec_child_decreases(requirement@, k as int);
                }
                if is_implied_by(&rc[k], provided) {
                    proof {
                        lemma_some_child_iff(rv, prov);
                    }
                    return true;
                }
                k += 1;
            }
            proof {
                lemma_some_child_iff(rv, prov);
            }
            false
        },
        AccessExpression::And(rc) => {
            let ghost rv = views_of(rc@);
            let mut k: usize = 0;
            while k < rc.len()
                invariant
                    prov == views_of(provided@),
                    rv == views_of(rc@),
                    requirement@ == SpecExpr::And(rv),
                    !prov.contains(requirement@),
                    !any_unlocks(requirement@, prov),
                    k <= rc.len(),
                    forall|j: int| 0 <= j < k ==> implied(#[trigger] rv[j], prov),
                decreases rc.len() - k,
            {
                proof {
                    assert(rv[k as int] == rc@[k as int]@);
                    crate::model::lemma_spec_child_decreases(requirement@, k as int);
                }
                if !is_implied_by(&rc[k], provided) {
                    proof {
                        lemma_every_child_iff(rv, prov);
                    }
                    return false;
                }
                k += 1;
            }
            proof {
                lemma_every_child_iff(rv, prov);
            }
            true
        },
        _ => false,
    }
}

/// Whether the junction `p` implies `requirement` by its own shape.
fn unlocks_expr(requirement: &AccessExpression, p: &AccessExpression) -> (r: bool)
    ensures
        r == unlocks(requirement@, p@),
    decreases requirement@, p@, 0int,
{
    proof {
        lemma_expr_view_junction(*p);
    }
    match p {
        AccessExpression::And(pc) => {
            proof {
                crate::model::lemma_spec_child_decreases(p@, 0);
            }
            is_implied_by(requirement, pc.as_slice())
        },
        AccessExpression::Or(pc) => {
            let ghost pv = views_of(pc@);
            let mut j: usize = 0;
            while j < pc.len()
                invariant
                    pv == views_of(pc@),
                    p@ == SpecExpr::Or(pv),
                    j <= pc.len(),
                    forall|m: int| 0 <= m < j ==> implied_by_one(requirement@, #[trigger] pv[m]),
                decreases pc.len() - j,
            {
                proof {
                    assert(pv[j as int] == pc@[j as int]@);
                    crate::model::lemma_spec_child_decreases(p@, j as int);
                }
                if !is_implied_by_one(requirement, &pc[j]) {
                    proof {
                        lemma_every_alternative_iff(requirement@, pv);
                    }
                    return false;
                }
                j += 1;
            }
            proof {
                lemma_every_alternative_iff(requirement@, pv);
            }
            true
        },
        _ => false,
    }
}

/// Whether `requirement` follows from the single expression `q`.
pub fn is_implied_by_one(requirement: &AccessExpression, q: &AccessExpression) -> (r: bool)
    ensures
        r == implied_by_one(requirement@, q@),
    decreases requirement@, q@, 2int,
{
    proof {
        lemma_expr_view_junction(*requirement);
        AccessExpression::lemma_order_total(q@, requirement@);
    }
    if q.compare(requirement) == 0 {
        return true;
    }
    if let AccessExpression::Empty = requirement {
        return true;
    }
    if unlocks_expr(requirement, q) {
        return true;
    }
    match requirement {
        AccessExpression::Or(rc) => {
            let ghost rv = views_of(rc@);
            let mut k: usize = 0;
            while k < rc.len()
                invariant
                    rv == views_of(rc@),
                    requirement@ == SpecExpr::Or(rv),
                    k <= rc.len(),
                    forall|j: int| 0 <= j < k ==> !implied_by_one(#[trigger] rv[j], q@),
                decreases rc.len() - k,
            {
                proof {
                    assert(rv[k as int] == rc@[k as int]@);
                    crate::model::lemma_spec_child_decreases(requirement@, k as int);
                }
                if is_implied_by_one(&rc[k], q) {
                    proof {
                        lemma_some_child_by_one_iff(rv, q@);
                    }
                    return true;
                }
                k += 1;
            }
            proof {
                lemma_some_child_by_one_iff(rv, q@);
            }
            false
        },
        AccessExpression::And(rc) => {
            let ghost rv = views_of(rc@);
            let mut k: usize = 0;
            while k < rc.len()
                invariant
                    rv == views_of(rc@),
                    requirement@ == SpecExpr::And(rv),
                    q@ != requirement@,
                    !unlocks(requirement@, q@),
                    k <= rc.len(),
                    forall|j: int| 0 <= j < k ==> implied_by_one(#[trigger] rv[j], q@),
                decreases rc.len() - k,
            {
                proof {
                    assert(rv[k as int] == rc@[k as int]@);
                    crate::model::lemma_spec_child_decreases(requirement@, k as int);
                }
                if !is_implied_by_one(&rc[k], q) {
                    proof {
                        lemma_every_child_by_one_iff(rv, q@);
                    }
                    return false;
                }
                k += 1;
            }
            proof {
                lemma_every_child_by_one_iff(rv, q@);
            }
            true
        },
        _ => false,
    }
}

/// Each provided expression is implied by the expressions provided, and so is the empty one.
pub proof fn lemma_implied_by_provided(requirement: SpecExpr, provided: Seq<SpecExpr>)
    requires
        provided.contains(requirement) || requirement is Empty,
    ensures
        implied(requirement, provided),
{
}

/// A conjunction is implied by the expressions provided when each of its children is.
pub proof fn lemma_implied_conjunction(rc: Seq<SpecExpr>, provided: Seq<SpecExpr>)
    requires
        forall|k: int| 0 <= k < rc.len() ==> implied(#[trigger] rc[k], provided),
    ensures
        implied(SpecExpr::And(rc), provided),
{
    lemma_every_child_iff(rc, provided);
}

/// A disjunction is implied by the expressions provided when one of its children is.
pub proof fn lemma_implied_disjunction(rc: Seq<SpecExpr>, provided: Seq<SpecExpr>, k: int)
    requires
        0 <= k < rc.len(),
        implied(rc[k], provided),
    ensures
        implied(SpecExpr::Or(rc), provided),
{
    lemma_some_child_iff(rc, provided);
}

/// What the children of a provided conjunction imply together is implied by the expressions
/// provided.
pub proof fn lemma_implied_through_conjunction(requirement: SpecExpr, pc: Seq<SpecExpr>, provided: Seq<SpecExpr>)
    requires
        provided.contains(SpecExpr::And(pc)),
        implied(requirement, pc),
    ensures
        implied(requirement, provided),
{
    lemma_any_unlocks_iff(requirement, provided);
    let i = choose|i: int| 0 <= i < provided.len() && provided[i] == SpecExpr::And(pc);
    assert(unlocks(requirement, provided[i]));
}

/// What each child of a provided disjunction implies alone is implied by the expressions
/// provided.
pub proof fn lemma_implied_through_disjunction(requirement: SpecExpr, pc: Seq<SpecExpr>, provided: Seq<SpecExpr>)
    requires
        provided.contains(SpecExpr::Or(pc)),
        forall|k: int| 0 <= k < pc.len() ==> implied_by_one(requirement, #[trigger] pc[k]),
    ensures
        implied(requirement, provided),
{
    lemma_any_unlocks_iff(requirement, provided);
    lemma_every_alternative_iff(requirement, pc);
    let i = choose|i: int| 0 <= i < provided.len() && provided[i] == SpecExpr::Or(pc);
    assert(unlocks(requirement, provided[i]));
}

/// What one expression implies alone is what it implies as the only expression provided.
pub proof fn lemma_implied_by_one_alone(requirement: SpecExpr, q: SpecExpr)
    ensures
        implied_by_one(requirement, q) == implied(requirement, seq![q]),
    decreases requirement,
{
    let p = seq![q];
    lemma_any_unlocks_iff(requirement, p);
    assert(p.contains(requirement) == (q == requirement)) by {
        if p.contains(requirement) {
            assert(p[0] == requirement);
        }
        if q == requirement {
            assert(p[0] == q);
        }
    }
    assert(any_unlocks(requirement, p) == unlocks(requirement, q)) by {
        if unlocks(requirement, q) {
            assert(unlocks(requirement, p[0]));
        }
    }
    match requirement {
        SpecExpr::Or(rc) => {
            lemma_some_child_iff(rc, p);
            lemma_some_child_by_one_iff(rc, q);
            assert forall|k: int| 0 <= k < rc.len() implies implied_by_one(#[trigger] rc[k], q) == implied(rc[k], p) by {
                crate::model::lemma_spec_child_decreases(requirement, k);
                lemma_implied_by_one_alone(rc[k], q);
            }
        },
        SpecExpr::And(rc) => {
            lemma_every_child_iff(rc, p);
            lemma_every_child_by_one_iff(rc, q);
            assert forall|k: int| 0 <= k < rc.len() implies implied_by_one(#[trigger] rc[k], q) == implied(rc[k], p) by {
                crate::model::lemma_spec_child_decreases(requirement, k);
                lemma_implied_by_one_alone(rc[k], q);
            }
        },
        _ => {},
    }
}

/// An expression implies itself and the empty expression alone.
pub proof fn lemma_implied_by_one_itself(requirement: SpecExpr, q: SpecExpr)
    requires
        q == requirement || requirement is Empty,
    ensures
        implied_by_one(requirement, q),
{
}

/// A conjunction is implied by one expression when each of its children is.
pub proof fn lemma_implied_by_one_conjunction(rc: Seq<SpecExpr>, q: SpecExpr)
    requires
        forall|k: int| 0 <= k < rc.len() ==> implied_by_one(#[trigger] rc[k], q),
    ensures
        implied_by_one(SpecExpr::And(rc), q),
{
    lemma_every_child_by_one_iff(rc, q);
}

/// A disjunction is implied by one expression when one of its children is.
pub proof fn lemma_implied_by_one_disjunction(rc: Seq<SpecExpr>, q: SpecExpr, k: int)
    requires
        0 <= k < rc.len(),
        implied_by_one(rc[k], q),
    ensures
        implied_by_one(SpecExpr::Or(rc), q),
{
    lemma_some_child_by_one_iff(rc, q);
}

/// A conjunction implies what its children imply together; a disjunction implies what each of
/// its children implies alone.
pub proof fn lemma_implied_by_one_junction(requirement: SpecExpr, pc: Seq<SpecExpr>)
    ensures
        implied(requirement, pc) ==> implied_by_one(requirement, SpecExpr::And(pc)),
        (forall|k: int| 0 <= k < pc.len() ==> implied_by_one(requirement, #[trigger] pc[k])) ==> implied_by_one(
            requirement,
            SpecExpr::Or(pc),
        ),
{
    lemma_every_alternative_iff(requirement, pc);
}

} // verus!
