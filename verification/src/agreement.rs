//! Comparing two expressions on every choice of the tokens that occur in the first.
use vstd::prelude::*;
use vstd::arithmetic::power2::{pow2, lemma_pow2_unfold, lemma_pow2_strictly_increases, lemma2_to64_rest, lemma_pow2_pos};
use vstd::arithmetic::div_mod::lemma_div_denominator;
use crate::model::{SpecToken, SpecExpr, holds, all_hold, any_holds, equivalent, lemma_holds_junction};
use crate::types::{AccessToken, AccessExpression, AccessTokens, views_of};
use crate::sort::lemma_sort_dedup;
use crate::shape::well_formed;
use crate::evaluate::evaluate;
use crate::text::text_of_bytes;
use crate::expression::parse_expression;
use vstd::utf8::{encode_utf8, decode_utf8};
use crate::parsed::lemma_parsed_normal;
use crate::meaning::{reads_holds, lemma_reads_well_formed};
use crate::mentions::{tokens_in, relevant, lemma_tokens_in_child};

verus! {

/// Of the first `k` tokens of `ts`, those whose bit in `mask` is clear (bit `i` for `ts[i]`).
pub open spec fn picked(ts: Seq<SpecToken>, mask: nat, k: nat) -> Seq<SpecToken>
    decreases k,
{
    if k == 0 {
        Seq::empty()
    } else {
        let rest = picked(ts, mask, (k - 1) as nat);
        if (mask / pow2((k - 1) as nat)) % 2 == 0 {
            rest.push(ts[k - 1])
        } else {
            rest
        }
    }
}

/// `a` and `b` are satisfied alike by each of the `2^n` choices among the `n` tokens `ts`.
pub open spec fn agree_on_choices(a: SpecExpr, b: SpecExpr, ts: Seq<SpecToken>) -> bool {
    forall|mask: nat| mask < pow2(ts.len()) ==>
        #[trigger] holds(a, picked(ts, mask, ts.len()).to_set()) == holds(b, picked(ts, mask, ts.len()).to_set())
}

/// The tokens of `ts` whose bit in `mask` is clear.
fn choose_tokens(ts: &Vec<AccessToken>, mask: u64) -> (r: AccessTokens)
    ensures
        r@ == picked(views_of(ts@), mask as nat, ts.len() as nat),
{
    let ghost tv = views_of(ts@);
    let mut out: Vec<AccessToken> = Vec::new();
    let mut rest: u64 = mask;
    let mut index: usize = 0;
    proof {
        lemma_pow2_unfold(1);
        assert(pow2(0) == 1) by {
            vstd::arithmetic::power2::lemma2_to64();
        }
    }
    while index < ts.len()
        invariant
            tv == views_of(ts@),
            index <= ts.len(),
            views_of(out@) == picked(tv, mask as nat, index as nat),
            rest == mask as nat / pow2(index as nat),
        decreases ts.len() - index,
    {
        let ghost before = views_of(out@);
        proof {
            lemma_pow2_pos(index as nat);
        }
        if rest % 2 == 0 {
            out.push(ts[index].clone());
            assert(views_of(out@) =~= before.push(tv[index as int]));
        }
        proof {
            lemma_div_denominator(mask as int, pow2(index as nat) as int, 2);
            lemma_pow2_unfold((index + 1) as nat);
            assert(pow2(index as nat) * 2 == pow2((index + 1) as nat));
        }
        rest = rest / 2;
        index += 1;
    }
    AccessTokens { tokens: out }
}

/// Whether `e1` and `e2` are satisfied alike by every choice of the tokens that occur in `e1`
/// (which are fewer than 64): by each of the `2^n` sets made of some of those `n` tokens.
pub fn equivalent_on_choices(e1: &AccessExpression, e2: &AccessExpression) -> (r: bool)
    requires
        relevant(e1@).len() < 64,
    ensures
        r == agree_on_choices(e1@, e2@, relevant(e1@)),
{
    let tokens = e1.relevant_tokens();
    let ghost ts = tokens@;
    let n = tokens.tokens.len();
    let mut limit: u64 = 1;
    let mut k: usize = 0;
    proof {
        vstd::arithmetic::power2::lemma2_to64();
        lemma2_to64_rest();
    }
    while k < n
        invariant
            n == ts.len(),
            n < 64,
            k <= n,
            limit == pow2(k as nat),
            pow2(64) == 0x10000000000000000,
        decreases n - k,
    {
        proof {
            lemma_pow2_unfold((k + 1) as nat);
            lemma_pow2_strictly_increases((k + 1) as nat, 64);
        }
        limit = limit * 2;
        k += 1;
    }
    let mut condition: u64 = 0;
    while condition < limit
        invariant
            ts == tokens@,
            n == ts.len(),
            n == tokens.tokens.len(),
            ts == relevant(e1@),
            limit == pow2(n as nat),
            condition <= limit,
            forall|m: nat| m < condition ==>
                #[trigger] holds(e1@, picked(ts, m, n as nat).to_set()) == holds(e2@, picked(ts, m, n as nat).to_set()),
        decreases limit - condition,
    {
        let chosen = choose_tokens(&tokens.tokens, condition);
        let a = evaluate(e1, &chosen);
        let b = evaluate(e2, &chosen);
        if a != b {
            assert(!(holds(e1@, picked(ts, condition as nat, n as nat).to_set()) == holds(e2@, picked(ts, condition as nat, n as nat).to_set())));
            return false;
        }
        condition += 1;
    }
    true
}

/// `e` is satisfied, by each of the `2^n` choices among the `n` tokens `ts`, exactly where
/// simplification reads it as satisfied.
pub open spec fn read_alike_on_choices(e: SpecExpr, ts: Seq<SpecToken>) -> bool {
    forall|mask: nat| mask < pow2(ts.len()) ==>
        #[trigger] holds(e, picked(ts, mask, ts.len()).to_set()) == reads_holds(e, picked(ts, mask, ts.len()).to_set())
}

/// Checks that `e1` and `e2` are satisfied alike by every choice of the tokens that occur in
/// `e1` (which are fewer than 64); they must be, since a mismatch is a failure of the caller.
pub fn verify_equivalence(e1: &AccessExpression, e2: &AccessExpression)
    requires
        relevant(e1@).len() < 64,
        agree_on_choices(e1@, e2@, relevant(e1@)),
{
    let agreed = equivalent_on_choices(e1, e2);
    assert(agreed);
}

/// Checks that `expression` and its simplification are satisfied alike by every choice of the
/// tokens that occur in `expression` (which are fewer than 64); they must be, as they are for
/// every expression that simplification reads as it is satisfied there, such as a well-formed
/// one.
pub fn verify_simplification(expression: &AccessExpression)
    requires
        relevant(expression@).len() < 64,
        read_alike_on_choices(expression@, relevant(expression@)),
{
    let simplified = expression.simplify();
    proof {
        let ts = relevant(expression@);
        assert forall|mask: nat| mask < pow2(ts.len()) implies
            #[trigger] holds(expression@, picked(ts, mask, ts.len()).to_set()) == holds(simplified@, picked(ts, mask, ts.len()).to_set()) by {
            assert(holds(expression@, picked(ts, mask, ts.len()).to_set()) == reads_holds(expression@, picked(ts, mask, ts.len()).to_set()));
        }
    }
    verify_equivalence(expression, &simplified);
}

/// Every well-formed expression is read by simplification as it is satisfied, on every choice
/// of its tokens.
pub proof fn lemma_well_formed_read_alike(e: SpecExpr, ts: Seq<SpecToken>)
    requires
        well_formed(e),
    ensures
        read_alike_on_choices(e, ts),
{
    assert forall|mask: nat| mask < pow2(ts.len()) implies
        #[trigger] holds(e, picked(ts, mask, ts.len()).to_set()) == reads_holds(e, picked(ts, mask, ts.len()).to_set()) by {
        lemma_reads_well_formed(e, picked(ts, mask, ts.len()).to_set());
    }
}

/// Whether `e` is satisfied depends only on which of its own tokens are held.
proof fn lemma_holds_restricted(e: SpecExpr, held: Set<SpecToken>, keep: Set<SpecToken>)
    requires
        forall|t: SpecToken| #[trigger] tokens_in(e).contains(t) ==> keep.contains(t),
    ensures
        holds(e, held) == holds(e, held.intersect(keep)),
    decreases e,
{
    let small = held.intersect(keep);
    match e {
        SpecExpr::Token(t) => {
            assert(tokens_in(e)[0] == t);
            assert(tokens_in(e).contains(t));
        },
        SpecExpr::Empty => {},
        SpecExpr::And(cs) => {
            lemma_holds_junction(cs, held);
            lemma_holds_junction(cs, small);
            assert forall|i: int| 0 <= i < cs.len() implies #[trigger] holds(cs[i], held) == holds(cs[i], small) by {
                assert forall|t: SpecToken| #[trigger] tokens_in(cs[i]).contains(t) implies keep.contains(t) by {
                    lemma_tokens_in_child(cs, i, t);
                }
                crate::model::lemma_spec_child_decreases(e, i);
                lemma_holds_restricted(cs[i], held, keep);
            }
            if all_hold(cs, small) {
                assert forall|i: int| 0 <= i < cs.len() implies #[trigger] holds(cs[i], held) by {
                    assert(holds(cs[i], small));
                }
            }
            if all_hold(cs, held) {
                assert forall|i: int| 0 <= i < cs.len() implies #[trigger] holds(cs[i], small) by {
                    assert(holds(cs[i], held));
                }
            }
        },
        SpecExpr::Or(cs) => {
            lemma_holds_junction(cs, held);
            lemma_holds_junction(cs, small);
            assert forall|i: int| 0 <= i < cs.len() implies #[trigger] holds(cs[i], held) == holds(cs[i], small) by {
                assert forall|t: SpecToken| #[trigger] tokens_in(cs[i]).contains(t) implies keep.contains(t) by {
                    lemma_tokens_in_child(cs, i, t);
                }
                crate::model::lemma_spec_child_decreases(e, i);
                lemma_holds_restricted(cs[i], held, keep);
            }
            if any_holds(cs, small) {
                let i = choose|i: int| 0 <= i < cs.len() && #[trigger] holds(cs[i], small);
                assert(holds(cs[i], held));
            }
            if any_holds(cs, held) {
                let i = choose|i: int| 0 <= i < cs.len() && #[trigger] holds(cs[i], held);
                assert(holds(cs[i], small));
            }
        },
    }
}

/// The mask that picks, among the first `k` tokens of `ts`, those in `chosen`.
pub open spec fn mask_for(ts: Seq<SpecToken>, chosen: Set<SpecToken>, k: nat) -> nat
    decreases k,
{
    if k == 0 {
        0
    } else {
        mask_for(ts, chosen, (k - 1) as nat) + if chosen.contains(ts[k - 1]) {
            0nat
        } else {
            pow2((k - 1) as nat)
        }
    }
}

proof fn lemma_mask_bits(ts: Seq<SpecToken>, chosen: Set<SpecToken>, k: nat)
    ensures
        mask_for(ts, chosen, k) < pow2(k),
        forall|i: nat| i < k ==> #[trigger] ((mask_for(ts, chosen, k) / pow2(i)) % 2) == if chosen.contains(
            ts[i as int],
        ) {
            0int
        } else {
            1int
        },
    decreases k,
{
    if k == 0 {
        vstd::arithmetic::power2::lemma2_to64();
    } else {
        let k1 = (k - 1) as nat;
        lemma_mask_bits(ts, chosen, k1);
        let m = mask_for(ts, chosen, k1);
        let p = pow2(k1);
        let b: int = if chosen.contains(ts[k1 as int]) { 0 } else { 1 };
        lemma_pow2_unfold(k);
        lemma_pow2_pos(k1);
        assert(mask_for(ts, chosen, k) == m + b * p);
        assert forall|i: nat| i < k implies #[trigger] ((mask_for(ts, chosen, k) / pow2(i)) % 2) == if chosen.contains(
            ts[i as int],
        ) {
            0int
        } else {
            1int
        } by {
            lemma_pow2_pos(i);
            if i == k1 {
                vstd::arithmetic::div_mod::lemma_div_multiples_vanish_fancy(b, m as int, p as int);
                assert(p * b + m == m + b * p) by (nonlinear_arith);
            } else {
                let d = pow2(i);
                let r = pow2((k1 - i) as nat);
                vstd::arithmetic::power2::lemma_pow2_adds(i, (k1 - i) as nat);
                assert(p == d * r);
                vstd::arithmetic::div_mod::lemma_hoist_over_denominator(m as int, b * r, d);
                assert((b * r) * d == b * p) by (nonlinear_arith)
                    requires
                        p == d * r,
                ;
                lemma_pow2_unfold((k1 - i) as nat);
                let r2 = pow2((k1 - i - 1) as nat);
                assert(b * r == 2 * (b * r2)) by (nonlinear_arith)
                    requires
                        r == 2 * r2,
                ;
                vstd::arithmetic::div_mod::lemma_mod_multiples_vanish(b * r2, m as int / d as int, 2);
                assert((mask_for(ts, chosen, k) / pow2(i)) == m as int / d as int + b * r);
            }
        }
    }
}

proof fn lemma_picked_contents(ts: Seq<SpecToken>, mask: nat, k: nat, t: SpecToken)
    requires
        k <= ts.len(),
    ensures
        picked(ts, mask, k).contains(t) <==> exists|i: int|
            0 <= i < k && (mask / pow2(i as nat)) % 2 == 0 && #[trigger] ts[i] == t,
    decreases k,
{
    if k > 0 {
        let k1 = (k - 1) as nat;
        lemma_picked_contents(ts, mask, k1, t);
        let rest = picked(ts, mask, k1);
        if (mask / pow2(k1)) % 2 == 0 {
            assert(picked(ts, mask, k) == rest.push(ts[k1 as int]));
            if picked(ts, mask, k).contains(t) {
                let j = choose|j: int| 0 <= j < rest.len() + 1 && rest.push(ts[k1 as int])[j] == t;
                if j == rest.len() {
                    assert(ts[k1 as int] == t);
                } else {
                    assert(rest[j] == t);
                }
            }
            if exists|i: int| 0 <= i < k && (mask / pow2(i as nat)) % 2 == 0 && #[trigger] ts[i] == t {
                let i = choose|i: int| 0 <= i < k && (mask / pow2(i as nat)) % 2 == 0 && #[trigger] ts[i] == t;
                if i == k1 {
                    assert(rest.push(ts[k1 as int])[rest.len() as int] == t);
                } else {
                    let j = choose|j: int| 0 <= j < rest.len() && rest[j] == t;
                    assert(rest.push(ts[k1 as int])[j] == t);
                }
            }
        } else {
            if exists|i: int| 0 <= i < k && (mask / pow2(i as nat)) % 2 == 0 && #[trigger] ts[i] == t {
                let i = choose|i: int| 0 <= i < k && (mask / pow2(i as nat)) % 2 == 0 && #[trigger] ts[i] == t;
                assert(i != k1);
            }
        }
    }
}

/// Comparing on every choice of the tokens of `e1` is the same as comparing on every set of
/// tokens, when `e2` mentions no token that `e1` does not: `verify_equivalence` answers whether
/// the two expressions mean the same.
pub proof fn lemma_agreement_complete(e1: SpecExpr, e2: SpecExpr)
    requires
        forall|t: SpecToken| #[trigger] tokens_in(e2).contains(t) ==> tokens_in(e1).contains(t),
    ensures
        agree_on_choices(e1, e2, relevant(e1)) == equivalent(e1, e2),
{
    let ts = relevant(e1);
    let n = ts.len();
    let keep = ts.to_set();
    lemma_sort_dedup::<AccessToken>(tokens_in(e1));
    if agree_on_choices(e1, e2, ts) {
        assert forall|held: Set<SpecToken>| #[trigger] holds(e1, held) == holds(e2, held) by {
            let small = held.intersect(keep);
            assert forall|t: SpecToken| #[trigger] tokens_in(e1).contains(t) implies keep.contains(t) by {
                assert(ts.contains(t));
            }
            assert forall|t: SpecToken| #[trigger] tokens_in(e2).contains(t) implies keep.contains(t) by {
                assert(tokens_in(e1).contains(t));
                assert(ts.contains(t));
            }
            lemma_holds_restricted(e1, held, keep);
            lemma_holds_restricted(e2, held, keep);
            let mask = mask_for(ts, small, n);
            lemma_mask_bits(ts, small, n);
            let chosen = picked(ts, mask, n);
            assert(chosen.to_set() =~= small) by {
                assert forall|t: SpecToken| #[trigger] chosen.to_set().contains(t) == small.contains(t) by {
                    lemma_picked_contents(ts, mask, n, t);
                    if chosen.contains(t) {
                        let i = choose|i: int| 0 <= i < n && (mask / pow2(i as nat)) % 2 == 0 && #[trigger] ts[i] == t;
                        assert((mask / pow2(i as nat)) % 2 == if small.contains(ts[i]) { 0int } else { 1int });
                    }
                    if small.contains(t) {
                        assert(keep.contains(t));
                        let i = choose|i: int| 0 <= i < n && ts[i] == t;
                        assert((mask / pow2(i as nat)) % 2 == if small.contains(ts[i]) { 0int } else { 1int });
                        assert(ts[i] == t);
                    }
                }
            }
            assert(holds(e1, chosen.to_set()) == holds(e2, chosen.to_set()));
        }
    }
}

/// `data` is the UTF-8 encoding of a text that reads as an expression mentioning at most six
/// tokens.
pub open spec fn small_expression_text(data: Seq<u8>) -> bool {
    exists|cs: Seq<char>| #[trigger] encode_utf8(cs) == data && parse_expression(cs) is Ok && relevant(
        parse_expression(cs)->Ok_0,
    ).len() <= 6
}

/// Checks the simplification of the expression written in `data`, when `data` is UTF-8 text
/// that reads as an expression mentioning at most six tokens: that the expression and its
/// simplification agree on every choice of those tokens (which never fails, since what reading
/// gives is well formed). Tells whether `data` was such text and so was checked.
pub fn verify(data: &[u8]) -> (r: bool)
    ensures
        r == small_expression_text(data@),
{
    proof {
        broadcast use vstd::utf8::encode_utf8_decode_utf8;
    }
    match text_of_bytes(data) {
        Some(text) => match crate::expression::access_expression(text) {
            Ok(e) => {
                let tokens = e.relevant_tokens();
                if tokens.tokens.len() <= 6 {
                    proof {
                        lemma_parsed_normal(text@);
                        lemma_well_formed_read_alike(e@, relevant(e@));
                        assert(encode_utf8(text@) == data@);
                    }
                    verify_simplification(&e);
                    true
                } else {
                    proof {
                        assert forall|cs: Seq<char>| #[trigger] encode_utf8(cs) == data@ implies !(parse_expression(cs) is Ok
                            && relevant(parse_expression(cs)->Ok_0).len() <= 6) by {
                            assert(decode_utf8(encode_utf8(cs)) == cs);
                            assert(decode_utf8(encode_utf8(text@)) == text@);
                        }
                    }
                    false
                }
            },
            Err(_) => {
                proof {
                    assert forall|cs: Seq<char>| #[trigger] encode_utf8(cs) == data@ implies !(parse_expression(cs) is Ok) by {
                        assert(decode_utf8(encode_utf8(cs)) == cs);
                        assert(decode_utf8(encode_utf8(text@)) == text@);
                    }
                }
                false
            },
        },
        None => false,
    }
}

/// Holding more tokens never takes access away: an expression satisfied by `h1` is satisfied by
/// every set of tokens that includes `h1`.
pub proof fn lemma_holds_monotone(e: SpecExpr, h1: Set<SpecToken>, h2: Set<SpecToken>)
    requires
        h1.subset_of(h2),
    ensures
        holds(e, h1) ==> holds(e, h2),
    decreases e,
{
    match e {
        SpecExpr::And(cs) => {
            lemma_holds_junction(cs, h1);
            lemma_holds_junction(cs, h2);
            if all_hold(cs, h1) {
                assert forall|i: int| 0 <= i < cs.len() implies #[trigger] holds(cs[i], h2) by {
                    crate::model::lemma_spec_child_decreases(e, i);
                    lemma_holds_monotone(cs[i], h1, h2);
                    assert(holds(cs[i], h1));
                }
            }
        },
        SpecExpr::Or(cs) => {
            lemma_holds_junction(cs, h1);
            lemma_holds_junction(cs, h2);
            if any_holds(cs, h1) {
                let i = choose|i: int| 0 <= i < cs.len() && #[trigger] holds(cs[i], h1);
                crate::model::lemma_spec_child_decreases(e, i);
                lemma_holds_monotone(cs[i], h1, h2);
            }
        },
        _ => {},
    }
}

/// Only the tokens that an expression mentions decide whether it is satisfied: two sets of
/// tokens that agree on those give the same answer, whatever else they hold.
pub proof fn lemma_holds_mentioned_only(e: SpecExpr, h1: Set<SpecToken>, h2: Set<SpecToken>)
    requires
        forall|t: SpecToken| #[trigger] tokens_in(e).contains(t) ==> (h1.contains(t) == h2.contains(t)),
    ensures
        holds(e, h1) == holds(e, h2),
{
    let keep = tokens_in(e).to_set();
    lemma_holds_restricted(e, h1, keep);
    lemma_holds_restricted(e, h2, keep);
    assert(h1.intersect(keep) =~= h2.intersect(keep));
}

} // verus!
