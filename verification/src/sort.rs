//! Sorting and removing adjacent duplicates, by a total order.
use vstd::prelude::*;
use crate::order::TotalOrder;
use crate::types::views_of;

verus! {


/// Inserts `x` into `s` after every element that is not greater than `x`.
pub open spec fn insert_sorted<T: TotalOrder>(s: Seq<T::V>, x: T::V) -> Seq<T::V>
    decreases s.len(),
{
    if s.len() == 0 {
        seq![x]
    } else if T::order(x, s[0]) < 0 {
        seq![x] + s
    } else {
        seq![s[0]] + insert_sorted::<T>(s.subrange(1, s.len() as int), x)
    }
}

/// The elements of `s` in ascending order (insertion sort).
pub open spec fn sort_seq<T: TotalOrder>(s: Seq<T::V>) -> Seq<T::V>
    decreases s.len(),
{
    if s.len() == 0 {
        s
    } else {
        insert_sorted::<T>(sort_seq::<T>(s.subrange(1, s.len() as int)), s[0])
    }
}

/// `s` with every run of equal adjacent elements reduced to one element.
pub open spec fn dedup_seq<A>(s: Seq<A>) -> Seq<A>
    decreases s.len(),
{
    if s.len() == 0 {
        s
    } else {
        let r = dedup_seq(s.subrange(1, s.len() as int));
        if r.len() > 0 && r[0] == s[0] {
            r
        } else {
            seq![s[0]] + r
        }
    }
}

/// `s` is in ascending order.
pub open spec fn is_sorted<T: TotalOrder>(s: Seq<T::V>) -> bool {
    forall|i: int, j: int| 0 <= i < j < s.len() ==> T::order(#[trigger] s[i], #[trigger] s[j]) <= 0
}

/// `s` is in strictly ascending order: sorted, with no element twice.
pub open spec fn is_strictly_sorted<T: TotalOrder>(s: Seq<T::V>) -> bool {
    forall|i: int, j: int| 0 <= i < j < s.len() ==> T::order(#[trigger] s[i], #[trigger] s[j]) < 0
}

/// The sorted sequence of the distinct elements of `s`.
pub open spec fn sort_dedup<T: TotalOrder>(s: Seq<T::V>) -> Seq<T::V> {
    dedup_seq(sort_seq::<T>(s))
}

pub proof fn lemma_order_facts<T: TotalOrder>()
    ensures
        forall|a: T::V, b: T::V| #[trigger] T::order(a, b) == -T::order(b, a),
        forall|a: T::V, b: T::V| (#[trigger] T::order(a, b) == 0) == (a == b),
        forall|a: T::V, b: T::V| -1 <= #[trigger] T::order(a, b) <= 1,
        forall|a: T::V, b: T::V, c: T::V|
            #[trigger] T::order(a, b) <= 0 && #[trigger] T::order(b, c) <= 0 ==> T::order(a, c) <= 0,
{
    assert forall|a: T::V, b: T::V| #[trigger] T::order(a, b) == -T::order(b, a) by {
        T::lemma_order_total(a, b);
    }
    assert forall|a: T::V, b: T::V| (#[trigger] T::order(a, b) == 0) == (a == b) by {
        T::lemma_order_total(a, b);
    }
    assert forall|a: T::V, b: T::V| -1 <= #[trigger] T::order(a, b) <= 1 by {
        T::lemma_order_total(a, b);
    }
    assert forall|a: T::V, b: T::V, c: T::V|
        #[trigger] T::order(a, b) <= 0 && #[trigger] T::order(b, c) <= 0 implies T::order(a, c) <= 0 by {
        T::lemma_order_transitive(a, b, c);
    }
}

/// Inserting at the first position whose element is greater than `x`.
pub proof fn lemma_insert_position<T: TotalOrder>(r: Seq<T::V>, x: T::V, k: int)
    requires
        0 <= k <= r.len(),
        forall|j: int| 0 <= j < k ==> T::order(x, #[trigger] r[j]) >= 0,
        k < r.len() ==> T::order(x, r[k]) < 0,
    ensures
        insert_sorted::<T>(r, x) == r.insert(k, x),
    decreases r.len(),
{
    if r.len() == 0 {
        assert(seq![x] =~= r.insert(k, x));
    } else if k == 0 {
        assert(seq![x] + r =~= r.insert(k, x));
    } else {
        let r1 = r.subrange(1, r.len() as int);
        assert forall|j: int| 0 <= j < k - 1 implies T::order(x, #[trigger] r1[j]) >= 0 by {
            assert(r1[j] == r[j + 1]);
        }
        lemma_insert_position::<T>(r1, x, k - 1);
        assert(seq![r[0]] + r1.insert(k - 1, x) =~= r.insert(k, x));
    }
}

pub proof fn lemma_insert_contents<T: TotalOrder>(r: Seq<T::V>, x: T::V)
    ensures
        insert_sorted::<T>(r, x).len() == r.len() + 1,
        forall|y: T::V| #[trigger] insert_sorted::<T>(r, x).contains(y) <==> (r.contains(y) || y == x),
        is_sorted::<T>(r) ==> is_sorted::<T>(insert_sorted::<T>(r, x)),
    decreases r.len(),
{
    lemma_order_facts::<T>();
    let res = insert_sorted::<T>(r, x);
    if r.len() == 0 {
        assert forall|y: T::V| #[trigger] res.contains(y) <==> (r.contains(y) || y == x) by {
            if res.contains(y) {
                assert(res[0] == x);
            }
            if y == x {
                assert(res[0] == y);
            }
        }
    } else if T::order(x, r[0]) < 0 {
        assert forall|y: T::V| #[trigger] res.contains(y) <==> (r.contains(y) || y == x) by {
            if res.contains(y) {
                let i = choose|i: int| 0 <= i < res.len() && res[i] == y;
                if i > 0 {
                    assert(r[i - 1] == y);
                }
            }
            if r.contains(y) {
                let i = choose|i: int| 0 <= i < r.len() && r[i] == y;
                assert(res[i + 1] == y);
            }
            if y == x {
                assert(res[0] == y);
            }
        }
        if is_sorted::<T>(r) {
            assert forall|i: int, j: int| 0 <= i < j < res.len() implies T::order(#[trigger] res[i], #[trigger] res[j]) <= 0 by {
                if i == 0 {
                    assert(res[j] == r[j - 1]);
                    if j - 1 > 0 {
                        assert(T::order(r[0], r[j - 1]) <= 0);
                    }
                } else {
                    assert(res[i] == r[i - 1]);
                    assert(res[j] == r[j - 1]);
                }
            }
        }
    } else {
        let r1 = r.subrange(1, r.len() as int);
        lemma_insert_contents::<T>(r1, x);
        let i1 = insert_sorted::<T>(r1, x);
        assert(res == seq![r[0]] + i1);
        assert forall|y: T::V| #[trigger] res.contains(y) <==> (r.contains(y) || y == x) by {
            if res.contains(y) {
                let i = choose|i: int| 0 <= i < res.len() && res[i] == y;
                if i > 0 {
                    assert(i1[i - 1] == y);
                    assert(i1.contains(y));
                    if r1.contains(y) {
                        let j = choose|j: int| 0 <= j < r1.len() && r1[j] == y;
                        assert(r[j + 1] == y);
                    }
                } else {
                    assert(r[0] == y);
                }
            }
            if r.contains(y) {
                let i = choose|i: int| 0 <= i < r.len() && r[i] == y;
                if i > 0 {
                    assert(r1[i - 1] == y);
                    assert(r1.contains(y));
                    assert(i1.contains(y));
                    let j = choose|j: int| 0 <= j < i1.len() && i1[j] == y;
                    assert(res[j + 1] == y);
                } else {
                    assert(res[0] == y);
                }
            }
            if y == x {
                assert(i1.contains(y));
                let j = choose|j: int| 0 <= j < i1.len() && i1[j] == y;
                assert(res[j + 1] == y);
            }
        }
        if is_sorted::<T>(r) {
            assert(is_sorted::<T>(r1)) by {
                assert forall|i: int, j: int| 0 <= i < j < r1.len() implies T::order(#[trigger] r1[i], #[trigger] r1[j]) <= 0 by {
                    assert(r1[i] == r[i + 1]);
                    assert(r1[j] == r[j + 1]);
                }
            }
            assert forall|i: int, j: int| 0 <= i < j < res.len() implies T::order(#[trigger] res[i], #[trigger] res[j]) <= 0 by {
                if i == 0 {
                    assert(res[0] == r[0]);
                    assert(res[j] == i1[j - 1]);
                    assert(i1.contains(i1[j - 1]));
                    if r1.contains(i1[j - 1]) {
                        let m = choose|m: int| 0 <= m < r1.len() && r1[m] == i1[j - 1];
                        assert(r[m + 1] == r1[m]);
                    }
                } else {
                    assert(res[i] == i1[i - 1]);
                    assert(res[j] == i1[j - 1]);
                }
            }
        }
    }
}

pub proof fn lemma_sort_contents<T: TotalOrder>(s: Seq<T::V>)
    ensures
        sort_seq::<T>(s).len() == s.len(),
        forall|y: T::V| #[trigger] sort_seq::<T>(s).contains(y) <==> s.contains(y),
        is_sorted::<T>(sort_seq::<T>(s)),
    decreases s.len(),
{
    if s.len() > 0 {
        let s1 = s.subrange(1, s.len() as int);
        lemma_sort_contents::<T>(s1);
        lemma_insert_contents::<T>(sort_seq::<T>(s1), s[0]);
        assert forall|y: T::V| #[trigger] sort_seq::<T>(s).contains(y) <==> s.contains(y) by {
            if s.contains(y) {
                let i = choose|i: int| 0 <= i < s.len() && s[i] == y;
                if i > 0 {
                    assert(s1[i - 1] == y);
                }
            }
            if s1.contains(y) {
                let i = choose|i: int| 0 <= i < s1.len() && s1[i] == y;
                assert(s[i + 1] == y);
            }
        }
    }
}

/// Inserting an element that is not greater than any element puts it first.
proof fn lemma_insert_least<T: TotalOrder>(r: Seq<T::V>, x: T::V)
    requires
        is_sorted::<T>(r),
        forall|j: int| 0 <= j < r.len() ==> T::order(x, #[trigger] r[j]) <= 0,
    ensures
        insert_sorted::<T>(r, x) == seq![x] + r,
    decreases r.len(),
{
    lemma_order_facts::<T>();
    if r.len() > 0 && T::order(x, r[0]) >= 0 {
        let r1 = r.subrange(1, r.len() as int);
        assert(x == r[0]);
        assert forall|i: int, j: int| 0 <= i < j < r1.len() implies T::order(#[trigger] r1[i], #[trigger] r1[j]) <= 0 by {
            assert(r1[i] == r[i + 1]);
            assert(r1[j] == r[j + 1]);
        }
        assert forall|j: int| 0 <= j < r1.len() implies T::order(x, #[trigger] r1[j]) <= 0 by {
            assert(r1[j] == r[j + 1]);
        }
        lemma_insert_least::<T>(r1, x);
        assert(seq![r[0]] + (seq![x] + r1) =~= seq![x] + r);
    }
}

/// Inserting a new element into a sequence without duplicates gives one without duplicates.
proof fn lemma_insert_no_duplicates<T: TotalOrder>(r: Seq<T::V>, x: T::V)
    requires
        r.no_duplicates(),
        !r.contains(x),
    ensures
        insert_sorted::<T>(r, x).no_duplicates(),
    decreases r.len(),
{
    if r.len() > 0 {
        if T::order(x, r[0]) < 0 {
            let q = seq![x] + r;
            assert forall|i: int, j: int| 0 <= i < q.len() && 0 <= j < q.len() && i != j implies q[i] != q[j] by {
                if i == 0 {
                    assert(r.contains(q[j]));
                } else if j == 0 {
                    assert(r.contains(q[i]));
                }
            }
        } else {
            let r1 = r.subrange(1, r.len() as int);
            assert forall|i: int, j: int| 0 <= i < r1.len() && 0 <= j < r1.len() && i != j implies r1[i] != r1[j] by {
                assert(r1[i] == r[i + 1] && r1[j] == r[j + 1]);
            }
            assert(!r1.contains(x)) by {
                if r1.contains(x) {
                    let k = choose|k: int| 0 <= k < r1.len() && r1[k] == x;
                    assert(r[k + 1] == x);
                }
            }
            lemma_insert_no_duplicates::<T>(r1, x);
            lemma_insert_contents::<T>(r1, x);
            let rest = insert_sorted::<T>(r1, x);
            let q = seq![r[0]] + rest;
            assert(!rest.contains(r[0])) by {
                if rest.contains(r[0]) {
                    if r[0] != x {
                        assert(r1.contains(r[0]));
                        let k = choose|k: int| 0 <= k < r1.len() && r1[k] == r[0];
                        assert(r[k + 1] == r[0]);
                    } else {
                        assert(r.contains(x));
                    }
                }
            }
            assert forall|i: int, j: int| 0 <= i < q.len() && 0 <= j < q.len() && i != j implies q[i] != q[j] by {
                if i == 0 {
                    assert(rest.contains(q[j]));
                } else if j == 0 {
                    assert(rest.contains(q[i]));
                } else {
                    assert(q[i] == rest[i - 1] && q[j] == rest[j - 1]);
                }
            }
        }
    }
}

/// Sorting a sequence without duplicates gives one without duplicates.
pub proof fn lemma_sort_no_duplicates<T: TotalOrder>(s: Seq<T::V>)
    requires
        s.no_duplicates(),
    ensures
        sort_seq::<T>(s).no_duplicates(),
    decreases s.len(),
{
    if s.len() > 0 {
        let s1 = s.subrange(1, s.len() as int);
        assert forall|i: int, j: int| 0 <= i < s1.len() && 0 <= j < s1.len() && i != j implies s1[i] != s1[j] by {
            assert(s1[i] == s[i + 1] && s1[j] == s[j + 1]);
        }
        lemma_sort_no_duplicates::<T>(s1);
        lemma_sort_contents::<T>(s1);
        assert(!sort_seq::<T>(s1).contains(s[0])) by {
            if sort_seq::<T>(s1).contains(s[0]) {
                assert(s1.contains(s[0]));
                let k = choose|k: int| 0 <= k < s1.len() && s1[k] == s[0];
                assert(s[k + 1] == s[0]);
            }
        }
        lemma_insert_no_duplicates::<T>(sort_seq::<T>(s1), s[0]);
    }
}

/// Sorting a sorted sequence changes nothing.
pub proof fn lemma_sort_sorted<T: TotalOrder>(s: Seq<T::V>)
    requires
        is_sorted::<T>(s),
    ensures
        sort_seq::<T>(s) == s,
    decreases s.len(),
{
    if s.len() > 0 {
        let s1 = s.subrange(1, s.len() as int);
        assert forall|i: int, j: int| 0 <= i < j < s1.len() implies T::order(#[trigger] s1[i], #[trigger] s1[j]) <= 0 by {
            assert(s1[i] == s[i + 1]);
            assert(s1[j] == s[j + 1]);
        }
        lemma_sort_sorted::<T>(s1);
        assert forall|j: int| 0 <= j < s1.len() implies T::order(s[0], #[trigger] s1[j]) <= 0 by {
            assert(s1[j] == s[j + 1]);
        }
        lemma_insert_least::<T>(s1, s[0]);
        assert(seq![s[0]] + s1 =~= s);
    }
}

pub proof fn lemma_dedup_contents<T: TotalOrder>(s: Seq<T::V>)
    ensures
        dedup_seq(s).len() <= s.len(),
        forall|y: T::V| #[trigger] dedup_seq(s).contains(y) <==> s.contains(y),
        s.len() > 0 ==> dedup_seq(s).len() > 0 && dedup_seq(s)[0] == s[0],
        is_sorted::<T>(s) ==> is_strictly_sorted::<T>(dedup_seq(s)),
    decreases s.len(),
{
    lemma_order_facts::<T>();
    if s.len() > 0 {
        let s1 = s.subrange(1, s.len() as int);
        lemma_dedup_contents::<T>(s1);
        let r = dedup_seq(s1);
        let d = dedup_seq(s);
        assert forall|y: T::V| #[trigger] d.contains(y) <==> s.contains(y) by {
            if s.contains(y) {
                let i = choose|i: int| 0 <= i < s.len() && s[i] == y;
                if i > 0 {
                    assert(s1[i - 1] == y);
                    assert(r.contains(y));
                    let j = choose|j: int| 0 <= j < r.len() && r[j] == y;
                    if !(r.len() > 0 && r[0] == s[0]) {
                        assert(d[j + 1] == y);
                    }
                } else {
                    if r.len() > 0 && r[0] == s[0] {
                        assert(d[0] == y);
                    } else {
                        assert(d[0] == y);
                    }
                }
            }
            if d.contains(y) {
                let i = choose|i: int| 0 <= i < d.len() && d[i] == y;
                if r.len() > 0 && r[0] == s[0] {
                    assert(r.contains(y));
                } else if i > 0 {
                    assert(r[i - 1] == y);
                    assert(r.contains(y));
                } else {
                    assert(s[0] == y);
                }
                if r.contains(y) {
                    let j = choose|j: int| 0 <= j < s1.len() && s1[j] == y;
                    assert(s[j + 1] == y);
                }
            }
        }
        if is_sorted::<T>(s) {
            assert forall|i: int, j: int| 0 <= i < j < s1.len() implies T::order(#[trigger] s1[i], #[trigger] s1[j]) <= 0 by {
                assert(s1[i] == s[i + 1]);
                assert(s1[j] == s[j + 1]);
            }
            if !(r.len() > 0 && r[0] == s[0]) {
                assert forall|i: int, j: int| 0 <= i < j < d.len() implies T::order(#[trigger] d[i], #[trigger] d[j]) < 0 by {
                    if i == 0 {
                        assert(d[j] == r[j - 1]);
                        assert(r.contains(r[j - 1]));
                        let m = choose|m: int| 0 <= m < s1.len() && s1[m] == r[j - 1];
                        assert(s[m + 1] == s1[m]);
                        assert(T::order(s[0], s[m + 1]) <= 0);
                        if j - 1 > 0 {
                            assert(T::order(r[0], r[j - 1]) < 0);
                            assert(r[0] == s1[0]);
                            assert(s1[0] == s[1]);
                            assert(T::order(s[0], s[1]) <= 0);
                        } else {
                            assert(r[0] == s1[0]);
                            assert(s1[0] == s[1]);
                            assert(T::order(s[0], s[1]) <= 0);
                        }
                    } else {
                        assert(d[i] == r[i - 1]);
                        assert(d[j] == r[j - 1]);
                    }
                }
            }
        }
    }
}

/// Two strictly sorted sequences with the same elements are equal.
pub proof fn lemma_strictly_sorted_unique<T: TotalOrder>(a: Seq<T::V>, b: Seq<T::V>)
    requires
        is_strictly_sorted::<T>(a),
        is_strictly_sorted::<T>(b),
        forall|y: T::V| #[trigger] a.contains(y) <==> b.contains(y),
    ensures
        a == b,
    decreases a.len(),
{
    lemma_order_facts::<T>();
    if a.len() == 0 {
        if b.len() > 0 {
            assert(b.contains(b[0]));
            assert(a.contains(b[0]));
        }
        assert(a =~= b);
    } else {
        assert(a.contains(a[0]));
        assert(b.len() > 0);
        assert(b.contains(a[0]));
        assert(b.contains(b[0]));
        assert(a.contains(b[0]));
        let i = choose|i: int| 0 <= i < a.len() && a[i] == b[0];
        let j = choose|j: int| 0 <= j < b.len() && b[j] == a[0];
        if i > 0 {
            assert(T::order(a[0], a[i]) < 0);
        }
        if j > 0 {
            assert(T::order(b[0], b[j]) < 0);
        }
        assert(a[0] == b[0]);
        let a1 = a.subrange(1, a.len() as int);
        let b1 = b.subrange(1, b.len() as int);
        assert forall|y: T::V| #[trigger] a1.contains(y) <==> b1.contains(y) by {
            if a1.contains(y) {
                let k = choose|k: int| 0 <= k < a1.len() && a1[k] == y;
                assert(a[k + 1] == y);
                assert(T::order(a[0], a[k + 1]) < 0);
                assert(a.contains(y));
                assert(b.contains(y));
                let m = choose|m: int| 0 <= m < b.len() && b[m] == y;
                assert(m != 0);
                assert(b1[m - 1] == y);
            }
            if b1.contains(y) {
                let k = choose|k: int| 0 <= k < b1.len() && b1[k] == y;
                assert(b[k + 1] == y);
                assert(T::order(b[0], b[k + 1]) < 0);
                assert(b.contains(y));
                assert(a.contains(y));
                let m = choose|m: int| 0 <= m < a.len() && a[m] == y;
                assert(m != 0);
                assert(a1[m - 1] == y);
            }
        }
        assert forall|p: int, q: int| 0 <= p < q < a1.len() implies T::order(#[trigger] a1[p], #[trigger] a1[q]) < 0 by {
            assert(a1[p] == a[p + 1]);
            assert(a1[q] == a[q + 1]);
        }
        assert forall|p: int, q: int| 0 <= p < q < b1.len() implies T::order(#[trigger] b1[p], #[trigger] b1[q]) < 0 by {
            assert(b1[p] == b[p + 1]);
            assert(b1[q] == b[q + 1]);
        }
        lemma_strictly_sorted_unique::<T>(a1, b1);
        assert(a =~= seq![a[0]] + a1);
        assert(b =~= seq![b[0]] + b1);
    }
}

/// The sorted distinct elements: strictly sorted, with exactly the elements of `s`.
pub proof fn lemma_sort_dedup<T: TotalOrder>(s: Seq<T::V>)
    ensures
        is_strictly_sorted::<T>(sort_dedup::<T>(s)),
        forall|y: T::V| #[trigger] sort_dedup::<T>(s).contains(y) <==> s.contains(y),
        sort_dedup::<T>(s).len() <= s.len(),
{
    lemma_sort_contents::<T>(s);
    lemma_dedup_contents::<T>(sort_seq::<T>(s));
}

/// Two sequences with the same elements have the same sorted distinct elements.
pub proof fn lemma_sort_dedup_same<T: TotalOrder>(a: Seq<T::V>, b: Seq<T::V>)
    requires
        forall|y: T::V| #[trigger] a.contains(y) <==> b.contains(y),
    ensures
        sort_dedup::<T>(a) == sort_dedup::<T>(b),
{
    lemma_sort_dedup::<T>(a);
    lemma_sort_dedup::<T>(b);
    assert forall|y: T::V| #[trigger] sort_dedup::<T>(a).contains(y) <==> sort_dedup::<T>(b).contains(y) by {
        if a.contains(y) {
            assert(b.contains(y));
        }
        if b.contains(y) {
            assert(a.contains(y));
        }
    }
    lemma_strictly_sorted_unique::<T>(sort_dedup::<T>(a), sort_dedup::<T>(b));
}

/// An element of a concatenation is an element of one of its parts.
pub proof fn lemma_contains_append<A>(a: Seq<A>, b: Seq<A>)
    ensures
        forall|y: A| #[trigger] (a + b).contains(y) <==> a.contains(y) || b.contains(y),
{
    assert forall|y: A| #[trigger] (a + b).contains(y) <==> a.contains(y) || b.contains(y) by {
        if (a + b).contains(y) {
            let i = choose|i: int| 0 <= i < (a + b).len() && (a + b)[i] == y;
            if i < a.len() {
                assert(a[i] == y);
            } else {
                assert(b[i - a.len()] == y);
            }
        }
        if a.contains(y) {
            let i = choose|i: int| 0 <= i < a.len() && a[i] == y;
            assert((a + b)[i] == y);
        }
        if b.contains(y) {
            let i = choose|i: int| 0 <= i < b.len() && b[i] == y;
            assert((a + b)[i + a.len()] == y);
        }
    }
}

/// Reverses a vector.
pub fn reverse_vec<T>(v: Vec<T>) -> (r: Vec<T>)
    ensures
        r@ == v@.reverse(),
{
    let ghost orig = v@;
    let mut v = v;
    let mut out: Vec<T> = Vec::new();
    while v.len() > 0
        invariant
            v@ == orig.subrange(0, v.len() as int),
            out@ == orig.reverse().subrange(0, orig.len() - v.len()),
            v.len() <= orig.len(),
        decreases v.len(),
    {
        let x = v.pop().unwrap();
        out.push(x);
        assert(out@ =~= orig.reverse().subrange(0, orig.len() - v.len()));
        assert(v@ =~= orig.subrange(0, v.len() as int));
    }
    assert(out@ =~= orig.reverse());
    out
}

/// Sorts a vector in ascending order.
pub fn sort_vec<T: TotalOrder>(v: Vec<T>) -> (r: Vec<T>)
    ensures
        views_of(r@) == sort_seq::<T>(views_of(v@)),
{
    let ghost orig = views_of(v@);
    let ghost n = v.len() as int;
    let mut v = v;
    let mut out: Vec<T> = Vec::new();
    assert(orig.subrange(n, n) =~= Seq::<T::V>::empty());
    assert(views_of(out@) =~= Seq::<T::V>::empty());
    while v.len() > 0
        invariant
            n == orig.len(),
            v.len() <= n,
            views_of(v@) == orig.subrange(0, v.len() as int),
            views_of(out@) == sort_seq::<T>(orig.subrange(v.len() as int, n)),
        decreases v.len(),
    {
        let ghost vv = v@;
        let x = v.pop().unwrap();
        assert(views_of(vv)[v.len() as int] == vv[v.len() as int]@);
        assert(x@ == orig[v.len() as int]);
        let ghost k0 = v.len() as int;
        let mut j: usize = 0;
        while j < out.len() && x.compare(&out[j]) >= 0
            invariant
                j <= out.len(),
                forall|m: int| 0 <= m < j ==> T::order(x@, #[trigger] views_of(out@)[m]) >= 0,
            decreases out.len() - j,
        {
            j += 1;
        }
        proof {
            let vo = views_of(out@);
            if j < out.len() {
                assert(vo[j as int] == out@[j as int]@);
            }
            lemma_insert_position::<T>(vo, x@, j as int);
            let suffix = orig.subrange(k0, n);
            assert(suffix.subrange(1, suffix.len() as int) =~= orig.subrange(k0 + 1, n));
            assert(suffix[0] == x@);
        }
        let ghost before = views_of(out@);
        out.insert(j, x);
        assert(views_of(out@) =~= before.insert(j as int, x@));
        assert(views_of(v@) =~= orig.subrange(0, v.len() as int));
    }
    assert(orig.subrange(0, n) =~= orig);
    out
}

/// Removes every element that equals the element before it.
pub fn dedup_vec<T: TotalOrder>(v: Vec<T>) -> (r: Vec<T>)
    ensures
        views_of(r@) == dedup_seq(views_of(v@)),
{
    let ghost orig = views_of(v@);
    let ghost n = v.len() as int;
    let mut v = v;
    let mut out: Vec<T> = Vec::new();
    assert(orig.subrange(n, n) =~= Seq::<T::V>::empty());
    assert(views_of(out@) =~= Seq::<T::V>::empty());
    while v.len() > 0
        invariant
            n == orig.len(),
            v.len() <= n,
            views_of(v@) == orig.subrange(0, v.len() as int),
            views_of(out@) == dedup_seq(orig.subrange(v.len() as int, n)),
        decreases v.len(),
    {
        let ghost vv = v@;
        let x = v.pop().unwrap();
        assert(views_of(vv)[v.len() as int] == vv[v.len() as int]@);
        let ghost k0 = v.len() as int;
        proof {
            let suffix = orig.subrange(k0, n);
            assert(suffix.subrange(1, suffix.len() as int) =~= orig.subrange(k0 + 1, n));
            assert(suffix[0] == x@);
            T::lemma_order_total(x@, x@);
        }
        if out.len() > 0 && x.compare(&out[0]) == 0 {
            proof {
                T::lemma_order_total(x@, out@[0]@);
                assert(views_of(out@)[0] == out@[0]@);
            }
        } else {
            proof {
                if out.len() > 0 {
                    T::lemma_order_total(x@, out@[0]@);
                    assert(views_of(out@)[0] == out@[0]@);
                }
            }
            let ghost before = views_of(out@);
            out.insert(0, x);
            assert(views_of(out@) =~= seq![x@] + before);
        }
        assert(views_of(v@) =~= orig.subrange(0, v.len() as int));
    }
    assert(orig.subrange(0, n) =~= orig);
    out
}

/// Whether some element of `v` equals `x`.
pub fn contains_equal<T: TotalOrder>(v: &[T], x: &T) -> (r: bool)
    ensures
        r == views_of(v@).contains(x@),
{
    let mut i: usize = 0;
    while i < v.len()
        invariant
            i <= v.len(),
            forall|j: int| 0 <= j < i ==> views_of(v@)[j] != x@,
        decreases v.len() - i,
    {
        let c = x.compare(&v[i]);
        proof {
            T::lemma_order_total(x@, v@[i as int]@);
        }
        if c == 0 {
            assert(views_of(v@)[i as int] == x@);
            return true;
        }
        i += 1;
    }
    false
}

/// Inserting into a sorted place adds the element to the multiset.
proof fn lemma_insert_multiset<T: TotalOrder>(r: Seq<T::V>, x: T::V)
    ensures
        insert_sorted::<T>(r, x).to_multiset() == r.to_multiset().insert(x),
    decreases r.len(),
{
    broadcast use vstd::seq_lib::to_multiset_insert, vstd::seq_lib::to_multiset_build;
    if r.len() == 0 {
        assert(seq![x] =~= r.push(x));
    } else if T::order(x, r[0]) < 0 {
        assert(seq![x] + r =~= r.insert(0, x));
    } else {
        let r1 = r.subrange(1, r.len() as int);
        lemma_insert_multiset::<T>(r1, x);
        let t = insert_sorted::<T>(r1, x);
        assert(seq![r[0]] + t =~= t.insert(0, r[0]));
        assert(r =~= r1.insert(0, r[0]));
        assert(t.insert(0, r[0]).to_multiset() == t.to_multiset().insert(r[0]));
        assert(r1.insert(0, r[0]).to_multiset() == r1.to_multiset().insert(r[0]));
        assert(r1.to_multiset().insert(x).insert(r[0]) =~= r1.to_multiset().insert(r[0]).insert(x));
    }
}

/// Sorting keeps the multiset of the elements.
pub proof fn lemma_sort_multiset<T: TotalOrder>(s: Seq<T::V>)
    ensures
        sort_seq::<T>(s).to_multiset() == s.to_multiset(),
    decreases s.len(),
{
    broadcast use vstd::seq_lib::to_multiset_insert;
    if s.len() > 0 {
        let s1 = s.subrange(1, s.len() as int);
        lemma_sort_multiset::<T>(s1);
        lemma_insert_multiset::<T>(sort_seq::<T>(s1), s[0]);
        assert(s =~= s1.insert(0, s[0]));
    }
}

/// Two sorted sequences with the same multiset of elements are equal.
pub proof fn lemma_sorted_unique<T: TotalOrder>(a: Seq<T::V>, b: Seq<T::V>)
    requires
        is_sorted::<T>(a),
        is_sorted::<T>(b),
        a.to_multiset() == b.to_multiset(),
    ensures
        a == b,
    decreases a.len(),
{
    broadcast use vstd::seq_lib::to_multiset_len, vstd::seq_lib::to_multiset_contains, vstd::seq_lib::to_multiset_remove;
    lemma_order_facts::<T>();
    assert(a.len() == a.to_multiset().len());
    assert(b.len() == b.to_multiset().len());
    if a.len() > 0 {
        assert(a.to_multiset().count(a[0]) > 0);
        assert(b.to_multiset().count(a[0]) > 0);
        assert(b.contains(a[0]));
        let j = choose|j: int| 0 <= j < b.len() && b[j] == a[0];
        if j > 0 {
            assert(T::order(b[0], b[j]) <= 0);
        }
        assert(b.to_multiset().count(b[0]) > 0);
        assert(a.contains(b[0]));
        let k = choose|k: int| 0 <= k < a.len() && a[k] == b[0];
        if k > 0 {
            assert(T::order(a[0], a[k]) <= 0);
        }
        assert(T::order(a[0], b[0]) <= 0);
        assert(T::order(b[0], a[0]) <= 0);
        assert(a[0] == b[0]);
        let a1 = a.remove(0);
        let b1 = b.remove(0);
        assert(a1.to_multiset() == a.to_multiset().remove(a[0]));
        assert(b1.to_multiset() == b.to_multiset().remove(b[0]));
        assert forall|i: int, m: int| 0 <= i < m < a1.len() implies T::order(#[trigger] a1[i], #[trigger] a1[m]) <= 0 by {
            assert(a1[i] == a[i + 1] && a1[m] == a[m + 1]);
        }
        assert forall|i: int, m: int| 0 <= i < m < b1.len() implies T::order(#[trigger] b1[i], #[trigger] b1[m]) <= 0 by {
            assert(b1[i] == b[i + 1] && b1[m] == b[m + 1]);
        }
        lemma_sorted_unique::<T>(a1, b1);
        assert(a =~= b1.insert(0, a[0]));
        assert(b =~= b1.insert(0, b[0]));
    } else {
        assert(a =~= b);
    }
}

/// Sorting gives the same sequence for any arrangement of the same elements.
pub proof fn lemma_sort_arrangement<T: TotalOrder>(s: Seq<T::V>, t: Seq<T::V>)
    requires
        s.to_multiset() == t.to_multiset(),
    ensures
        sort_seq::<T>(s) == sort_seq::<T>(t),
{
    lemma_sort_multiset::<T>(s);
    lemma_sort_multiset::<T>(t);
    lemma_sort_contents::<T>(s);
    lemma_sort_contents::<T>(t);
    lemma_sorted_unique::<T>(sort_seq::<T>(s), sort_seq::<T>(t));
}

} // verus!
