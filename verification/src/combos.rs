//! Candidate enumeration.
//!
//! The candidates for subset size `k` over `n` questions are all strictly
//! increasing sequences of `k` question ordinals, in lexicographic order.
//! `cand_list` is the canonical sequence of them; the baseline enumerator
//! collects it through an outside combinatorics routine, and the incremental
//! enumerator (`QuestionCombinations`) walks it like an odometer, reusing the
//! coverage intersection of the unchanged prefix.
use vstd::prelude::*;

use itertools::Itertools;

use crate::scorer::{ord_ints, valid_candidate};
use crate::topn::{lemma_lex_trans, lemma_lex_trichotomy, lex_lt};

verus! {

/// All candidates of length `k` over ordinals in `[lo, n)`, in lexicographic
/// order: those that start with `lo`, then those that start later.
pub open spec fn combos_from(lo: int, n: int, k: nat) -> Seq<Seq<int>>
    decreases n - lo, k,
{
    if k == 0 {
        seq![Seq::empty()]
    } else if lo < 0 || lo >= n {
        Seq::empty()
    } else {
        combos_from(lo + 1, n, (k - 1) as nat).map_values(|c: Seq<int>| seq![lo] + c)
            + combos_from(lo + 1, n, k)
    }
}

/// The canonical candidate list: all `k`-candidates over `[0, n)` in
/// lexicographic order.
pub open spec fn cand_list(n: int, k: nat) -> Seq<Seq<int>> {
    combos_from(0, n, k)
}

/// A candidate of length `k` whose ordinals lie in `[lo, n)`.
pub open spec fn combo_in(lo: int, n: int, k: nat, c: Seq<int>) -> bool {
    &&& c.len() == k
    &&& forall|a: int, b: int| 0 <= a < b < c.len() ==> c[a] < c[b]
    &&& forall|a: int| 0 <= a < c.len() ==> lo <= #[trigger] c[a] < n
}

/// The candidate stands somewhere in the list.
pub open spec fn in_list(l: Seq<Seq<int>>, c: Seq<int>) -> bool {
    exists|i: int| 0 <= i < l.len() && l[i] == c
}

/// Every listed candidate is a candidate over the claimed range.
pub proof fn lemma_combos_valid(lo: int, n: int, k: nat)
    ensures
        forall|i: int|
            0 <= i < combos_from(lo, n, k).len() ==> combo_in(
                lo,
                n,
                k,
                #[trigger] combos_from(lo, n, k)[i],
            ),
    decreases n - lo, k,
{
    let l = combos_from(lo, n, k);
    if k == 0 {
        assert forall|i: int| 0 <= i < l.len() implies combo_in(lo, n, k, #[trigger] l[i]) by {
            assert(l[i] =~= Seq::<int>::empty());
        }
    } else if lo < 0 || lo >= n {
    } else {
        lemma_combos_valid(lo + 1, n, (k - 1) as nat);
        lemma_combos_valid(lo + 1, n, k);
        let left = combos_from(lo + 1, n, (k - 1) as nat).map_values(|c: Seq<int>| seq![lo] + c);
        let right = combos_from(lo + 1, n, k);
        assert forall|i: int| 0 <= i < l.len() implies combo_in(lo, n, k, #[trigger] l[i]) by {
            if i < left.len() {
                let t = combos_from(lo + 1, n, (k - 1) as nat)[i];
                assert(combo_in(lo + 1, n, (k - 1) as nat, t));
                let c = seq![lo] + t;
                assert(l[i] == c);
                assert(c.len() == k);
                assert(c[0] == lo);
                assert forall|a: int| 0 <= a < c.len() implies lo <= #[trigger] c[a] < n by {
                    if a > 0 {
                        assert(c[a] == t[a - 1]);
                    }
                }
                assert forall|a: int, b: int| 0 <= a < b < c.len() implies c[a] < c[b] by {
                    if a == 0 {
                        assert(c[b] == t[b - 1]);
                        assert(lo + 1 <= t[b - 1]);
                    } else {
                        assert(c[a] == t[a - 1] && c[b] == t[b - 1]);
                    }
                }
            } else {
                assert(l[i] == right[i - left.len()]);
                assert(combo_in(lo + 1, n, k, right[i - left.len()]));
            }
        }
    }
}

/// The list is strictly lexicographically increasing.
pub proof fn lemma_combos_increasing(lo: int, n: int, k: nat)
    ensures
        forall|i: int, j: int|
            0 <= i < j < combos_from(lo, n, k).len() ==> lex_lt(
                #[trigger] combos_from(lo, n, k)[i],
                #[trigger] combos_from(lo, n, k)[j],
            ),
    decreases n - lo, k,
{
    let l = combos_from(lo, n, k);
    if k == 0 || lo < 0 || lo >= n {
    } else {
        lemma_combos_increasing(lo + 1, n, (k - 1) as nat);
        lemma_combos_increasing(lo + 1, n, k);
        lemma_combos_valid(lo + 1, n, (k - 1) as nat);
        lemma_combos_valid(lo + 1, n, k);
        let sub = combos_from(lo + 1, n, (k - 1) as nat);
        let left = sub.map_values(|c: Seq<int>| seq![lo] + c);
        let right = combos_from(lo + 1, n, k);
        assert forall|i: int, j: int| 0 <= i < j < l.len() implies lex_lt(
            #[trigger] l[i],
            #[trigger] l[j],
        ) by {
            if j < left.len() {
                // Both start with lo; the tails decide.
                let ti = sub[i];
                let tj = sub[j];
                assert(lex_lt(ti, tj));
                let ci = seq![lo] + ti;
                let cj = seq![lo] + tj;
                assert(l[i] == ci && l[j] == cj);
                assert(ci.len() > 0 && cj.len() > 0);
                assert(ci.first() == lo && cj.first() == lo);
                assert(ci.drop_first() =~= ti);
                assert(cj.drop_first() =~= tj);
            } else if i < left.len() {
                // The left block starts with lo, the right block later.
                let ti = sub[i];
                let ci = seq![lo] + ti;
                let cj = right[j - left.len()];
                assert(l[i] == ci && l[j] == cj);
                assert(combo_in(lo + 1, n, k, cj));
                assert(cj.len() == k && k >= 1);
                assert(ci.first() == lo);
                assert(cj.first() == cj[0]);
                assert(lo + 1 <= cj[0]);
            } else {
                assert(l[i] == right[i - left.len()] && l[j] == right[j - left.len()]);
            }
        }
    }
}

/// The list is complete: it holds every candidate over the range.
pub proof fn lemma_combos_complete(lo: int, n: int, k: nat, c: Seq<int>)
    requires
        combo_in(lo, n, k, c),
        lo >= 0,
    ensures
        in_list(combos_from(lo, n, k), c),
    decreases n - lo, k,
{
    let l = combos_from(lo, n, k);
    if k == 0 {
        assert(c =~= Seq::<int>::empty());
        assert(l[0] == c);
    } else {
        assert(c.len() > 0);
        assert(lo <= c[0] < n);
        assert(lo < n);
        let sub = combos_from(lo + 1, n, (k - 1) as nat);
        let left = sub.map_values(|x: Seq<int>| seq![lo] + x);
        let right = combos_from(lo + 1, n, k);
        if c[0] == lo {
            let t = c.drop_first();
            assert(combo_in(lo + 1, n, (k - 1) as nat, t)) by {
                assert forall|a: int| 0 <= a < t.len() implies lo + 1 <= #[trigger] t[a] < n by {
                    assert(t[a] == c[a + 1]);
                    assert(c[0] < c[a + 1]);
                }
                assert forall|a: int, b: int| 0 <= a < b < t.len() implies t[a] < t[b] by {
                    assert(t[a] == c[a + 1] && t[b] == c[b + 1]);
                }
            }
            lemma_combos_complete(lo + 1, n, (k - 1) as nat, t);
            let i = choose|i: int| 0 <= i < sub.len() && sub[i] == t;
            assert(left[i] == seq![lo] + t);
            assert(seq![lo] + t =~= c);
            assert(l[i] == c);
        } else {
            assert(combo_in(lo + 1, n, k, c)) by {
                assert forall|a: int| 0 <= a < c.len() implies lo + 1 <= #[trigger] c[a] < n by {
                    if a > 0 {
                        assert(c[0] < c[a]);
                    }
                }
            }
            lemma_combos_complete(lo + 1, n, k, c);
            let i = choose|i: int| 0 <= i < right.len() && right[i] == c;
            assert(l[left.len() + i] == c);
        }
    }
}

/// Two strictly lex-increasing candidate lists with the same members are the
/// same list.
pub proof fn lemma_lex_list_unique(l1: Seq<Seq<int>>, l2: Seq<Seq<int>>)
    requires
        forall|i: int, j: int| 0 <= i < j < l1.len() ==> lex_lt(#[trigger] l1[i], #[trigger] l1[j]),
        forall|i: int, j: int| 0 <= i < j < l2.len() ==> lex_lt(#[trigger] l2[i], #[trigger] l2[j]),
        forall|c: Seq<int>| in_list(l1, c) == in_list(l2, c),
    ensures
        l1 == l2,
    decreases l1.len(),
{
    if l1.len() == 0 {
        if l2.len() > 0 {
            assert(l2[0] == l2[0]);
            assert(in_list(l2, l2[0]));
            assert(in_list(l1, l2[0]));
            let i = choose|i: int| 0 <= i < l1.len() && l1[i] == l2[0];
            assert(false);
        }
        assert(l1 =~= l2);
    } else {
        assert(in_list(l1, l1[0]));
        assert(in_list(l2, l1[0]));
        if l2.len() == 0 {
            let i = choose|i: int| 0 <= i < l2.len() && l2[i] == l1[0];
            assert(false);
        }
        assert(in_list(l2, l2[0]));
        assert(in_list(l1, l2[0]));
        let i1 = choose|i: int| 0 <= i < l1.len() && l1[i] == l2[0];
        let i2 = choose|i: int| 0 <= i < l2.len() && l2[i] == l1[0];
        lemma_lex_trichotomy(l1[0], l2[0]);
        if i1 > 0 {
            assert(lex_lt(l1[0], l1[i1]));
        }
        if i2 > 0 {
            assert(lex_lt(l2[0], l2[i2]));
        }
        assert(l1[0] == l2[0]);
        let t1 = l1.drop_first();
        let t2 = l2.drop_first();
        assert forall|c: Seq<int>| in_list(t1, c) == in_list(t2, c) by {
            lemma_lex_head_tail(l1, c);
            lemma_lex_head_tail(l2, c);
        }
        lemma_lex_list_unique(t1, t2);
        assert forall|i: int| 0 <= i < l1.len() implies l1[i] == l2[i] by {
            if i > 0 {
                assert(l1[i] == t1[i - 1]);
                assert(l2[i] == t2[i - 1]);
            }
        }
        assert(l1 =~= l2);
    }
}

/// In a strictly lex-increasing list, the tail holds exactly the members
/// other than the head.
proof fn lemma_lex_head_tail(l: Seq<Seq<int>>, c: Seq<int>)
    requires
        l.len() > 0,
        forall|i: int, j: int| 0 <= i < j < l.len() ==> lex_lt(#[trigger] l[i], #[trigger] l[j]),
    ensures
        in_list(l.drop_first(), c) == (in_list(l, c) && c != l[0]),
{
    let t = l.drop_first();
    if in_list(t, c) {
        let i = choose|i: int| 0 <= i < t.len() && t[i] == c;
        assert(l[i + 1] == c);
        assert(lex_lt(l[0], l[i + 1]));
        lemma_lex_trichotomy(l[0], c);
        assert(in_list(l, c));
    }
    if in_list(l, c) && c != l[0] {
        let i = choose|i: int| 0 <= i < l.len() && l[i] == c;
        assert(i != 0);
        assert(t[i - 1] == c);
        assert(in_list(t, c));
    }
}

/// Relies on itertools' `combinations` over the range `0..n`: it yields
/// every `k`-element combination of the range exactly once, each with its
/// elements in increasing order, in lexicographic order.
#[verifier::external_body]
pub fn all_combinations(n: usize, k: usize) -> (r: Vec<Vec<usize>>)
    requires
        k >= 1,
    ensures
        forall|i: int|
            0 <= i < r@.len() ==> combo_in(0, n as int, k as nat, ord_ints(
                (#[trigger] r@[i])@,
            )),
        forall|i: int, j: int|
            0 <= i < j < r@.len() ==> lex_lt(
                ord_ints((#[trigger] r@[i])@),
                ord_ints((#[trigger] r@[j])@),
            ),
        forall|c: Seq<int>|
            combo_in(0, n as int, k as nat, c) ==> #[trigger] in_list(cand_views(r@), c),
{
    (0..n).combinations(k).collect()
}

/// The mathematical view of an enumerated candidate vector.
pub open spec fn cand_views(r: Seq<Vec<usize>>) -> Seq<Seq<int>> {
    r.map_values(|v: Vec<usize>| ord_ints(v@))
}

/// The baseline enumeration equals the canonical candidate list.
pub proof fn lemma_all_combinations_canonical(n: int, k: nat, r: Seq<Vec<usize>>)
    requires
        forall|i: int| 0 <= i < r.len() ==> combo_in(0, n, k, ord_ints((#[trigger] r[i])@)),
        forall|i: int, j: int|
            0 <= i < j < r.len() ==> lex_lt(ord_ints((#[trigger] r[i])@), ord_ints(
                (#[trigger] r[j])@,
            )),
        forall|c: Seq<int>| combo_in(0, n, k, c) ==> #[trigger] in_list(cand_views(r), c),
    ensures
        cand_views(r) == cand_list(n, k),
{
    let cv = cand_views(r);
    lemma_combos_valid(0, n, k);
    lemma_combos_increasing(0, n, k);
    assert forall|i: int, j: int| 0 <= i < j < cv.len() implies lex_lt(
        #[trigger] cv[i],
        #[trigger] cv[j],
    ) by {
        assert(cv[i] == ord_ints(r[i]@) && cv[j] == ord_ints(r[j]@));
    }
    assert forall|c: Seq<int>| in_list(cv, c) == in_list(cand_list(n, k), c) by {
        if in_list(cv, c) {
            let i = choose|i: int| 0 <= i < cv.len() && cv[i] == c;
            assert(cv[i] == ord_ints(r[i]@));
            assert(combo_in(0, n, k, c));
            lemma_combos_complete(0, n, k, c);
        }
        if in_list(cand_list(n, k), c) {
            let i = choose|i: int| 0 <= i < cand_list(n, k).len() && cand_list(n, k)[i] == c;
            assert(combo_in(0, n, k, c));
            assert(in_list(cv, c));
        }
    }
    lemma_lex_list_unique(cv, cand_list(n, k));
}

} // verus!
