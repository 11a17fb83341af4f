//! The incremental ("fused") candidate enumerator.
//!
//! Consecutive lexicographic candidates share a prefix, and candidates with a
//! shared prefix share the coverage intersection of that prefix.  The
//! enumerator advances like an odometer: it finds the rightmost position that
//! can still be incremented, resets the positions after it to consecutive
//! ordinals, and re-intersects only from the changed position on, reusing
//! the cached intersections of the unchanged prefix.  Position `0` is never
//! advanced: it defines the shard, so shards can run independently.
use vstd::prelude::*;
use vstd::multiset::Multiset;

use crate::bitset::{appears, us_and, us_clone, us_members, UserSet};
use crate::combos::{cand_list, combo_in, in_list};
use crate::corr::{corr_finite, Corr};
use crate::engine::sms;
use crate::scorer::ord_ints;
use crate::store::AllocCorrSet;
use crate::topn::{
    all_wf, is_topn, lemma_lex_trans, lemma_lex_trichotomy, lex_lt, topn_insert, views, Scored,
    ScoredV,
};
use crate::{CorrSetError, Row};

verus! {

/// A candidate of length `k` over `[0, nq)` whose first ordinal is `root`.
pub open spec fn root_combo(nq: int, k: nat, root: int, c: Seq<int>) -> bool {
    combo_in(0, nq, k, c) && k >= 1 && c[0] == root
}

/// If positions before `p` agree and `a` is smaller at `p`, then `a` is
/// lexicographically smaller.
pub proof fn lemma_lex_from_diff(a: Seq<int>, b: Seq<int>, p: int)
    requires
        0 <= p < a.len(),
        p < b.len(),
        forall|q: int| 0 <= q < p ==> a[q] == b[q],
        a[p] < b[p],
    ensures
        lex_lt(a, b),
    decreases p,
{
    if p == 0 {
        assert(a.first() < b.first());
    } else {
        let a1 = a.drop_first();
        let b1 = b.drop_first();
        assert(a.first() == b.first());
        assert forall|q: int| 0 <= q < p - 1 implies a1[q] == b1[q] by {
            assert(a1[q] == a[q + 1] && b1[q] == b[q + 1]);
        }
        assert(a1[p - 1] == a[p] && b1[p - 1] == b[p]);
        lemma_lex_from_diff(a1, b1, p - 1);
    }
}

/// A lexicographic comparison of equal-length sequences pins down the first
/// differing position.
pub proof fn lemma_lex_witness(a: Seq<int>, b: Seq<int>) -> (p: int)
    requires
        a.len() == b.len(),
        lex_lt(a, b),
    ensures
        0 <= p < a.len(),
        forall|q: int| 0 <= q < p ==> a[q] == b[q],
        a[p] < b[p],
    decreases a.len(),
{
    if a.first() < b.first() {
        0
    } else {
        let p1 = lemma_lex_witness(a.drop_first(), b.drop_first());
        assert forall|q: int| 0 <= q < p1 + 1 implies a[q] == b[q] by {
            if q > 0 {
                assert(a[q] == a.drop_first()[q - 1] && b[q] == b.drop_first()[q - 1]);
            }
        }
        assert(a[p1 + 1] == a.drop_first()[p1] && b[p1 + 1] == b.drop_first()[p1]);
        p1 + 1
    }
}

/// A strictly increasing integer sequence grows at least by the index gap.
pub proof fn lemma_increasing_gap(c: Seq<int>, a: int, b: int)
    requires
        forall|x: int, y: int| 0 <= x < y < c.len() ==> c[x] < c[y],
        0 <= a <= b < c.len(),
    ensures
        c[b] >= c[a] + (b - a),
    decreases b - a,
{
    if a < b {
        lemma_increasing_gap(c, a, b - 1);
    }
}

/// If one sequence is pointwise at most another of the same length, it is
/// equal or lexicographically smaller.
pub proof fn lemma_pointwise_le_lex(a: Seq<int>, b: Seq<int>)
    requires
        a.len() == b.len(),
        forall|q: int| 0 <= q < a.len() ==> a[q] <= b[q],
    ensures
        a == b || lex_lt(a, b),
    decreases a.len(),
{
    if a.len() == 0 {
        assert(a =~= b);
    } else if a.first() < b.first() {
    } else {
        let a1 = a.drop_first();
        let b1 = b.drop_first();
        assert forall|q: int| 0 <= q < a1.len() implies a1[q] <= b1[q] by {
            assert(a1[q] == a[q + 1] && b1[q] == b[q + 1]);
        }
        lemma_pointwise_le_lex(a1, b1);
        if a1 == b1 {
            assert forall|q: int| 0 <= q < a.len() implies a[q] == b[q] by {
                if q > 0 {
                    assert(a[q] == a1[q - 1] && b[q] == b1[q - 1]);
                }
            }
            assert(a =~= b);
        }
    }
}

/// The incremental enumerator for one shard: the current candidate and the
/// cached coverage intersections of each of its prefixes.
pub struct QuestionCombinations {
    pub qs: Vec<usize>,
    pub users: Vec<UserSet>,
}

impl QuestionCombinations {
    /// The current candidate.
    pub open spec fn cand(&self) -> Seq<int> {
        ord_ints(self.qs@)
    }

    /// The enumerator's invariant against the store: the candidate is valid
    /// and `users[i]` holds exactly the users that cover the prefix of
    /// length `i + 1`.
    pub open spec fn wf(&self, store: AllocCorrSet) -> bool {
        &&& 1 <= self.qs@.len()
        &&& combo_in(0, store.nq(), self.qs@.len() as nat, self.cand())
        &&& self.users@.len() == self.qs@.len()
        &&& forall|i: int|
            0 <= i < self.users@.len() ==> (#[trigger] self.users@[i]).wf()
                && self.users@[i].nbits as int == store.nu()
        &&& forall|i: int, u: int|
            #![trigger self.users@[i]@.contains(u)]
            0 <= i < self.users@.len() ==> (self.users@[i]@.contains(u) == (0 <= u < store.nu()
                && store.covers_all(self.cand().take(i + 1), u)))
    }

    /// Start a shard: the lexicographically first candidate rooted at
    /// `root`, which is `root, root+1, ..., root+k-1`.
    pub fn new(store: &AllocCorrSet, root: usize, k: usize) -> (r: QuestionCombinations)
        requires
            store.wf(),
            1 <= k,
            root + k <= store.nq(),
        ensures
            r.wf(*store),
            r.qs@.len() == k,
            r.cand()[0] == root,
            forall|c: Seq<int>|
                root_combo(store.nq(), k as nat, root as int, c) ==> !lex_lt(c, r.cand()),
    {
        let nq = store.domain.questions.len();
        let mut qs: Vec<usize> = Vec::new();
        let mut j: usize = 0;
        while j < k
            invariant
                0 <= j <= k,
                root + k <= usize::MAX,
                qs@.len() == j,
                forall|i: int| 0 <= i < j ==> qs@[i] == root + i,
            decreases k - j,
        {
            qs.push(root + j);
            j += 1;
        }
        let mut users: Vec<UserSet> = Vec::new();
        let ghost qi = ord_ints(qs@);
        proof {
            assert forall|i: int| 0 <= i < k implies qi[i] == root + i by {
                assert(qi[i] == qs@[i] as int);
            }
        }
        proof {
            assert(qi[0] == qs@[0] as int);
            assert(0 <= qi[0] < store.nq());
            assert(store.cov@[qi[0]].wf());
        }
        users.push(us_clone(&store.cov[qs[0]]));
        proof {
            assert forall|u: int|
                users@[0]@.contains(u) == (0 <= u < store.nu() && store.covers_all(
                    qi.take(1),
                    u,
                )) by {
                assert(qi.take(1)[0] == qi[0]);
                assert(qi[0] == root);
            }
        }
        let mut i: usize = 1;
        while i < k
            invariant
                1 <= i <= k,
                store.wf(),
                qs@.len() == k,
                qi == ord_ints(qs@),
                forall|j2: int| 0 <= j2 < k ==> qi[j2] == root + j2,
                root + k <= store.nq(),
                users@.len() == i,
                forall|j2: int|
                    0 <= j2 < i ==> (#[trigger] users@[j2]).wf() && users@[j2].nbits as int
                        == store.nu(),
                forall|j2: int, u: int|
                    #![trigger users@[j2]@.contains(u)]
                    0 <= j2 < i ==> (users@[j2]@.contains(u) == (0 <= u < store.nu()
                        && store.covers_all(qi.take(j2 + 1), u))),
            decreases k - i,
        {
            proof {
                assert(qi[i as int] == qs@[i as int] as int);
                assert(0 <= qi[i as int] < store.nq());
                assert(store.cov@[qi[i as int]].wf());
            }
            let w = us_and(&users[i - 1], &store.cov[qs[i]]);
            proof {
                lemma_prefix_extend(*store, qi, i as int, w@, users@[i as int - 1]@);
            }
            users.push(w);
            i += 1;
        }
        let r = QuestionCombinations { qs, users };
        proof {
            assert(combo_in(0, store.nq(), k as nat, qi));
            assert forall|c: Seq<int>|
                root_combo(store.nq(), k as nat, root as int, c) implies !lex_lt(c, qi) by {
                if lex_lt(c, qi) {
                    let p = lemma_lex_witness(c, qi);
                    lemma_increasing_gap(c, 0, p);
                    assert(c[p] >= c[0] + p);
                    assert(qi[p] == root + p);
                }
            }
        }
        r
    }

    /// Advance to the next candidate of this shard, recomputing the coverage
    /// intersection only from the changed position on.  Returns `false`, and
    /// stays put, when the shard is exhausted.
    pub fn advance(&mut self, store: &AllocCorrSet) -> (more: bool)
        requires
            store.wf(),
            old(self).wf(*store),
        ensures
            final(self).wf(*store),
            final(self).qs@.len() == old(self).qs@.len(),
            more ==> lex_lt(old(self).cand(), final(self).cand()) && final(self).cand()[0] == old(
                self,
            ).cand()[0] && (forall|c: Seq<int>|
                root_combo(
                    store.nq(),
                    old(self).qs@.len() as nat,
                    old(self).cand()[0],
                    c,
                ) && lex_lt(old(self).cand(), c) ==> !lex_lt(c, final(self).cand())),
            !more ==> final(self).cand() == old(self).cand() && (forall|c: Seq<int>|
                root_combo(store.nq(), old(self).qs@.len() as nat, old(self).cand()[0], c)
                    ==> !lex_lt(old(self).cand(), c)),
    {
        let k = self.qs.len();
        let n = store.domain.questions.len();
        let ghost c0 = self.cand();
        proof {
            assert(c0[k - 1] < n);
            lemma_increasing_gap(c0, 0, k - 1);
            assert(c0[k - 1] >= c0[0] + (k - 1));
            assert(c0[0] >= 0);
            assert(k <= n);
        }
        // Find the rightmost position that can still be incremented; the
        // positions after it already sit at their maxima.
        let mut i = k - 1;
        let mut found = false;
        while !found && i >= 1
            invariant
                0 <= i <= k - 1,
                k == self.qs@.len(),
                k >= 1,
                k <= n,
                n == store.nq(),
                c0 == self.cand(),
                combo_in(0, store.nq(), k as nat, c0),
                forall|j: int| i < j < k ==> c0[j] == n - k + j,
                found ==> 1 <= i && c0[i as int] < n - k + i,
            decreases i, if found { 0int } else { 1int },
        {
            proof {
                assert(c0[i as int] == self.qs@[i as int] as int);
                assert(c0[i as int] <= n - k + i) by {
                    lemma_increasing_gap(c0, i as int, k - 1);
                }
            }
            if self.qs[i] < n - k + i {
                found = true;
            } else {
                proof {
                    assert(c0[i as int] == n - k + i);
                }
                i -= 1;
            }
        }
        if !found {
            // Every position past the root is at its maximum: the shard is
            // done.
            proof {
                assert(i == 0);
                assert forall|c: Seq<int>|
                    root_combo(store.nq(), k as nat, c0[0], c) implies !lex_lt(c0, c) by {
                    if lex_lt(c0, c) {
                        let p = lemma_lex_witness(c0, c);
                        assert(p >= 1) by {
                            assert(c[0] == c0[0]);
                        }
                        assert(c[p] > c0[p]);
                        assert(c0[p] == n - k + p);
                        lemma_increasing_gap(c, p, k - 1);
                        assert(c[k - 1] >= c[p] + (k - 1 - p));
                        assert(c[k - 1] < n);
                    }
                }
            }
            return false;
        }
        // Increment position i and reset the tail to consecutive ordinals,
        // re-intersecting from position i on.
        let ghost iv = i as int;
        let mut j = i;
        while j < k
            invariant
                1 <= iv <= j <= k,
                iv == i as int,
                k == self.qs@.len(),
                k >= 1,
                k <= n,
                n == store.nq(),
                store.wf(),
                self.users@.len() == k,
                // The untouched prefix.
                forall|t: int| 0 <= t < iv ==> self.cand()[t] == c0[t],
                // The rewritten positions so far.
                forall|t: int| iv <= t < j ==> self.cand()[t] == c0[iv] + 1 + (t - iv),
                // The tail still to rewrite.
                forall|t: int| j <= t < k ==> self.cand()[t] == c0[t],
                combo_in(0, store.nq(), k as nat, c0),
                c0[iv] < n - k + iv,
                forall|t: int| iv < t < k ==> c0[t] == n - k + t,
                // Cached intersections are correct for rewritten prefixes.
                forall|t: int|
                    0 <= t < k ==> (#[trigger] self.users@[t]).wf() && self.users@[t].nbits as int
                        == store.nu(),
                forall|t: int, u: int|
                    #![trigger self.users@[t]@.contains(u)]
                    0 <= t < j ==> (self.users@[t]@.contains(u) == (0 <= u < store.nu()
                        && store.covers_all(self.cand().take(t + 1), u))),
            decreases k - j,
        {
            proof {
                assert(self.cand()[j as int] == self.qs@[j as int] as int);
                assert(self.cand()[j as int - 1] == self.qs@[j as int - 1] as int);
                if j == i {
                    assert(self.cand()[j as int] == c0[iv]);
                    assert(c0[iv] + 1 <= n - k + iv + 1);
                    assert(n - k + iv + 1 <= n);
                } else {
                    assert(self.cand()[j as int - 1] == c0[iv] + 1 + (j - 1 - iv));
                    assert(c0[iv] + 1 + (j - iv) <= n - k + iv + 1 + (j - iv));
                }
            }
            let prev = self.qs[j - 1];
            let nv = if j == i {
                self.qs[i] + 1
            } else {
                prev + 1
            };
            let ghost before = self.cand();
            proof {
                if j == i {
                    assert(nv as int == before[j as int] + 1);
                    assert(nv as int == c0[iv] + 1);
                } else {
                    assert(prev as int == before[j as int - 1]);
                    assert(nv as int == c0[iv] + 1 + (j - iv));
                }
            }
            self.qs.set(j, nv);
            proof {
                assert forall|t: int| 0 <= t < k && t != j implies self.cand()[t] == before[t] by {
                    assert(self.cand()[t] == self.qs@[t] as int);
                }
                assert(self.cand()[j as int] == self.qs@[j as int] as int);
                assert(self.cand()[j as int] == nv as int);
                assert forall|t: int| iv <= t < j + 1 implies self.cand()[t] == c0[iv] + 1 + (t
                    - iv) by {
                    if t < j {
                        assert(self.cand()[t] == before[t]);
                        assert(before[t] == c0[iv] + 1 + (t - iv));
                    } else {
                        assert(self.cand()[j as int] == nv as int);
                    }
                }
                assert forall|t: int| j + 1 <= t < k implies self.cand()[t] == c0[t] by {
                    assert(self.cand()[t] == before[t]);
                    assert(before[t] == c0[t]);
                }
            }
            let w = us_and(&self.users[j - 1], &store.cov[self.qs[j]]);
            proof {
                assert(0 <= self.cand()[j as int] < store.nq()) by {
                    if j == i {
                        assert(nv as int == c0[iv] + 1);
                    }
                }
                assert forall|t: int, u: int|
                    #![trigger self.users@[t]@.contains(u)]
                    0 <= t < j implies (self.users@[t]@.contains(u) == (0 <= u < store.nu()
                        && store.covers_all(self.cand().take(t + 1), u))) by {
                    assert(self.cand().take(t + 1) =~= before.take(t + 1));
                }
                lemma_prefix_extend(
                    *store,
                    self.cand(),
                    j as int,
                    w@,
                    self.users@[j as int - 1]@,
                );
            }
            self.users.set(j, w);
            j += 1;
        }
        proof {
            let c1 = self.cand();
            // The new candidate is valid.
            assert(c1.len() == k);
            assert(0 <= c0[iv] < n);
            assert(c0[iv] < n - k + iv);
            assert(combo_in(0, store.nq(), k as nat, c1)) by {
                assert forall|a: int| 0 <= a < k implies 0 <= #[trigger] c1[a] < n by {
                    if a >= iv {
                        assert(c1[a] == c0[iv] + 1 + (a - iv));
                        assert(c0[iv] + 1 + (a - iv) < n - k + iv + 1 + (a - iv));
                        assert(n - k + a + 1 <= n);
                    } else {
                        assert(c1[a] == c0[a]);
                        assert(0 <= c0[a] < n);
                    }
                }
                assert forall|a: int, b: int| 0 <= a < b < k implies c1[a] < c1[b] by {
                    if b < iv {
                        assert(c1[a] == c0[a] && c1[b] == c0[b]);
                        assert(c0[a] < c0[b]);
                    } else if a < iv {
                        assert(c1[b] == c0[iv] + 1 + (b - iv));
                        assert(c1[a] == c0[a]);
                        lemma_increasing_gap(c0, a, iv);
                        assert(c0[iv] >= c0[a] + (iv - a));
                    } else {
                        assert(c1[a] == c0[iv] + 1 + (a - iv));
                        assert(c1[b] == c0[iv] + 1 + (b - iv));
                    }
                }
            }
            // It is lexicographically after the old one.
            assert(lex_lt(c0, c1)) by {
                lemma_lex_from_diff(c0, c1, iv);
            }
            // And it is the immediate successor within the shard.
            assert forall|c: Seq<int>|
                root_combo(store.nq(), k as nat, c0[0], c) && lex_lt(c0, c) implies !lex_lt(
                c,
                c1,
            ) by {
                let p = lemma_lex_witness(c0, c);
                assert(p >= 1) by {
                    assert(c[0] == c0[0]);
                }
                if p < iv {
                    // The first difference is before the incremented
                    // position: c is already ahead there.
                    lemma_lex_trichotomy(c, c1);
                    if lex_lt(c, c1) {
                        let p2 = lemma_lex_witness(c, c1);
                        assert(c1[p as int] == c0[p as int]);
                        if p2 < p {
                            assert(c[p2] == c0[p2]);
                            assert(c1[p2] == c0[p2]);
                        }
                        if p2 == p {
                            assert(c[p2] > c0[p2]);
                        }
                        if p2 > p {
                            assert(c[p] == c1[p]);
                        }
                    }
                    if c == c1 {
                        assert(c[p] == c1[p]);
                    }
                } else if p == iv {
                    // c agrees up to the incremented position and is larger
                    // there; the reset tail is the least possible.
                    assert(c[iv] >= c0[iv] + 1);
                    assert(c[iv] >= c1[iv]);
                    assert forall|t: int| iv <= t < k implies c1[t] <= c[t] by {
                        assert(c1[t] == c0[iv] + 1 + (t - iv));
                        lemma_increasing_gap(c, iv, t);
                        assert(c[t] >= c[iv] + (t - iv));
                    }
                    assert forall|t: int| 0 <= t < iv implies c1[t] == c[t] by {
                        assert(c[t] == c0[t]);
                    }
                    lemma_pointwise_le_lex(c1, c);
                    lemma_lex_trichotomy(c, c1);
                } else {
                    // The first difference is past the incremented position,
                    // where the old candidate already sat at its maximum: no
                    // such candidate fits below n.
                    assert(c[p] > c0[p]);
                    assert(c0[p] == n - k + p);
                    lemma_increasing_gap(c, p, k - 1);
                    assert(c[k - 1] >= c[p] + (k - 1 - p));
                    assert(c[k - 1] < n);
                    assert(false);
                }
            }
        }
        true
    }

    /// The exact correlation of the current candidate, reusing the cached
    /// coverage intersection.
    pub fn score_current(&self, store: &AllocCorrSet) -> (r: Corr)
        requires
            store.wf(),
            self.wf(*store),
        ensures
            r.wf(),
            r@ == store.cand_corr(self.cand()),
            r@.dx >= 0,
            r@.dy >= 0,
    {
        let k = self.qs.len();
        let inter = &self.users[k - 1];
        let m = us_members(inter);
        proof {
            let qi = self.cand();
            assert(qi.take(k as int) =~= qi);
            assert forall|u: int| #![trigger store.covers_all(qi, u)]
                appears(m@, u) == (0 <= u < store.nu() && store.covers_all(qi, u)) by {
                assert(inter@.contains(u) == (0 <= u < store.nu() && store.covers_all(
                    qi.take(k as int),
                    u,
                )));
                assert(inter@.contains(u) == appears(m@, u));
            }
            store.lemma_members_vec(qi, m@);
        }
        store.corr_of_members(&self.qs, &m)
    }
}

/// `n^e`, the place value of candidate ranks.
pub open spec fn npow(n: int, e: int) -> int
    decreases e,
{
    if e <= 0 {
        1
    } else {
        n * npow(n, e - 1)
    }
}

/// The rank of a candidate read as a base-`n` numeral, most significant
/// ordinal first: lexicographically later candidates have higher ranks.
pub open spec fn cand_rank(c: Seq<int>, n: int) -> int
    decreases c.len(),
{
    if c.len() == 0 {
        0
    } else {
        c.first() * npow(n, c.len() - 1) + cand_rank(c.drop_first(), n)
    }
}

proof fn lemma_npow_pos(n: int, e: int)
    requires
        n >= 1,
    ensures
        npow(n, e) >= 1,
    decreases e,
{
    if e > 0 {
        lemma_npow_pos(n, e - 1);
        assert(n * npow(n, e - 1) >= npow(n, e - 1)) by (nonlinear_arith)
            requires
                n >= 1,
                npow(n, e - 1) >= 1,
        ;
    }
}

proof fn lemma_rank_bound(c: Seq<int>, n: int)
    requires
        n >= 1,
        forall|a: int| 0 <= a < c.len() ==> 0 <= #[trigger] c[a] < n,
    ensures
        0 <= cand_rank(c, n) < npow(n, c.len() as int),
    decreases c.len(),
{
    if c.len() == 0 {
    } else {
        let t = c.drop_first();
        assert forall|a: int| 0 <= a < t.len() implies 0 <= #[trigger] t[a] < n by {
            assert(t[a] == c[a + 1]);
        }
        lemma_rank_bound(t, n);
        lemma_npow_pos(n, c.len() - 1);
        assert(c.first() * npow(n, c.len() - 1) + cand_rank(t, n) < n * npow(n, c.len() - 1))
            by (nonlinear_arith)
            requires
                0 <= c.first() < n,
                0 <= cand_rank(t, n) < npow(n, c.len() - 1),
        ;
        assert(c.first() * npow(n, c.len() - 1) >= 0) by (nonlinear_arith)
            requires
                c.first() >= 0,
                npow(n, c.len() - 1) >= 1,
        ;
    }
}

/// Lexicographic order of equal-length candidates is rank order.
proof fn lemma_rank_lt(a: Seq<int>, b: Seq<int>, n: int)
    requires
        n >= 1,
        a.len() == b.len(),
        forall|q: int| 0 <= q < a.len() ==> 0 <= #[trigger] a[q] < n,
        forall|q: int| 0 <= q < b.len() ==> 0 <= #[trigger] b[q] < n,
        lex_lt(a, b),
    ensures
        cand_rank(a, n) < cand_rank(b, n),
    decreases a.len(),
{
    let at = a.drop_first();
    let bt = b.drop_first();
    assert forall|q: int| 0 <= q < at.len() implies 0 <= #[trigger] at[q] < n by {
        assert(at[q] == a[q + 1]);
    }
    assert forall|q: int| 0 <= q < bt.len() implies 0 <= #[trigger] bt[q] < n by {
        assert(bt[q] == b[q + 1]);
    }
    lemma_rank_bound(at, n);
    lemma_rank_bound(bt, n);
    lemma_npow_pos(n, a.len() - 1);
    if a.first() < b.first() {
        assert((a.first() + 1) * npow(n, a.len() - 1) <= b.first() * npow(n, a.len() - 1))
            by (nonlinear_arith)
            requires
                a.first() + 1 <= b.first(),
                npow(n, a.len() - 1) >= 1,
        ;
        assert((a.first() + 1) * npow(n, a.len() - 1) == a.first() * npow(n, a.len() - 1) + npow(
            n,
            a.len() - 1,
        )) by (nonlinear_arith);
        assert(cand_rank(bt, n) >= 0);
    } else {
        assert(a.first() == b.first());
        lemma_rank_lt(at, bt, n);
    }
}

/// Appending one candidate extends its scored stream.
proof fn lemma_sms_push(store: AllocCorrSet, l: Seq<Seq<int>>, c: Seq<int>)
    ensures
        sms(store, l.push(c)) == if corr_finite(store.cand_corr(c)) {
            sms(store, l).insert(ScoredV { qs: c, corr: store.cand_corr(c) })
        } else {
            sms(store, l)
        },
{
    assert(l.push(c).drop_last() =~= l);
    assert(l.push(c).last() == c);
}

/// Membership survives appending.
proof fn lemma_in_list_push(l: Seq<Seq<int>>, c: Seq<int>, x: Seq<int>)
    ensures
        in_list(l.push(c), x) == (in_list(l, x) || x == c),
{
    if in_list(l.push(c), x) {
        let i = choose|i: int| 0 <= i < l.push(c).len() && l.push(c)[i] == x;
        if i < l.len() {
            assert(l[i] == x);
        }
    }
    if in_list(l, x) {
        let i = choose|i: int| 0 <= i < l.len() && l[i] == x;
        assert(l.push(c)[i] == x);
    }
    if x == c {
        assert(l.push(c)[l.len() as int] == x);
    }
}

/// The fused engine: the incremental enumerator drives the evaluation, one
/// shard per root position, reusing the coverage intersections of shared
/// prefixes throughout.
pub struct CorrSetFused {
    pub inner: AllocCorrSet,
}

impl CorrSetFused {
    /// Build the underlying store; see `AllocCorrSet::build`.
    pub fn build(rows: &Vec<Row>) -> (r: CorrSetFused)
        requires
            rows@.len() * rows@.len() <= usize::MAX,
            crate::store::total_scores(crate::store::row_views(rows@)) <= u64::MAX,
        ensures
            r.inner.wf(),
            r.inner.stores(crate::store::row_views(rows@)),
    {
        CorrSetFused { inner: AllocCorrSet::build(rows) }
    }

    /// The top-`nt` subsets of size `k`, best first, found incrementally.
    /// The result is the same selection every other strategy returns.
    pub fn k_set(&self, k: usize, nt: usize) -> (r: Result<Vec<Scored>, CorrSetError>)
        requires
            self.inner.wf(),
            nt >= 1,
        ensures
            match r {
                Ok(out) => k >= 1 && all_wf(out@) && is_topn(
                    views(out@),
                    sms(self.inner, cand_list(self.inner.nq(), k as nat)),
                    nt as int,
                ),
                Err(e) => k == 0 && e == CorrSetError::InvalidSubsetSize,
            },
    {
        if k == 0 {
            return Err(CorrSetError::InvalidSubsetSize);
        }
        let store = &self.inner;
        let nq = store.domain.questions.len();
        let mut best: Vec<Scored> = Vec::new();
        let ghost done: Seq<Seq<int>> = Seq::empty();
        let mut done_track = Ghost(done);
        proof {
            broadcast use vstd::multiset::group_multiset_axioms;
            broadcast use vstd::seq_lib::group_to_multiset_ensures;

            assert(views(best@) =~= Seq::<ScoredV>::empty());
            assert(sms(*store, done_track@) =~= Multiset::<ScoredV>::empty());
            assert(sms(*store, done_track@).len() == 0);
            assert(is_topn(views(best@), sms(*store, done_track@), nt as int));
        }
        let mut root: usize = 0;
        if k <= nq {
        while root <= nq - k
            invariant
                0 <= root,
                k >= 1,
                k <= nq,
                root <= nq,
                nq == store.nq(),
                store.wf(),
                store == &self.inner,
                nt >= 1,
                all_wf(best@),
                is_topn(views(best@), sms(*store, done_track@), nt as int),
                forall|i: int, j: int|
                    0 <= i < j < done_track@.len() ==> lex_lt(
                        #[trigger] done_track@[i],
                        #[trigger] done_track@[j],
                    ),
                forall|i: int|
                    0 <= i < done_track@.len() ==> combo_in(
                        0,
                        store.nq(),
                        k as nat,
                        #[trigger] done_track@[i],
                    ) && done_track@[i][0] < root,
                forall|c: Seq<int>|
                    combo_in(0, store.nq(), k as nat, c) && c.len() >= 1 && c[0] < root
                        ==> #[trigger] in_list(done_track@, c),
            decreases nq - root,
        {
            let mut it = QuestionCombinations::new(store, root, k);
            let mut more = true;
            proof {
                assert forall|c: Seq<int>|
                    combo_in(0, store.nq(), k as nat, c) && c.len() >= 1 && c[0] == root
                        && lex_lt(c, it.cand()) implies #[trigger] in_list(done_track@, c) by {
                    assert(root_combo(store.nq(), k as nat, root as int, c));
                }
                lemma_rank_bound(it.cand(), nq as int);
            }
            while more
                invariant
                    k >= 1,
                    root + k <= nq,
                    nq == store.nq(),
                    nq >= 1,
                    store.wf(),
                    nt >= 1,
                    it.wf(*store),
                    it.qs@.len() == k,
                    it.cand()[0] == root,
                    all_wf(best@),
                    is_topn(views(best@), sms(*store, done_track@), nt as int),
                    forall|i: int, j: int|
                        0 <= i < j < done_track@.len() ==> lex_lt(
                            #[trigger] done_track@[i],
                            #[trigger] done_track@[j],
                        ),
                    forall|i: int|
                        0 <= i < done_track@.len() ==> combo_in(
                            0,
                            store.nq(),
                            k as nat,
                            #[trigger] done_track@[i],
                        ) && done_track@[i][0] <= root,
                    more ==> forall|i: int|
                        0 <= i < done_track@.len() ==> lex_lt(
                            #[trigger] done_track@[i],
                            it.cand(),
                        ),
                    more ==> forall|c: Seq<int>|
                        combo_in(0, store.nq(), k as nat, c) && c.len() >= 1 && (c[0] < root || (
                        c[0] == root && lex_lt(c, it.cand()))) ==> #[trigger] in_list(
                            done_track@,
                            c,
                        ),
                    !more ==> forall|c: Seq<int>|
                        combo_in(0, store.nq(), k as nat, c) && c.len() >= 1 && c[0] <= root
                            ==> #[trigger] in_list(done_track@, c),
                decreases npow(nq as int, k as int) - cand_rank(it.cand(), nq as int), if more {
                    1int
                } else {
                    0int
                },
            {
                let ghost cur = it.cand();
                let sc = it.score_current(store);
                let finite = crate::corr::corr_is_finite(&sc);
                proof {
                    lemma_sms_push(*store, done_track@, cur);
                }
                if finite {
                    let qs = crate::engine::copy_cand(&it.qs);
                    let e = Scored { qs, corr: sc };
                    proof {
                        assert(e@ == ScoredV { qs: cur, corr: store.cand_corr(cur) });
                        crate::engine::lemma_sms_sound(*store, done_track@);
                    }
                    topn_insert(&mut best, e, nt, Ghost(sms(*store, done_track@)));
                }
                let ghost done0 = done_track@;
                proof {
                    done_track@ = done0.push(cur);
                    assert forall|i: int, j: int|
                        0 <= i < j < done_track@.len() implies lex_lt(
                        #[trigger] done_track@[i],
                        #[trigger] done_track@[j],
                    ) by {
                        if j < done0.len() {
                            assert(done_track@[i] == done0[i] && done_track@[j] == done0[j]);
                        } else {
                            assert(done_track@[j] == cur);
                            assert(done_track@[i] == done0[i]);
                        }
                    }
                    assert forall|i: int|
                        0 <= i < done_track@.len() implies combo_in(
                        0,
                        store.nq(),
                        k as nat,
                        #[trigger] done_track@[i],
                    ) && done_track@[i][0] <= root by {
                        if i < done0.len() {
                            assert(done_track@[i] == done0[i]);
                        } else {
                            assert(done_track@[i] == cur);
                        }
                    }
                }
                let still = it.advance(store);
                proof {
                    lemma_rank_bound(it.cand(), nq as int);
                    if still {
                        lemma_rank_lt(cur, it.cand(), nq as int);
                        assert forall|i: int|
                            0 <= i < done_track@.len() implies lex_lt(
                            #[trigger] done_track@[i],
                            it.cand(),
                        ) by {
                            if i < done0.len() {
                                assert(done_track@[i] == done0[i]);
                                assert(lex_lt(done0[i], cur));
                                lemma_lex_trans(done0[i], cur, it.cand());
                            } else {
                                assert(done_track@[i] == cur);
                            }
                        }
                        assert forall|c: Seq<int>|
                            combo_in(0, store.nq(), k as nat, c) && c.len() >= 1 && (c[0] < root
                                || (c[0] == root && lex_lt(c, it.cand()))) implies
                            #[trigger] in_list(done_track@, c) by {
                            lemma_in_list_push(done0, cur, c);
                            if c[0] == root && lex_lt(c, it.cand()) {
                                lemma_lex_trichotomy(c, cur);
                                if lex_lt(cur, c) {
                                    assert(root_combo(store.nq(), k as nat, root as int, c));
                                    assert(!lex_lt(c, it.cand()));
                                }
                            }
                        }
                    } else {
                        assert(it.cand() == cur);
                        assert forall|c: Seq<int>|
                            combo_in(0, store.nq(), k as nat, c) && c.len() >= 1 && c[0]
                                <= root implies #[trigger] in_list(done_track@, c) by {
                            lemma_in_list_push(done0, cur, c);
                            if c[0] == root {
                                assert(root_combo(store.nq(), k as nat, root as int, c));
                                assert(!lex_lt(cur, c));
                                lemma_lex_trichotomy(c, cur);
                            }
                        }
                    }
                }
                more = still;
            }
            proof {
                assert forall|c: Seq<int>|
                    combo_in(0, store.nq(), k as nat, c) && c.len() >= 1 && c[0] < root + 1
                        implies #[trigger] in_list(done_track@, c) by {}
            }
            root += 1;
        }
        }
        // Every candidate has been processed: the trail is the canonical
        // candidate list.
        proof {
            assert(k <= nq ==> root + k > nq);
            crate::combos::lemma_combos_valid(0, store.nq(), k as nat);
            crate::combos::lemma_combos_increasing(0, store.nq(), k as nat);
            let cl = cand_list(store.nq(), k as nat);
            assert forall|c: Seq<int>| in_list(done_track@, c) == in_list(cl, c) by {
                if in_list(done_track@, c) {
                    let i = choose|i: int| 0 <= i < done_track@.len() && done_track@[i] == c;
                    assert(combo_in(0, store.nq(), k as nat, c));
                    crate::combos::lemma_combos_complete(0, store.nq(), k as nat, c);
                }
                if in_list(cl, c) {
                    let i = choose|i: int| 0 <= i < cl.len() && cl[i] == c;
                    assert(combo_in(0, store.nq(), k as nat, c));
                    assert(c.len() == k);
                    lemma_increasing_gap(c, 0, k - 1);
                    assert(c[k - 1] < nq);
                    if k <= nq {
                        assert(c[0] <= nq - k);
                        assert(c[0] < root);
                        assert(in_list(done_track@, c));
                    } else {
                        assert(c[k - 1] >= c[0] + (k - 1));
                        assert(false);
                    }
                }
            }
            crate::combos::lemma_lex_list_unique(done_track@, cl);
        }
        Ok(best)
    }
}

/// Extending a covered prefix by one question intersects its coverage.
proof fn lemma_prefix_extend(
    store: AllocCorrSet,
    qi: Seq<int>,
    j: int,
    w: Set<int>,
    prev: Set<int>,
)
    requires
        1 <= j < qi.len(),
        0 <= qi[j] < store.nq(),
        store.cov@.len() == store.nq(),
        forall|u: int|
            prev.contains(u) == (0 <= u < store.nu() && store.covers_all(qi.take(j), u)),
        w =~= prev.intersect(store.cov@[qi[j]]@),
    ensures
        forall|u: int|
            w.contains(u) == (0 <= u < store.nu() && store.covers_all(qi.take(j + 1), u)),
{
    let p = qi.take(j);
    let p1 = qi.take(j + 1);
    assert(p1.drop_last() =~= p);
    assert(p1.last() == qi[j]);
    assert forall|u: int|
        w.contains(u) == (0 <= u < store.nu() && store.covers_all(p1, u)) by {
        if w.contains(u) {
            assert(prev.contains(u));
            assert(store.covers_all(p, u));
            assert(store.cov@[qi[j]]@.contains(u));
            assert forall|t: int| 0 <= t < p1.len() implies store.covered(#[trigger] p1[t], u) by {
                if t < p.len() {
                    assert(p[t] == p1[t]);
                }
            }
        }
        if 0 <= u < store.nu() && store.covers_all(p1, u) {
            assert forall|t: int| 0 <= t < p.len() implies store.covered(#[trigger] p[t], u) by {
                assert(p1[t] == p[t]);
            }
            assert(store.covered(p1[j], u));
        }
    }
}

} // verus!
