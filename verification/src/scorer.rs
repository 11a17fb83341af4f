//! Per-candidate scoring.
//!
//! A candidate is a strictly increasing sequence of question ordinals.  Its
//! covering users are the intersection of the members' coverage sets; for
//! each covering user the scorer sums that user's scores over exactly the
//! candidate's questions, pairs the sum with the user's grand total, and
//! evaluates the exact correlation of the two aligned sequences.  An empty
//! intersection yields a degenerate correlation, never an error.
use vstd::prelude::*;

use crate::bitset::{appears, us_and, us_clone, us_contains, us_members, UserSet};
use crate::corr::{correlation, corr_of, ints, Corr, CorrV};
use crate::sums::{
    all_nonneg, isum, lemma_isum_pick_le, lemma_isum_pointwise_le, lemma_isum_push,
    lemma_isum_nonneg, pick,
};
use crate::store::AllocCorrSet;

verus! {

/// A sequence of usize ordinals as mathematical integers.
pub open spec fn ord_ints(s: Seq<usize>) -> Seq<int> {
    s.map_values(|x: usize| x as int)
}

/// A valid candidate: non-empty, strictly increasing question ordinals in
/// range.  The strict increase is the canonical form of an unordered subset.
pub open spec fn valid_candidate(nq: int, qs: Seq<int>) -> bool {
    &&& 1 <= qs.len()
    &&& forall|a: int, b: int| 0 <= a < b < qs.len() ==> qs[a] < qs[b]
    &&& forall|a: int| 0 <= a < qs.len() ==> 0 <= #[trigger] qs[a] < nq
}

impl AllocCorrSet {
    /// User `u` answered every question of the candidate.
    pub open spec fn covers_all(&self, qs: Seq<int>, u: int) -> bool {
        forall|j: int| 0 <= j < qs.len() ==> self.covered(#[trigger] qs[j], u)
    }

    /// The covering users among ordinals below `n`, in increasing order.
    pub open spec fn members_upto(&self, qs: Seq<int>, n: int) -> Seq<int>
        decreases n,
    {
        if n <= 0 {
            Seq::empty()
        } else if self.covers_all(qs, n - 1) {
            self.members_upto(qs, n - 1).push(n - 1)
        } else {
            self.members_upto(qs, n - 1)
        }
    }

    /// The candidate's covering users, in increasing ordinal order.
    pub open spec fn members_of(&self, qs: Seq<int>) -> Seq<int> {
        self.members_upto(qs, self.nu())
    }

    /// User `u`'s summed score over exactly the candidate's questions.
    pub open spec fn x_of(&self, qs: Seq<int>, u: int) -> int {
        isum(pick(self.col(u), qs))
    }

    /// The per-user subset sums of the covering users.
    pub open spec fn cand_xs(&self, qs: Seq<int>) -> Seq<int> {
        self.members_of(qs).map_values(|u: int| self.x_of(qs, u))
    }

    /// The grand totals of the covering users.
    pub open spec fn cand_ys(&self, qs: Seq<int>) -> Seq<int> {
        self.members_of(qs).map_values(|u: int| self.grand_seq()[u])
    }

    /// The candidate's exact correlation triple.
    pub open spec fn cand_corr(&self, qs: Seq<int>) -> CorrV {
        corr_of(self.cand_xs(qs), self.cand_ys(qs))
    }

    /// Members are strictly increasing ordinals below `n`.
    pub proof fn lemma_members_upto_range(&self, qs: Seq<int>, n: int)
        ensures
            forall|a: int, b: int|
                0 <= a < b < self.members_upto(qs, n).len() ==> self.members_upto(qs, n)[a]
                    < self.members_upto(qs, n)[b],
            forall|a: int|
                0 <= a < self.members_upto(qs, n).len() ==> 0 <= #[trigger] self.members_upto(
                    qs,
                    n,
                )[a] < n,
        decreases n,
    {
        if n > 0 {
            self.lemma_members_upto_range(qs, n - 1);
            let m = self.members_upto(qs, n - 1);
            let cur = self.members_upto(qs, n);
            if self.covers_all(qs, n - 1) {
                assert(cur == m.push(n - 1));
                assert forall|a: int, b: int| 0 <= a < b < cur.len() implies cur[a] < cur[b] by {
                    if b < m.len() {
                        assert(cur[a] == m[a] && cur[b] == m[b]);
                    } else {
                        assert(cur[b] == n - 1);
                        assert(cur[a] == m[a]);
                    }
                }
                assert forall|a: int| 0 <= a < cur.len() implies 0 <= #[trigger] cur[a] < n by {
                    if a < m.len() {
                        assert(cur[a] == m[a]);
                    } else {
                        assert(cur[a] == n - 1);
                    }
                }
            }
        }
    }

    /// Membership among the members is exactly coverage of every question.
    pub proof fn lemma_members_upto_contains(&self, qs: Seq<int>, n: int, u: int)
        ensures
            self.members_upto(qs, n).contains(u) == (0 <= u < n && self.covers_all(qs, u)),
        decreases n,
    {
        if n > 0 {
            self.lemma_members_upto_contains(qs, n - 1, u);
            let m = self.members_upto(qs, n - 1);
            let mp = m.push(n - 1);
            if self.covers_all(qs, n - 1) {
                if mp.contains(u) {
                    let i = choose|i: int| 0 <= i < mp.len() && mp[i] == u;
                    if i < m.len() {
                        assert(m[i] == u);
                    }
                }
                if m.contains(u) {
                    let i = choose|i: int| 0 <= i < m.len() && m[i] == u;
                    assert(mp[i] == u);
                }
                if u == n - 1 {
                    assert(mp[m.len() as int] == u);
                }
            }
        }
    }
}

/// Two strictly increasing integer sequences with the same members are the
/// same sequence.
pub proof fn lemma_increasing_same_members(s1: Seq<int>, s2: Seq<int>)
    requires
        forall|a: int, b: int| 0 <= a < b < s1.len() ==> s1[a] < s1[b],
        forall|a: int, b: int| 0 <= a < b < s2.len() ==> s2[a] < s2[b],
        forall|u: int| s1.contains(u) == s2.contains(u),
    ensures
        s1 == s2,
    decreases s1.len(),
{
    if s1.len() == 0 {
        if s2.len() > 0 {
            assert(s2.contains(s2[0]));
            assert(s1.contains(s2[0]));
        }
        assert(s1 =~= s2);
    } else {
        assert(s1.contains(s1[0]));
        assert(s2.contains(s1[0]));
        if s2.len() == 0 {
            assert(s2.contains(s1[0]));
        }
        assert(s2.contains(s2[0]));
        assert(s1.contains(s2[0]));
        // The heads are both the minimum, hence equal.
        let i1 = choose|i: int| 0 <= i < s1.len() && s1[i] == s2[0];
        let i2 = choose|i: int| 0 <= i < s2.len() && s2[i] == s1[0];
        assert(s1[0] <= s1[i1]);
        assert(s2[0] <= s2[i2]);
        assert(s1[0] == s2[0]);
        let t1 = s1.drop_first();
        let t2 = s2.drop_first();
        assert forall|u: int| t1.contains(u) == t2.contains(u) by {
            lemma_tail_contains(s1, u);
            lemma_tail_contains(s2, u);
            assert(t1.contains(u) == (s1.contains(u) && u != s1[0]));
            assert(t2.contains(u) == (s2.contains(u) && u != s2[0]));
        }
        lemma_increasing_same_members(t1, t2);
        assert(s1 =~= Seq::empty().push(s1[0]) + t1);
        assert(s2 =~= Seq::empty().push(s2[0]) + t2);
    }
}

/// In a strictly increasing sequence, the tail holds exactly the elements
/// other than the head.
proof fn lemma_tail_contains(s: Seq<int>, u: int)
    requires
        s.len() > 0,
        forall|a: int, b: int| 0 <= a < b < s.len() ==> s[a] < s[b],
    ensures
        s.drop_first().contains(u) == (s.contains(u) && u != s[0]),
{
    let t = s.drop_first();
    if t.contains(u) {
        let i = choose|i: int| 0 <= i < t.len() && t[i] == u;
        assert(s[i + 1] == u);
        assert(s[0] < s[i + 1]);
    }
    if s.contains(u) && u != s[0] {
        let i = choose|i: int| 0 <= i < s.len() && s[i] == u;
        assert(i != 0);
        assert(t[i - 1] == u);
    }
}

impl AllocCorrSet {
    /// The coverage intersection of the candidate's questions.
    pub fn intersect_covs(&self, qs: &Vec<usize>) -> (r: UserSet)
        requires
            self.wf(),
            valid_candidate(self.nq(), ord_ints(qs@)),
        ensures
            r.wf(),
            r.nbits as int == self.nu(),
            forall|u: int|
                r@.contains(u) == (0 <= u < self.nu() && self.covers_all(ord_ints(qs@), u)),
    {
        let ghost qi = ord_ints(qs@);
        proof {
            assert(qi[0] == qs@[0] as int);
            assert(0 <= qi[0] < self.nq());
        }
        let mut r = us_clone(&self.cov[qs[0]]);
        let mut j: usize = 1;
        proof {
            assert forall|u: int|
                r@.contains(u) == (0 <= u < self.nu() && self.covers_all(qi.take(1), u)) by {
                assert(qi.take(1)[0] == qi[0]);
            }
        }
        while j < qs.len()
            invariant
                1 <= j <= qs@.len(),
                self.wf(),
                qi == ord_ints(qs@),
                valid_candidate(self.nq(), qi),
                r.wf(),
                r.nbits as int == self.nu(),
                forall|u: int|
                    r@.contains(u) == (0 <= u < self.nu() && self.covers_all(
                        qi.take(j as int),
                        u,
                    )),
            decreases qs@.len() - j,
        {
            proof {
                assert(qi[j as int] == qs@[j as int] as int);
                assert(0 <= qi[j as int] < self.nq());
            }
            let r2 = us_and(&r, &self.cov[qs[j]]);
            proof {
                assert forall|u: int|
                    r2@.contains(u) == (0 <= u < self.nu() && self.covers_all(
                        qi.take(j as int + 1),
                        u,
                    )) by {
                    let p = qi.take(j as int);
                    let p1 = qi.take(j as int + 1);
                    assert(p1.drop_last() =~= p);
                    assert(p1.last() == qi[j as int]);
                    if r2@.contains(u) {
                        assert(r@.contains(u));
                        assert(self.covers_all(p, u));
                        assert(self.cov@[qi[j as int]]@.contains(u));
                        assert forall|jj: int| 0 <= jj < p1.len() implies self.covered(
                            #[trigger] p1[jj],
                            u,
                        ) by {
                            if jj < p.len() {
                                assert(p[jj] == p1[jj]);
                            }
                        }
                    }
                    if 0 <= u < self.nu() && self.covers_all(p1, u) {
                        assert forall|jj: int| 0 <= jj < p.len() implies self.covered(
                            #[trigger] p[jj],
                            u,
                        ) by {
                            assert(p1[jj] == p[jj]);
                        }
                        assert(self.covered(p1[j as int], u));
                    }
                }
            }
            r = r2;
            j += 1;
        }
        proof {
            assert(qi.take(qi.len() as int) =~= qi);
        }
        r
    }

    /// The candidate's covering users, via the coverage intersection.
    pub fn members(&self, qs: &Vec<usize>) -> (r: Vec<usize>)
        requires
            self.wf(),
            valid_candidate(self.nq(), ord_ints(qs@)),
        ensures
            ord_ints(r@) == self.members_of(ord_ints(qs@)),
    {
        let inter = self.intersect_covs(qs);
        let m = us_members(&inter);
        proof {
            let qi = ord_ints(qs@);
            assert forall|u: int| #![trigger self.covers_all(qi, u)]
                appears(m@, u) == (0 <= u < self.nu() && self.covers_all(qi, u)) by {
                assert(inter@.contains(u) == (0 <= u < self.nu() && self.covers_all(qi, u)));
                assert(inter@.contains(u) == appears(m@, u));
            }
            self.lemma_members_vec(qi, m@);
        }
        m
    }

    /// The candidate's covering users, by scanning every user's coverage:
    /// the baseline strategy, with the same contract as the bitset path.
    pub fn members_scan(&self, qs: &Vec<usize>) -> (r: Vec<usize>)
        requires
            self.wf(),
            valid_candidate(self.nq(), ord_ints(qs@)),
        ensures
            ord_ints(r@) == self.members_of(ord_ints(qs@)),
    {
        let ghost qi = ord_ints(qs@);
        let nu = self.grand.len();
        let mut r: Vec<usize> = Vec::new();
        let mut u: usize = 0;
        proof {
            assert(ord_ints(r@) =~= self.members_upto(qi, 0));
        }
        while u < nu
            invariant
                0 <= u <= nu,
                nu as int == self.nu(),
                self.wf(),
                qi == ord_ints(qs@),
                valid_candidate(self.nq(), qi),
                ord_ints(r@) == self.members_upto(qi, u as int),
            decreases nu - u,
        {
            let mut all = true;
            let mut j: usize = 0;
            while j < qs.len()
                invariant
                    0 <= j <= qs@.len(),
                    0 <= u < nu,
                    nu as int == self.nu(),
                    self.wf(),
                    qi == ord_ints(qs@),
                    valid_candidate(self.nq(), qi),
                    all == (forall|jj: int|
                        0 <= jj < j ==> self.covered(#[trigger] qi[jj], u as int)),
                decreases qs@.len() - j,
            {
                proof {
                    assert(qi[j as int] == qs@[j as int] as int);
                    assert(0 <= qi[j as int] < self.nq());
                }
                if !us_contains(&self.cov[qs[j]], u) {
                    all = false;
                }
                j += 1;
            }
            let ghost r0 = r@;
            if all {
                r.push(u);
                proof {
                    assert(ord_ints(r@) =~= ord_ints(r0).push(u as int));
                }
            }
            proof {
                assert(self.covers_all(qi, u as int) == all);
            }
            u += 1;
        }
        r
    }

    /// The members vector of the intersection is the members sequence.
    pub proof fn lemma_members_vec(&self, qi: Seq<int>, m: Seq<usize>)
        requires
            forall|i: int, j: int| 0 <= i < j < m.len() ==> m[i] < m[j],
            forall|u: int| #![trigger appears(m, u)]
                appears(m, u) == (0 <= u < self.nu() && self.covers_all(qi, u)),
        ensures
            ord_ints(m) == self.members_of(qi),
    {
        let mi = ord_ints(m);
        self.lemma_members_upto_range(qi, self.nu());
        assert(self.members_of(qi) == self.members_upto(qi, self.nu()));
        assert forall|u: int| mi.contains(u) == self.members_of(qi).contains(u) by {
            self.lemma_members_upto_contains(qi, self.nu(), u);
            if mi.contains(u) {
                let i = choose|i: int| 0 <= i < mi.len() && mi[i] == u;
                assert(m[i] == u);
                assert(appears(m, u));
                assert(0 <= u < self.nu() && self.covers_all(qi, u));
                assert(self.members_of(qi).contains(u));
            }
            if self.members_of(qi).contains(u) {
                assert(0 <= u < self.nu() && self.covers_all(qi, u));
                assert(appears(m, u) == (0 <= u < self.nu() && self.covers_all(qi, u)));
                assert(appears(m, u));
                let i = choose|i: int| 0 <= i < m.len() && m[i] == u;
                assert(mi[i] == u);
                assert(mi.contains(u));
            }
        }
        assert forall|a: int, b: int| 0 <= a < b < mi.len() implies mi[a] < mi[b] by {
            assert(m[a] < m[b]);
        }
        lemma_increasing_same_members(mi, self.members_of(qi));
    }

    /// User `u`'s summed score over exactly the candidate's questions: the
    /// per-user aggregation, exact in integer arithmetic.
    pub fn subset_sum(&self, qs: &Vec<usize>, u: usize) -> (x: u64)
        requires
            self.wf(),
            valid_candidate(self.nq(), ord_ints(qs@)),
            u < self.nu(),
        ensures
            x as int == self.x_of(ord_ints(qs@), u as int),
            x <= self.grand@[u as int],
    {
        let ghost qi = ord_ints(qs@);
        let nu = self.grand.len();
        let table = self.scores.len();
        let mut x: u64 = 0;
        let mut j: usize = 0;
        proof {
            assert(pick(self.col(u as int), qi.take(0)) =~= Seq::<int>::empty());
        }
        while j < qs.len()
            invariant
                0 <= j <= qs@.len(),
                u < self.nu(),
                nu as int == self.nu(),
                table == self.scores@.len(),
                self.wf(),
                qi == ord_ints(qs@),
                valid_candidate(self.nq(), qi),
                x as int == isum(pick(self.col(u as int), qi.take(j as int))),
                x <= self.grand@[u as int],
            decreases qs@.len() - j,
        {
            let ghost col = self.col(u as int);
            proof {
                assert(qi[j as int] == qs@[j as int] as int);
                assert(0 <= qi[j as int] < self.nq());
                crate::store::lemma_flat_bounds(qi[j as int], u as int, self.nq(), self.nu());
                let p = qi.take(j as int);
                let p1 = qi.take(j as int + 1);
                assert(p1.drop_last() =~= p);
                assert(pick(col, p1).drop_last() =~= pick(col, p));
                assert(pick(col, p1).last() == col[qi[j as int]]);
                assert(isum(pick(col, p1)) == isum(pick(col, p)) + col[qi[j as int]]);
                // The growing sum stays below the user's grand total.
                assert(all_nonneg(col));
                assert forall|a: int, b: int| 0 <= a < b < p1.len() implies p1[a] < p1[b] by {
                    assert(qi[a] < qi[b]);
                }
                assert forall|a: int| 0 <= a < p1.len() implies 0 <= #[trigger] p1[a]
                    < col.len() by {
                    assert(0 <= qi[a] < self.nq());
                }
                lemma_isum_pick_le(col, p1);
                assert(self.grand@[u as int] as int == isum(col));
                assert(col[qi[j as int]] == self.score_at(qi[j as int], u as int));
            }
            x = x + self.scores[qs[j] * nu + u];
            j += 1;
        }
        proof {
            assert(qi.take(qi.len() as int) =~= qi);
        }
        x
    }

    /// For a two-question candidate, the per-user aggregated score is the
    /// exact integer sum of the two stored scores: no rounding happens
    /// before the correlation step.
    pub proof fn lemma_pair_subset_sum(&self, q1: int, q2: int, u: int)
        requires
            0 <= q1 < self.nq(),
            0 <= q2 < self.nq(),
        ensures
            self.x_of(seq![q1, q2], u) == self.score_at(q1, u) + self.score_at(q2, u),
    {
        let col = self.col(u);
        let p = pick(col, seq![q1, q2]);
        assert(p =~= seq![col[q1], col[q2]]);
        assert(p.drop_last() =~= seq![col[q1]]);
        assert(seq![col[q1]].drop_last() =~= Seq::<int>::empty());
        assert(isum(p) == isum(p.drop_last()) + col[q2]);
        assert(isum(seq![col[q1]]) == isum(Seq::<int>::empty()) + col[q1]);
    }

    /// The exact correlation of a candidate, given its covering users.
    ///
    /// For each covering user, pairs the subset sum with the grand total and
    /// evaluates the correlation of the two aligned sequences.
    pub fn corr_of_members(&self, qs: &Vec<usize>, mem: &Vec<usize>) -> (r: Corr)
        requires
            self.wf(),
            valid_candidate(self.nq(), ord_ints(qs@)),
            ord_ints(mem@) == self.members_of(ord_ints(qs@)),
        ensures
            r.wf(),
            r@ == self.cand_corr(ord_ints(qs@)),
            r@.dx >= 0,
            r@.dy >= 0,
    {
        let ghost qi = ord_ints(qs@);
        let n = mem.len();
        let mut xs: Vec<u64> = Vec::new();
        let mut ys: Vec<u64> = Vec::new();
        let mut i: usize = 0;
        proof {
            self.lemma_members_upto_range(qi, self.nu());
            assert(self.members_of(qi) == self.members_upto(qi, self.nu()));
            assert forall|a: int| 0 <= a < mem@.len() implies 0 <= #[trigger] mem@[a]
                < self.nu() by {
                assert(ord_ints(mem@)[a] == mem@[a] as int);
                assert(0 <= self.members_upto(qi, self.nu())[a] < self.nu());
            }
            assert(ints(xs@) =~= self.cand_xs(qi).take(0));
            assert(ints(ys@) =~= self.cand_ys(qi).take(0));
        }
        while i < n
            invariant
                0 <= i <= n,
                n == mem@.len(),
                self.wf(),
                qi == ord_ints(qs@),
                valid_candidate(self.nq(), qi),
                ord_ints(mem@) == self.members_of(qi),
                forall|a: int| 0 <= a < mem@.len() ==> 0 <= #[trigger] mem@[a] < self.nu(),
                xs@.len() == i,
                ys@.len() == i,
                ints(xs@) == self.cand_xs(qi).take(i as int),
                ints(ys@) == self.cand_ys(qi).take(i as int),
            decreases n - i,
        {
            let u = mem[i];
            proof {
                assert(ord_ints(mem@)[i as int] == u as int);
                assert(self.members_of(qi)[i as int] == u as int);
            }
            let x = self.subset_sum(qs, u);
            let y = self.grand[u];
            let ghost xs0 = xs@;
            let ghost ys0 = ys@;
            xs.push(x);
            ys.push(y);
            proof {
                assert(ints(xs@) =~= ints(xs0).push(x as int));
                assert(ints(ys@) =~= ints(ys0).push(y as int));
                assert(self.cand_xs(qi)[i as int] == self.x_of(qi, u as int));
                assert(self.cand_ys(qi)[i as int] == self.grand_seq()[u as int]);
                assert(self.cand_xs(qi).take(i as int + 1) =~= self.cand_xs(qi).take(
                    i as int,
                ).push(self.cand_xs(qi)[i as int]));
                assert(self.cand_ys(qi).take(i as int + 1) =~= self.cand_ys(qi).take(
                    i as int,
                ).push(self.cand_ys(qi)[i as int]));
            }
            i += 1;
        }
        proof {
            assert(self.cand_xs(qi).take(n as int) =~= self.cand_xs(qi));
            assert(self.cand_ys(qi).take(n as int) =~= self.cand_ys(qi));
            // Both sums fit the accumulators: the grand totals of distinct
            // users sum to at most the overall total, and each subset sum is
            // at most the matching grand total.
            assert(ints(ys@) =~= pick(self.grand_seq(), ord_ints(mem@)));
            crate::sums::lemma_isum_nonneg(self.grand_seq());
            assert(all_nonneg(self.grand_seq()));
            assert forall|a: int, b: int|
                0 <= a < b < ord_ints(mem@).len() implies ord_ints(mem@)[a] < ord_ints(
                mem@,
            )[b] by {
                assert(self.members_of(qi)[a] < self.members_of(qi)[b]);
            }
            assert forall|a: int| 0 <= a < ord_ints(mem@).len() implies 0 <= #[trigger] ord_ints(
                mem@,
            )[a] < self.grand_seq().len() by {
                assert(0 <= self.members_of(qi)[a] < self.nu());
            }
            lemma_isum_pick_le(self.grand_seq(), ord_ints(mem@));
            // Pointwise, a subset sum never exceeds the user's grand total.
            assert forall|a: int| 0 <= a < ints(xs@).len() implies ints(xs@)[a] <= ints(
                ys@,
            )[a] by {
                let u = self.members_of(qi)[a];
                assert(0 <= u < self.nu());
                assert(ints(xs@)[a] == self.cand_xs(qi)[a]);
                assert(ints(ys@)[a] == self.cand_ys(qi)[a]);
                assert(self.cand_xs(qi)[a] == self.x_of(qi, u));
                assert(self.cand_ys(qi)[a] == self.grand_seq()[u]);
                let col = self.col(u);
                assert(all_nonneg(col));
                assert forall|c: int, d: int| 0 <= c < d < qi.len() implies qi[c] < qi[d] by {}
                assert forall|c: int| 0 <= c < qi.len() implies 0 <= #[trigger] qi[c]
                    < col.len() by {
                    assert(0 <= qi[c] < self.nq());
                }
                lemma_isum_pick_le(col, qi);
                assert(self.grand@[u] as int == isum(col));
            }
            lemma_isum_pointwise_le(ints(xs@), ints(ys@));
        }
        let r = correlation(&xs, &ys);
        r
    }

    /// The exact correlation of a candidate: intersect the coverage sets,
    /// then score the covering users.
    pub fn corr_set(&self, qs: &Vec<usize>) -> (r: Corr)
        requires
            self.wf(),
            valid_candidate(self.nq(), ord_ints(qs@)),
        ensures
            r.wf(),
            r@ == self.cand_corr(ord_ints(qs@)),
            r@.dx >= 0,
            r@.dy >= 0,
    {
        let mem = self.members(qs);
        self.corr_of_members(qs, &mem)
    }

    /// The exact correlation of a candidate, scanning users instead of
    /// intersecting bitsets: the baseline strategy, same contract.
    pub fn corr_set_scan(&self, qs: &Vec<usize>) -> (r: Corr)
        requires
            self.wf(),
            valid_candidate(self.nq(), ord_ints(qs@)),
        ensures
            r.wf(),
            r@ == self.cand_corr(ord_ints(qs@)),
            r@.dx >= 0,
            r@.dy >= 0,
    {
        let mem = self.members_scan(qs);
        self.corr_of_members(qs, &mem)
    }
}

} // verus!
