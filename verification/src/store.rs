//! The coverage and score store.
//!
//! Built once per dataset and read-only afterwards: per-question coverage
//! bitsets, a dense question-major score table, and each user's grand total.
//! Duplicate `(user, question)` observations are legal and the last one wins.
use vstd::prelude::*;

use crate::bitset::{us_clone, us_insert, us_new, UserSet};
use crate::corr::ints;
use crate::domain::{dedup_names, lemma_dedup_membership, Domain};
use crate::sums::{
    all_nonneg, isum, lemma_isum_element_le, lemma_isum_nonneg, lemma_isum_update,
};
use crate::{Row, RowV};

verus! {

/// The score that survives for `(uname, qname)`: the last observation wins,
/// `None` when the pair was never observed.
pub open spec fn row_score(rows: Seq<RowV>, uname: Seq<char>, qname: Seq<char>) -> Option<int>
    decreases rows.len(),
{
    if rows.len() == 0 {
        None
    } else if rows.last().user == uname && rows.last().question == qname {
        Some(rows.last().score)
    } else {
        row_score(rows.drop_last(), uname, qname)
    }
}

/// The total of all observed scores, duplicates included.
pub open spec fn total_scores(rows: Seq<RowV>) -> int
    decreases rows.len(),
{
    if rows.len() == 0 {
        0
    } else {
        total_scores(rows.drop_last()) + rows.last().score
    }
}

/// The views of a vector of rows.
pub open spec fn row_views(rows: Seq<Row>) -> Seq<RowV> {
    rows.map_values(|x: Row| x@)
}

/// Deduplication cannot lengthen a sequence.
proof fn lemma_dedup_len(s: Seq<Seq<char>>)
    ensures
        dedup_names(s).len() <= s.len(),
    decreases s.len(),
{
    if s.len() > 0 {
        lemma_dedup_len(s.drop_last());
    }
}

/// A flat question-major index stays in the table.
pub proof fn lemma_flat_bounds(q: int, u: int, nq: int, nu: int)
    requires
        0 <= q < nq,
        0 <= u < nu,
    ensures
        0 <= q * nu + u < nq * nu,
{
    assert(0 <= q * nu + u < nq * nu) by (nonlinear_arith)
        requires
            0 <= q < nq,
            0 <= u < nu,
    ;
}

/// Distinct cells of the table have distinct flat indices.
proof fn lemma_flat_inj(q1: int, u1: int, q2: int, u2: int, nu: int)
    requires
        0 <= u1 < nu,
        0 <= u2 < nu,
        0 <= q1,
        0 <= q2,
        q1 * nu + u1 == q2 * nu + u2,
    ensures
        q1 == q2 && u1 == u2,
{
    assert(q1 == q2 && u1 == u2) by (nonlinear_arith)
        requires
            0 <= u1 < nu,
            0 <= u2 < nu,
            0 <= q1,
            0 <= q2,
            q1 * nu + u1 == q2 * nu + u2,
    ;
}

/// A sequence of zeros sums to zero.
proof fn lemma_isum_zeros(s: Seq<int>)
    requires
        forall|i: int| 0 <= i < s.len() ==> s[i] == 0,
    ensures
        isum(s) == 0,
    decreases s.len(),
{
    if s.len() > 0 {
        lemma_isum_zeros(s.drop_last());
    }
}

/// `n` zero words.
fn zeros_u64(n: usize) -> (r: Vec<u64>)
    ensures
        r@.len() == n,
        forall|i: int| 0 <= i < n ==> r@[i] == 0u64,
{
    let mut r: Vec<u64> = Vec::new();
    let mut i: usize = 0;
    while i < n
        invariant
            0 <= i <= n,
            r@.len() == i,
            forall|j: int| 0 <= j < i ==> r@[j] == 0u64,
        decreases n - i,
    {
        r.push(0);
        i += 1;
    }
    r
}

/// `nq` empty coverage sets over a domain of `nu` users.
fn empty_covs(nq: usize, nu: usize) -> (r: Vec<UserSet>)
    requires
        nu <= usize::MAX - 63,
    ensures
        r@.len() == nq,
        forall|q: int|
            0 <= q < nq ==> (#[trigger] r@[q]).wf() && r@[q].nbits == nu && r@[q]@ =~= Set::<
                int,
            >::empty(),
{
    let mut r: Vec<UserSet> = Vec::new();
    let mut i: usize = 0;
    while i < nq
        invariant
            0 <= i <= nq,
            nu <= usize::MAX - 63,
            r@.len() == i,
            forall|q: int|
                0 <= q < i ==> (#[trigger] r@[q]).wf() && r@[q].nbits == nu && r@[q]@ =~= Set::<
                    int,
                >::empty(),
        decreases nq - i,
    {
        r.push(us_new(nu));
        i += 1;
    }
    r
}

/// The indexed store: domain, coverage sets, dense score table and grand
/// totals.  Built once; evaluation only reads it.
pub struct AllocCorrSet {
    pub domain: Domain,
    pub cov: Vec<UserSet>,
    pub scores: Vec<u64>,
    pub grand: Vec<u64>,
}

impl AllocCorrSet {
    /// Number of distinct users.
    pub open spec fn nu(&self) -> int {
        self.domain.users@.len() as int
    }

    /// Number of distinct questions.
    pub open spec fn nq(&self) -> int {
        self.domain.questions@.len() as int
    }

    /// The stored score of `(q, u)`; zero when unanswered.
    pub open spec fn score_at(&self, q: int, u: int) -> int {
        self.scores@[q * self.nu() + u] as int
    }

    /// Whether user `u` answered question `q`.
    pub open spec fn covered(&self, q: int, u: int) -> bool {
        self.cov@[q]@.contains(u)
    }

    /// User `u`'s stored scores, question by question.
    pub open spec fn col(&self, u: int) -> Seq<int> {
        Seq::new(self.nq() as nat, |q: int| self.score_at(q, u))
    }

    /// The grand totals as mathematical integers.
    pub open spec fn grand_seq(&self) -> Seq<int> {
        ints(self.grand@)
    }

    /// The store's invariant: consistent sizes, zero scores outside the
    /// coverage sets, grand totals that equal the column sums, and an
    /// overall total that fits the accumulator registers.
    pub open spec fn wf(&self) -> bool {
        &&& self.domain.wf()
        &&& self.cov@.len() == self.nq()
        &&& forall|q: int|
            0 <= q < self.nq() ==> (#[trigger] self.cov@[q]).wf() && self.cov@[q].nbits
                == self.nu()
        &&& self.scores@.len() == self.nq() * self.nu()
        &&& self.grand@.len() == self.nu()
        &&& forall|q: int, u: int|
            0 <= q < self.nq() && 0 <= u < self.nu() && !self.covered(q, u)
                ==> self.score_at(q, u) == 0
        &&& forall|u: int|
            0 <= u < self.nu() ==> self.grand@[u] as int == isum(#[trigger] self.col(u))
        &&& isum(self.grand_seq()) <= u64::MAX
    }

    /// The stored table holds exactly the observations, last write winning.
    pub open spec fn stores(&self, rows: Seq<RowV>) -> bool {
        forall|q: int, u: int|
            0 <= q < self.nq() && 0 <= u < self.nu() ==> #[trigger] self.cell_stores(rows, q, u)
    }

    /// The relation of one cell `(q, u)` to the observations.
    pub open spec fn cell_stores(&self, rows: Seq<RowV>, q: int, u: int) -> bool {
        match row_score(
                rows,
                self.domain.user_names()[u],
                self.domain.question_names()[q],
            ) {
                Some(s) => self.covered(q, u) && self.score_at(q, u) == s,
                None => !self.covered(q, u),
            }
    }

    /// Build the store from the observations.
    ///
    /// The two bounds are machine limits: the dense table must fit in an
    /// allocation, and the grand totals must fit the 64-bit accumulators
    /// that candidate evaluation sums them in.
    pub fn build(rows: &Vec<Row>) -> (r: AllocCorrSet)
        requires
            rows@.len() * rows@.len() <= usize::MAX,
            total_scores(row_views(rows@)) <= u64::MAX,
        ensures
            r.wf(),
            r.domain.user_names() == dedup_names(rows@.map_values(|x: Row| x@.user)),
            r.domain.question_names() == dedup_names(rows@.map_values(|x: Row| x@.question)),
            r.stores(row_views(rows@)),
    {
        let ghost rv = row_views(rows@);
        let domain = Domain::build(rows);
        let nu = domain.users.len();
        let nq = domain.questions.len();
        let nrows = rows.len();
        proof {
            assert(rows@.map_values(|x: Row| x@.user).len() == nrows);
            assert(rows@.map_values(|x: Row| x@.question).len() == nrows);
            lemma_dedup_len(rows@.map_values(|x: Row| x@.user));
            lemma_dedup_len(rows@.map_values(|x: Row| x@.question));
            assert(nq * nu <= nrows * nrows) by (nonlinear_arith)
                requires
                    0 <= nq <= nrows,
                    0 <= nu <= nrows,
            ;
            assert(nu <= usize::MAX - 63) by (nonlinear_arith)
                requires
                    0 <= nu <= nrows,
                    nrows as int * nrows as int <= usize::MAX,
            ;
        }
        let table = nq * nu;
        let scores = zeros_u64(table);
        let grand = zeros_u64(nu);
        let cov = empty_covs(nq, nu);
        let mut store = AllocCorrSet { domain, cov, scores, grand };
        proof {
            assert forall|u: int| 0 <= u < store.nu() implies store.grand@[u] as int == isum(
                #[trigger] store.col(u),
            ) by {
                assert(forall|q: int| 0 <= q < store.nq() ==> store.col(u)[q] == 0) by {
                    assert forall|q: int| 0 <= q < store.nq() implies store.col(u)[q] == 0 by {
                        lemma_flat_bounds(q, u, store.nq(), store.nu());
                    }
                }
                lemma_isum_zeros(store.col(u));
            }
            assert(forall|i: int|
                0 <= i < store.grand_seq().len() ==> store.grand_seq()[i] == 0);
            lemma_isum_zeros(store.grand_seq());
            assert(rv.take(0) =~= Seq::<RowV>::empty());
            assert forall|q: int, u: int|
                0 <= q < store.nq() && 0 <= u < store.nu() implies #[trigger] store.cell_stores(
                rv.take(0),
                q,
                u,
            ) by {
                lemma_flat_bounds(q, u, store.nq(), store.nu());
                assert(!store.covered(q, u));
            }
            assert forall|q: int, u: int|
                0 <= q < store.nq() && 0 <= u < store.nu() && !store.covered(q, u) implies
                store.score_at(q, u) == 0 by {
                lemma_flat_bounds(q, u, store.nq(), store.nu());
            }
            assert(store.stores(rv.take(0)));
            assert(isum(store.grand_seq()) <= total_scores(rv.take(0)));
        }
        let mut k: usize = 0;
        while k < nrows
            invariant
                0 <= k <= nrows,
                nrows == rows@.len(),
                rv == row_views(rows@),
                nu == store.nu(),
                nq == store.nq(),
                nq * nu <= usize::MAX,
                store.domain.wf(),
                store.domain.user_names() == dedup_names(rows@.map_values(|x: Row| x@.user)),
                store.domain.question_names() == dedup_names(
                    rows@.map_values(|x: Row| x@.question),
                ),
                store.cov@.len() == nq,
                forall|q: int|
                    0 <= q < nq ==> (#[trigger] store.cov@[q]).wf() && store.cov@[q].nbits == nu,
                store.scores@.len() == nq * nu,
                store.grand@.len() == nu,
                forall|q: int, u: int|
                    0 <= q < nq && 0 <= u < nu && !store.covered(q, u) ==> store.score_at(q, u)
                        == 0,
                forall|u: int|
                    0 <= u < nu ==> store.grand@[u] as int == isum(#[trigger] store.col(u)),
                total_scores(rv) <= u64::MAX,
                isum(store.grand_seq()) <= total_scores(rv.take(k as int)),
                store.stores(rv.take(k as int)),
            decreases nrows - k,
        {
            let row = &rows[k];
            proof {
                assert(rows@.map_values(|x: Row| x@.user)[k as int] == row@.user);
                lemma_dedup_membership(rows@.map_values(|x: Row| x@.user), row@.user);
                assert(rows@.map_values(|x: Row| x@.user).contains(row@.user));
                assert(rows@.map_values(|x: Row| x@.question)[k as int] == row@.question);
                lemma_dedup_membership(rows@.map_values(|x: Row| x@.question), row@.question);
                assert(rows@.map_values(|x: Row| x@.question).contains(row@.question));
            }
            let u = match store.domain.index_of_user(&row.user) {
                Ok(u) => u,
                Err(_) => {
                    proof {
                        assert(false);
                    }
                    vstd::pervasive::unreached::<usize>()
                },
            };
            let q = match store.domain.index_of_question(&row.question) {
                Ok(q) => q,
                Err(_) => {
                    proof {
                        assert(false);
                    }
                    vstd::pervasive::unreached::<usize>()
                },
            };
            proof {
                lemma_flat_bounds(q as int, u as int, nq as int, nu as int);
            }
            let idx = q * nu + u;
            let old_score = store.scores[idx];
            let new_score = row.score as u64;
            let ghost st0 = store;
            // The updated grand total stays within `u64`: the overall sum
            // after this row is at most the total of the first k+1 rows.
            proof {
                assert forall|i: int| 0 <= i < rv.len() implies rv[i].score >= 0 by {
                    assert(rv[i] == rows@[i]@);
                }
                lemma_total_take_succ(rv, k as int);
                lemma_total_take_le(rv, k as int + 1);
                assert(st0.col(u as int)[q as int] == old_score as int);
                lemma_col_nonneg(st0, u as int);
                lemma_isum_element_le(st0.col(u as int), q as int);
                lemma_grand_nonneg(st0);
                lemma_isum_element_le(st0.grand_seq(), u as int);
                assert(st0.grand_seq()[u as int] == st0.grand@[u as int] as int);
                lemma_isum_update(
                    st0.grand_seq(),
                    u as int,
                    st0.grand@[u as int] - old_score + new_score,
                );
            }
            let g2 = store.grand[u] - old_score + new_score;
            let ghost old_scores = store.scores@;
            let ghost old_grand = store.grand@;
            let ghost old_cov = store.cov@;
            store.scores.set(idx, new_score);
            let mut c = us_clone(&store.cov[q]);
            us_insert(&mut c, u);
            store.cov.set(q, c);
            store.grand.set(u, g2);
            proof {
                lemma_build_step(
                    st0,
                    store,
                    rv,
                    k as int,
                    q as int,
                    u as int,
                    old_score,
                    new_score,
                );
            }
            k += 1;
        }
        proof {
            assert(rv.take(nrows as int) =~= rv);
        }
        store
    }
}

/// Each column entry is a non-negative score.
proof fn lemma_col_nonneg(s: AllocCorrSet, u: int)
    ensures
        all_nonneg(s.col(u)),
{
}

/// Grand totals are non-negative.
proof fn lemma_grand_nonneg(s: AllocCorrSet)
    ensures
        all_nonneg(s.grand_seq()),
{
}

/// The total of one more row.
proof fn lemma_total_take_succ(rv: Seq<RowV>, k: int)
    requires
        0 <= k < rv.len(),
    ensures
        total_scores(rv.take(k + 1)) == total_scores(rv.take(k)) + rv[k].score,
{
    assert(rv.take(k + 1).drop_last() =~= rv.take(k));
    assert(rv.take(k + 1).last() == rv[k]);
}

/// Prefix totals of non-negative rows never exceed the full total.
proof fn lemma_total_take_le(rv: Seq<RowV>, k: int)
    requires
        0 <= k <= rv.len(),
        forall|i: int| 0 <= i < rv.len() ==> rv[i].score >= 0,
    ensures
        total_scores(rv.take(k)) <= total_scores(rv),
    decreases rv.len() - k,
{
    if k < rv.len() {
        lemma_total_take_succ(rv, k);
        lemma_total_take_le(rv, k + 1);
    } else {
        assert(rv.take(k) =~= rv);
    }
}

/// One build step: writing row `k`'s score into cell `(q, u)` updates the
/// stored relation, the grand totals, and the running bound.
proof fn lemma_build_step(
    st0: AllocCorrSet,
    st1: AllocCorrSet,
    rv: Seq<RowV>,
    k: int,
    q: int,
    u: int,
    old_score: u64,
    new_score: u64,
)
    requires
        0 <= k < rv.len(),
        forall|i: int| 0 <= i < rv.len() ==> rv[i].score >= 0,
        st0.domain.wf(),
        0 <= q < st0.nq(),
        0 <= u < st0.nu(),
        st0.cov@.len() == st0.nq(),
        forall|qq: int|
            0 <= qq < st0.nq() ==> (#[trigger] st0.cov@[qq]).wf() && st0.cov@[qq].nbits
                == st0.nu(),
        st0.scores@.len() == st0.nq() * st0.nu(),
        st0.grand@.len() == st0.nu(),
        forall|qq: int, uu: int|
            0 <= qq < st0.nq() && 0 <= uu < st0.nu() && !st0.covered(qq, uu) ==> st0.score_at(
                qq,
                uu,
            ) == 0,
        forall|uu: int|
            0 <= uu < st0.nu() ==> st0.grand@[uu] as int == isum(#[trigger] st0.col(uu)),
        isum(st0.grand_seq()) <= total_scores(rv.take(k)),
        st0.stores(rv.take(k)),
        // The row matched ordinals u and q.
        rv[k].user == st0.domain.user_names()[u],
        rv[k].question == st0.domain.question_names()[q],
        rv[k].score == new_score as int,
        old_score == st0.scores@[q * st0.nu() + u],
        // How st1 was produced from st0.
        st1.domain == st0.domain,
        st1.scores@ == st0.scores@.update(q * st0.nu() + u, new_score),
        st1.cov@.len() == st0.cov@.len(),
        forall|qq: int| 0 <= qq < st0.nq() && qq != q ==> st1.cov@[qq] == st0.cov@[qq],
        st1.cov@[q].wf(),
        st1.cov@[q].nbits == st0.nu(),
        st1.cov@[q]@ == st0.cov@[q]@.insert(u),
        st1.grand@ == st0.grand@.update(u, (st0.grand@[u] - old_score + new_score) as u64),
        st0.grand@[u] - old_score + new_score <= u64::MAX,
        st0.grand@[u] - old_score + new_score >= 0,
    ensures
        forall|qq: int|
            0 <= qq < st1.nq() ==> (#[trigger] st1.cov@[qq]).wf() && st1.cov@[qq].nbits
                == st1.nu(),
        forall|qq: int, uu: int|
            0 <= qq < st1.nq() && 0 <= uu < st1.nu() && !st1.covered(qq, uu) ==> st1.score_at(
                qq,
                uu,
            ) == 0,
        forall|uu: int|
            0 <= uu < st1.nu() ==> st1.grand@[uu] as int == isum(#[trigger] st1.col(uu)),
        isum(st1.grand_seq()) <= total_scores(rv.take(k + 1)),
        st1.stores(rv.take(k + 1)),
{
    let nu = st0.nu();
    let nq = st0.nq();
    let idx = q * nu + u;
    lemma_flat_bounds(q, u, nq, nu);
    // Score cells other than (q, u) are unchanged.
    assert forall|qq: int, uu: int|
        0 <= qq < nq && 0 <= uu < nu && !(qq == q && uu == u) implies st1.score_at(qq, uu)
        == st0.score_at(qq, uu) by {
        lemma_flat_bounds(qq, uu, nq, nu);
        if qq * nu + uu == idx {
            lemma_flat_inj(qq, uu, q, u, nu);
        }
    }
    assert(st1.score_at(q, u) == new_score as int);
    // Columns: only user u's column changes, and only at q.
    assert forall|uu: int| 0 <= uu < nu && uu != u implies st1.col(uu) =~= st0.col(uu) by {}
    assert(st1.col(u) =~= st0.col(u).update(q, new_score as int));
    // Grand totals.
    assert forall|uu: int| 0 <= uu < nu implies st1.grand@[uu] as int == isum(
        #[trigger] st1.col(uu),
    ) by {
        if uu == u {
            lemma_isum_update(st0.col(u), q, new_score as int);
            assert(st0.col(u)[q] == old_score as int);
        }
    }
    // The running bound.
    assert(st1.grand_seq() =~= st0.grand_seq().update(
        u,
        st0.grand@[u] - old_score + new_score,
    ));
    lemma_isum_update(st0.grand_seq(), u, st0.grand@[u] - old_score + new_score);
    lemma_total_take_succ(rv, k);
    // The stored relation.
    assert(rv.take(k + 1).drop_last() =~= rv.take(k));
    assert(rv.take(k + 1).last() == rv[k]);
    let rv1 = rv.take(k + 1);
    assert forall|qq: int, uu: int| 0 <= qq < nq && 0 <= uu < nu implies #[trigger] st1.cell_stores(
        rv1,
        qq,
        uu,
    ) by {
        assert(st0.cell_stores(rv.take(k), qq, uu));
        let un = st1.domain.user_names()[uu];
        let qn = st1.domain.question_names()[qq];
        if rv[k].user == un && rv[k].question == qn {
            // Distinct ordinals carry distinct names, so this is cell (q, u).
            assert(uu == u && qq == q);
            assert(row_score(rv.take(k + 1), un, qn) == Some(new_score as int));
            assert(st1.covered(q, u));
        } else {
            assert(row_score(rv.take(k + 1), un, qn) == row_score(rv.take(k), un, qn));
            if qq == q {
                assert(st1.covered(qq, uu) == st0.covered(qq, uu)) by {
                    assert(uu != u || !(rv[k].user == un));
                }
            }
        }
    }
}

} // verus!
