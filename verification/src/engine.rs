//! The evaluation drivers: enumerate candidates, score them, keep the top
//! `n`, and translate ordinals back to question identifiers.
//!
//! Each driver's contract is the same: its result is the top-`n` selection
//! (`is_topn`) of the scored stream of the canonical candidate list.  The
//! selection is unique, so every strategy returns the same answer.
use vstd::prelude::*;
use vstd::multiset::Multiset;

use crate::combos::{
    all_combinations, cand_list, cand_views, combo_in, in_list, lemma_all_combinations_canonical,
    lemma_combos_valid,
};
use crate::corr::corr_finite;
use crate::domain::Domain;
use crate::scorer::ord_ints;
use crate::store::AllocCorrSet;
use crate::topn::{
    all_wf, is_topn, ms_rankable, qs_consistent, rankable, topn_insert, views, Scored, ScoredV,
};
use crate::{CorrSetError, Question};

verus! {

/// The number of results the engine retains by default.
pub const TOP_N: usize = 10;

/// The scored stream of a candidate list: one result per candidate whose
/// correlation is finite; degenerate candidates are filtered out here.
pub open spec fn sms(store: AllocCorrSet, l: Seq<Seq<int>>) -> Multiset<ScoredV>
    decreases l.len(),
{
    if l.len() == 0 {
        Multiset::empty()
    } else {
        let rest = sms(store, l.drop_last());
        let c = l.last();
        if corr_finite(store.cand_corr(c)) {
            rest.insert(ScoredV { qs: c, corr: store.cand_corr(c) })
        } else {
            rest
        }
    }
}

/// Every result of a scored stream is finite and scored by its candidate.
pub proof fn lemma_sms_elements(store: AllocCorrSet, l: Seq<Seq<int>>)
    ensures
        forall|x: ScoredV|
            #![trigger sms(store, l).contains(x)]
            sms(store, l).contains(x) ==> rankable(x) && x.corr == store.cand_corr(x.qs),
    decreases l.len(),
{
    if l.len() > 0 {
        lemma_sms_elements(store, l.drop_last());
        let rest = sms(store, l.drop_last());
        let c = l.last();
        assert forall|x: ScoredV|
            sms(store, l).contains(x) implies rankable(x) && x.corr == store.cand_corr(x.qs) by {
            if corr_finite(store.cand_corr(c)) {
                if x != (ScoredV { qs: c, corr: store.cand_corr(c) }) {
                    assert(rest.contains(x));
                }
            }
        }
    }
}

/// A scored stream is finite-only and names each candidate once per listing,
/// always with the same correlation.
pub proof fn lemma_sms_sound(store: AllocCorrSet, l: Seq<Seq<int>>)
    ensures
        ms_rankable(sms(store, l)),
        qs_consistent(sms(store, l)),
{
    lemma_sms_elements(store, l);
    assert forall|x: ScoredV, y: ScoredV|
        sms(store, l).contains(x) && sms(store, l).contains(y) && x.qs == y.qs implies x == y by {
        assert(x.corr == store.cand_corr(x.qs));
        assert(y.corr == store.cand_corr(y.qs));
        assert(x == (ScoredV { qs: y.qs, corr: y.corr }));
    }
}

/// The scored stream of a concatenation is the sum of the streams.
pub proof fn lemma_sms_concat(store: AllocCorrSet, l1: Seq<Seq<int>>, l2: Seq<Seq<int>>)
    ensures
        sms(store, l1 + l2) =~= sms(store, l1).add(sms(store, l2)),
    decreases l2.len(),
{
    broadcast use vstd::multiset::group_multiset_axioms;

    if l2.len() == 0 {
        assert(l1 + l2 =~= l1);
        assert(sms(store, l2) =~= Multiset::empty());
    } else {
        lemma_sms_concat(store, l1, l2.drop_last());
        assert((l1 + l2).drop_last() =~= l1 + l2.drop_last());
        assert((l1 + l2).last() == l2.last());
    }
}

/// One more candidate extends the stream by its result, when finite.
pub proof fn lemma_sms_take_succ(store: AllocCorrSet, l: Seq<Seq<int>>, i: int)
    requires
        0 <= i < l.len(),
    ensures
        sms(store, l.take(i + 1)) == if corr_finite(store.cand_corr(l[i])) {
            sms(store, l.take(i)).insert(ScoredV { qs: l[i], corr: store.cand_corr(l[i]) })
        } else {
            sms(store, l.take(i))
        },
{
    assert(l.take(i + 1).drop_last() =~= l.take(i));
    assert(l.take(i + 1).last() == l[i]);
}

/// When every user has the same grand total, every candidate's correlation
/// is degenerate, so the scored stream is empty.
pub proof fn lemma_degenerate_filtering(store: AllocCorrSet, l: Seq<Seq<int>>, c: int)
    requires
        forall|u: int| 0 <= u < store.nu() ==> store.grand_seq()[u] == c,
    ensures
        sms(store, l) =~= Multiset::<ScoredV>::empty(),
    decreases l.len(),
{
    broadcast use vstd::multiset::group_multiset_axioms;

    if l.len() > 0 {
        lemma_degenerate_filtering(store, l.drop_last(), c);
        let qs = l.last();
        let xs = store.cand_xs(qs);
        let ys = store.cand_ys(qs);
        store.lemma_members_upto_range(qs, store.nu());
        assert forall|i: int| 0 <= i < ys.len() implies ys[i] == c by {
            let u = store.members_of(qs)[i];
            assert(0 <= store.members_upto(qs, store.nu())[i] < store.nu());
            assert(ys[i] == store.grand_seq()[u]);
        }
        crate::corr::lemma_constant_totals_degenerate(xs, ys, c);
        assert(!corr_finite(store.cand_corr(qs)));
    }
}

/// With every grand total equal, every selection over any candidate list is
/// empty: no candidate has a meaningful correlation.
pub proof fn lemma_degenerate_empty_selection(
    store: AllocCorrSet,
    l: Seq<Seq<int>>,
    c: int,
    r: Seq<ScoredV>,
    nt: int,
)
    requires
        nt >= 0,
        forall|u: int| 0 <= u < store.nu() ==> store.grand_seq()[u] == c,
        is_topn(r, sms(store, l), nt),
    ensures
        r.len() == 0,
{
    broadcast use vstd::multiset::group_multiset_axioms;

    lemma_degenerate_filtering(store, l, c);
    assert(sms(store, l).len() == 0);
}

/// An exact copy of a candidate vector.
pub fn copy_cand(v: &Vec<usize>) -> (r: Vec<usize>)
    ensures
        r@ == v@,
{
    let mut r: Vec<usize> = Vec::new();
    let n = v.len();
    let mut i: usize = 0;
    while i < n
        invariant
            0 <= i <= n,
            n == v@.len(),
            r@ =~= v@.take(i as int),
        decreases n - i,
    {
        proof {
            assert(v@.take(i as int).push(v@[i as int]) =~= v@.take(i as int + 1));
        }
        r.push(v[i]);
        i += 1;
    }
    proof {
        assert(r@ =~= v@);
    }
    r
}

/// Score every candidate of the list and keep the top `nt`, scanning users
/// (`use_bitset == false`) or intersecting coverage bitsets (`true`); the two
/// paths share one contract.
pub fn topn_of_list(store: &AllocCorrSet, cands: &Vec<Vec<usize>>, nt: usize, use_bitset: bool) -> (r:
    Vec<Scored>)
    requires
        store.wf(),
        nt >= 1,
        forall|i: int|
            0 <= i < cands@.len() ==> combo_in(0, store.nq(), (#[trigger] cands@[i])@.len() as nat,
                ord_ints(cands@[i]@)) && cands@[i]@.len() >= 1,
    ensures
        all_wf(r@),
        is_topn(views(r@), sms(*store, cand_views(cands@)), nt as int),
{
    let ghost cl = cand_views(cands@);
    let mut best: Vec<Scored> = Vec::new();
    let ghost sm = Multiset::<ScoredV>::empty();
    let n = cands.len();
    let mut i: usize = 0;
    proof {
        assert(cl.take(0) =~= Seq::<Seq<int>>::empty());
        assert(views(best@) =~= Seq::<ScoredV>::empty());
        broadcast use vstd::seq_lib::group_to_multiset_ensures;

        lemma_sms_sound(*store, cl.take(0));
        assert(is_topn(views(best@), sms(*store, cl.take(0)), nt as int));
    }
    while i < n
        invariant
            0 <= i <= n,
            n == cands@.len(),
            store.wf(),
            nt >= 1,
            cl == cand_views(cands@),
            forall|j: int|
                0 <= j < cands@.len() ==> combo_in(
                    0,
                    store.nq(),
                    (#[trigger] cands@[j])@.len() as nat,
                    ord_ints(cands@[j]@),
                ) && cands@[j]@.len() >= 1,
            all_wf(best@),
            is_topn(views(best@), sms(*store, cl.take(i as int)), nt as int),
        decreases n - i,
    {
        proof {
            assert(cl[i as int] == ord_ints(cands@[i as int]@));
        }
        let c = if use_bitset {
            store.corr_set(&cands[i])
        } else {
            store.corr_set_scan(&cands[i])
        };
        let finite = crate::corr::corr_is_finite(&c);
        proof {
            lemma_sms_take_succ(*store, cl, i as int);
            lemma_sms_sound(*store, cl.take(i as int));
        }
        if finite {
            let qs = copy_cand(&cands[i]);
            let e = Scored { qs, corr: c };
            proof {
                assert(e@ == ScoredV { qs: cl[i as int], corr: store.cand_corr(cl[i as int]) });
            }
            topn_insert(&mut best, e, nt, Ghost(sms(*store, cl.take(i as int))));
        }
        i += 1;
    }
    proof {
        assert(cl.take(n as int) =~= cl);
    }
    best
}

/// Translate a selection's ordinals back to the original question
/// identifiers, best first.
pub fn to_questions(domain: &Domain, sel: &Vec<Scored>) -> (r: Vec<Vec<Question>>)
    requires
        forall|i: int, j: int|
            #![trigger sel@[i].qs@[j]]
            0 <= i < sel@.len() && 0 <= j < sel@[i].qs@.len() ==> sel@[i].qs@[j]
                < domain.questions@.len(),
    ensures
        r@.len() == sel@.len(),
        forall|i: int, j: int|
            0 <= i < r@.len() && 0 <= j < (#[trigger] r@[i])@.len() ==> (#[trigger] r@[i]@[j]).0@
                == domain.question_names()[sel@[i].qs@[j] as int],
        forall|i: int| 0 <= i < r@.len() ==> (#[trigger] r@[i])@.len() == sel@[i].qs@.len(),
{
    let mut r: Vec<Vec<Question>> = Vec::new();
    let n = sel.len();
    let mut i: usize = 0;
    while i < n
        invariant
            0 <= i <= n,
            n == sel@.len(),
            r@.len() == i,
            forall|a: int, j: int|
                #![trigger sel@[a].qs@[j]]
                0 <= a < sel@.len() && 0 <= j < sel@[a].qs@.len() ==> sel@[a].qs@[j]
                    < domain.questions@.len(),
            forall|a: int| 0 <= a < i ==> (#[trigger] r@[a])@.len() == sel@[a].qs@.len(),
            forall|a: int, j: int|
                0 <= a < i && 0 <= j < (#[trigger] r@[a])@.len() ==> (#[trigger] r@[a]@[j]).0@
                    == domain.question_names()[sel@[a].qs@[j] as int],
        decreases n - i,
    {
        let qs = &sel[i].qs;
        let m = qs.len();
        let mut names: Vec<Question> = Vec::new();
        let mut j: usize = 0;
        while j < m
            invariant
                0 <= j <= m,
                0 <= i < sel@.len(),
                m == sel@[i as int].qs@.len(),
                qs@ == sel@[i as int].qs@,
                forall|a: int, b: int|
                    #![trigger sel@[a].qs@[b]]
                    0 <= a < sel@.len() && 0 <= b < sel@[a].qs@.len() ==> sel@[a].qs@[b]
                        < domain.questions@.len(),
                names@.len() == j,
                forall|b: int|
                    0 <= b < j ==> (#[trigger] names@[b]).0@ == domain.question_names()[qs@[b] as int],
            decreases m - j,
        {
            let q = domain.value_of_question(qs[j]);
            names.push(Question((q.0).clone()));
            j += 1;
        }
        r.push(names);
        i += 1;
    }
    r
}

/// The baseline engine: enumerate with the outside combinatorics routine and
/// score each candidate by scanning every user's coverage.
pub struct NaiveCorrSet;

/// The bitset engine: the same enumeration, with per-candidate coverage
/// intersection of the question bitsets.
pub struct BitsetCorrSet;

/// The dense-table engine: scans users against the dense score table; it
/// shares the scan path of the baseline engine.
pub struct IvecCorrSet;

impl NaiveCorrSet {
    /// The top-`nt` candidate subsets of size `k`, best first, scored by the
    /// user-scanning baseline.  `k == 0` is rejected; a `k` larger than the
    /// question count yields an empty result.
    pub fn k_sets(store: &AllocCorrSet, k: usize, nt: usize) -> (r: Result<
        Vec<Scored>,
        CorrSetError,
    >)
        requires
            store.wf(),
            nt >= 1,
        ensures
            match r {
                Ok(out) => k >= 1 && all_wf(out@) && is_topn(
                    views(out@),
                    sms(*store, cand_list(store.nq(), k as nat)),
                    nt as int,
                ),
                Err(e) => k == 0 && e == CorrSetError::InvalidSubsetSize,
            },
    {
        k_sets_listed(store, k, nt, false)
    }
}

impl BitsetCorrSet {
    /// The top-`nt` candidate subsets of size `k`, best first, scored
    /// through bitset intersection.  Same contract as the baseline: the two
    /// strategies are interchangeable.
    pub fn k_sets(store: &AllocCorrSet, k: usize, nt: usize) -> (r: Result<
        Vec<Scored>,
        CorrSetError,
    >)
        requires
            store.wf(),
            nt >= 1,
        ensures
            match r {
                Ok(out) => k >= 1 && all_wf(out@) && is_topn(
                    views(out@),
                    sms(*store, cand_list(store.nq(), k as nat)),
                    nt as int,
                ),
                Err(e) => k == 0 && e == CorrSetError::InvalidSubsetSize,
            },
    {
        k_sets_listed(store, k, nt, true)
    }
}

impl IvecCorrSet {
    /// The top-`nt` candidate subsets of size `k`, best first, over the
    /// dense score table.  Same contract as the other strategies.
    pub fn k_sets(store: &AllocCorrSet, k: usize, nt: usize) -> (r: Result<
        Vec<Scored>,
        CorrSetError,
    >)
        requires
            store.wf(),
            nt >= 1,
        ensures
            match r {
                Ok(out) => k >= 1 && all_wf(out@) && is_topn(
                    views(out@),
                    sms(*store, cand_list(store.nq(), k as nat)),
                    nt as int,
                ),
                Err(e) => k == 0 && e == CorrSetError::InvalidSubsetSize,
            },
    {
        k_sets_listed(store, k, nt, false)
    }
}

/// Enumerate through the outside routine, then fold the scored stream.
fn k_sets_listed(store: &AllocCorrSet, k: usize, nt: usize, use_bitset: bool) -> (r: Result<
    Vec<Scored>,
    CorrSetError,
>)
    requires
        store.wf(),
        nt >= 1,
    ensures
        match r {
            Ok(out) => k >= 1 && all_wf(out@) && is_topn(
                views(out@),
                sms(*store, cand_list(store.nq(), k as nat)),
                nt as int,
            ),
            Err(e) => k == 0 && e == CorrSetError::InvalidSubsetSize,
        },
{
    if k == 0 {
        return Err(CorrSetError::InvalidSubsetSize);
    }
    let nq = store.domain.questions.len();
    let cands = all_combinations(nq, k);
    proof {
        lemma_all_combinations_canonical(nq as int, k as nat, cands@);
        assert forall|i: int|
            0 <= i < cands@.len() implies combo_in(
            0,
            store.nq(),
            (#[trigger] cands@[i])@.len() as nat,
            ord_ints(cands@[i]@),
        ) && cands@[i]@.len() >= 1 by {
            assert(combo_in(0, nq as int, k as nat, ord_ints(cands@[i]@)));
            assert(ord_ints(cands@[i]@).len() == cands@[i]@.len());
        }
    }
    let out = topn_of_list(store, &cands, nt, use_bitset);
    Ok(out)
}

} // verus!
