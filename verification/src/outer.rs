//! Evaluation-loop strategies over a pre-enumerated candidate list, and the
//! laws that make them interchangeable.
//!
//! The serial loop folds every candidate into one selection.  The chunked
//! loop selects locally per chunk and merges the local selections; its result
//! is provably the selection of the whole stream, which is what makes the
//! reduction safe to distribute over parallel workers: a worker per chunk and
//! a single-threaded merge compute this very function.
use vstd::prelude::*;
use vstd::multiset::Multiset;

use crate::combos::{cand_list, cand_views, combo_in};
use crate::engine::{lemma_sms_concat, lemma_sms_sound, sms, topn_of_list};
use crate::scorer::ord_ints;
use crate::store::AllocCorrSet;
use crate::topn::{
    all_wf, is_topn, lemma_topn_expand, lemma_topn_unique, ms_rankable, rankable, topn_insert,
    views, Scored, ScoredV,
};

verus! {

/// Any two selections of the same scored stream are the same: the answer
/// does not depend on the strategy that computed it.
pub proof fn lemma_strategy_equivalence(
    store: AllocCorrSet,
    k: nat,
    nt: int,
    r1: Seq<ScoredV>,
    r2: Seq<ScoredV>,
)
    requires
        nt >= 0,
        is_topn(r1, sms(store, cand_list(store.nq(), k)), nt),
        is_topn(r2, sms(store, cand_list(store.nq(), k)), nt),
    ensures
        r1 == r2,
{
    lemma_sms_sound(store, cand_list(store.nq(), k));
    lemma_topn_unique(r1, r2, sms(store, cand_list(store.nq(), k)), nt);
}

/// The serial evaluation loop: one pass, one scratch, the single best
/// result.  An empty result means no candidate had a finite correlation.
pub struct CorrSetSerial;

impl CorrSetSerial {
    /// The highest-ranked result over the given candidates, or `None` when
    /// every candidate is degenerate.
    pub fn k_set(store: &AllocCorrSet, cands: &Vec<Vec<usize>>) -> (r: Option<Scored>)
        requires
            store.wf(),
            forall|i: int|
                0 <= i < cands@.len() ==> combo_in(
                    0,
                    store.nq(),
                    (#[trigger] cands@[i])@.len() as nat,
                    ord_ints(cands@[i]@),
                ) && cands@[i]@.len() >= 1,
        ensures
            match r {
                Some(e) => e.corr.wf() && is_topn(
                    seq![e@],
                    sms(*store, cand_views(cands@)),
                    1,
                ),
                None => sms(*store, cand_views(cands@)).len() == 0,
            },
    {
        let mut sel = topn_of_list(store, cands, 1, false);
        let ghost v0 = views(sel@);
        if sel.len() == 0 {
            proof {
                assert(v0.len() == 0);
            }
            None
        } else {
            let e = sel.remove(0);
            proof {
                assert(v0.len() == 1);
                assert(v0[0] == e@);
                assert(seq![e@] =~= v0);
            }
            Some(e)
        }
    }
}

/// The chunked evaluation loop: a local selection per chunk of candidates,
/// merged into one.  Chunks are independent, so a parallel runner can score
/// them on separate workers and merge exactly as this loop does.
pub struct CorrSetChunked;

impl CorrSetChunked {
    /// The top-`nt` results over the given candidates, computed `chunk`
    /// candidates at a time and merged.
    pub fn k_sets(store: &AllocCorrSet, cands: &Vec<Vec<usize>>, nt: usize, chunk: usize) -> (r:
        Vec<Scored>)
        requires
            store.wf(),
            nt >= 1,
            chunk >= 1,
            forall|i: int|
                0 <= i < cands@.len() ==> combo_in(
                    0,
                    store.nq(),
                    (#[trigger] cands@[i])@.len() as nat,
                    ord_ints(cands@[i]@),
                ) && cands@[i]@.len() >= 1,
        ensures
            all_wf(r@),
            is_topn(views(r@), sms(*store, cand_views(cands@)), nt as int),
    {
        let ghost cl = cand_views(cands@);
        let n = cands.len();
        let mut acc: Vec<Scored> = Vec::new();
        let mut lo: usize = 0;
        proof {
            broadcast use vstd::multiset::group_multiset_axioms;
            broadcast use vstd::seq_lib::group_to_multiset_ensures;

            assert(cl.take(0) =~= Seq::<Seq<int>>::empty());
            assert(views(acc@) =~= Seq::<ScoredV>::empty());
            assert(sms(*store, cl.take(0)) =~= Multiset::<ScoredV>::empty());
            assert(is_topn(views(acc@), sms(*store, cl.take(0)), nt as int));
        }
        while lo < n
            invariant
                0 <= lo <= n,
                n == cands@.len(),
                store.wf(),
                nt >= 1,
                chunk >= 1,
                cl == cand_views(cands@),
                forall|i: int|
                    0 <= i < cands@.len() ==> combo_in(
                        0,
                        store.nq(),
                        (#[trigger] cands@[i])@.len() as nat,
                        ord_ints(cands@[i]@),
                    ) && cands@[i]@.len() >= 1,
                all_wf(acc@),
                is_topn(views(acc@), sms(*store, cl.take(lo as int)), nt as int),
            decreases n - lo,
        {
            let hi = if n - lo < chunk {
                n
            } else {
                lo + chunk
            };
            // Collect this chunk's candidates and select locally.
            let mut part: Vec<Vec<usize>> = Vec::new();
            let mut i = lo;
            while i < hi
                invariant
                    lo <= i <= hi <= n,
                    n == cands@.len(),
                    part@.len() == i - lo,
                    forall|j: int| 0 <= j < i - lo ==> (#[trigger] part@[j])@ == cands@[lo + j]@,
                decreases hi - i,
            {
                part.push(crate::engine::copy_cand(&cands[i]));
                i += 1;
            }
            proof {
                assert(cand_views(part@) =~= cl.subrange(lo as int, hi as int));
            }
            let mut local = topn_of_list(store, &part, nt, true);
            // Merge the local selection into the running one.
            let ghost base = sms(*store, cl.take(lo as int));
            let ghost lms = sms(*store, cl.subrange(lo as int, hi as int));
            let ghost lviews = views(local@);
            proof {
                lemma_sms_sound(*store, cl.take(lo as int));
                lemma_sms_sound(*store, cl.subrange(lo as int, hi as int));
            }
            let ghost m = local@.len();
            proof {
                broadcast use vstd::multiset::group_multiset_axioms;
                broadcast use vstd::seq_lib::group_to_multiset_ensures;

                assert(lviews.skip(m as int) =~= Seq::<ScoredV>::empty());
                assert(base.add(lviews.skip(m as int).to_multiset()) =~= base);
                assert(views(local@) =~= lviews.take(m as int));
                assert forall|i: int| 0 <= i < lviews.len() implies rankable(
                    #[trigger] lviews[i],
                ) by {
                    assert(lviews.contains(lviews[i]));
                    assert(lviews.to_multiset().count(lviews[i]) > 0);
                    assert(lms.count(lviews[i]) > 0);
                    assert(lms.contains(lviews[i]));
                }
            }
            while local.len() > 0
                invariant
                    nt >= 1,
                    store.wf(),
                    local@.len() <= lviews.len(),
                    views(local@) == lviews.take(local@.len() as int),
                    all_wf(local@),
                    ms_rankable(base),
                    ms_rankable(lms),
                    forall|x: ScoredV| #[trigger] lviews.to_multiset().count(x) <= lms.count(x),
                    forall|i: int| 0 <= i < lviews.len() ==> rankable(#[trigger] lviews[i]),
                    forall|i: int|
                        0 <= i < local@.len() ==> (#[trigger] local@[i])@ == lviews[i],
                    all_wf(acc@),
                    is_topn(
                        views(acc@),
                        base.add(lviews.skip(local@.len() as int).to_multiset()),
                        nt as int,
                    ),
                decreases local@.len(),
            {
                broadcast use vstd::multiset::group_multiset_axioms;
                broadcast use vstd::seq_lib::group_to_multiset_ensures;

                let ghost len0 = local@.len() as int;
                let e = match local.pop() {
                    Some(e) => e,
                    None => {
                        proof {
                            assert(false);
                        }
                        vstd::pervasive::unreached::<Scored>()
                    },
                };
                proof {
                    assert(e@ == lviews[len0 - 1]);
                    assert(rankable(e@));
                    assert(e.corr.wf());
                    let tail = lviews.skip(len0);
                    let tail1 = lviews.skip(len0 - 1);
                    assert(tail1.first() == lviews[len0 - 1]);
                    assert(tail1.drop_first() =~= tail);
                    assert(tail1.to_multiset() =~= tail.to_multiset().insert(e@)) by {
                        assert(tail1 =~= seq![e@] + tail);
                        vstd::seq_lib::lemma_multiset_commutative(seq![e@], tail);
                        assert(seq![e@] =~= Seq::<ScoredV>::empty().push(e@));
                        assert(Seq::<ScoredV>::empty().push(e@).to_multiset() =~= Seq::<
                            ScoredV,
                        >::empty().to_multiset().insert(e@));
                        assert(Seq::<ScoredV>::empty().to_multiset().len() == 0);
                        assert(Seq::<ScoredV>::empty().to_multiset() =~= Multiset::<
                            ScoredV,
                        >::empty()) by {
                            assert forall|x: ScoredV|
                                Seq::<ScoredV>::empty().to_multiset().count(x) == 0 by {
                                assert(Seq::<ScoredV>::empty().to_multiset().count(x) <= Seq::<
                                    ScoredV,
                                >::empty().to_multiset().len());
                            }
                        }
                    }
                    assert(ms_rankable(base.add(tail.to_multiset()))) by {
                        assert forall|x: ScoredV|
                            base.add(tail.to_multiset()).contains(x) implies rankable(x) by {
                            if base.count(x) > 0 {
                                assert(base.contains(x));
                            } else {
                                assert(tail.to_multiset().count(x) > 0);
                                assert(tail.contains(x));
                                let ii = choose|ii: int|
                                    0 <= ii < tail.len() && tail[ii] == x;
                                assert(lviews[len0 + ii] == x);
                            }
                        }
                    }
                    assert(views(local@) =~= lviews.take(len0 - 1));
                }
                topn_insert(
                    &mut acc,
                    e,
                    nt,
                    Ghost(base.add(lviews.skip(len0).to_multiset())),
                );
                proof {
                    assert(base.add(lviews.skip(len0).to_multiset()).insert(e@) =~= base.add(
                        lviews.skip(len0 - 1).to_multiset(),
                    ));
                }
            }
            proof {
                broadcast use vstd::multiset::group_multiset_axioms;
                broadcast use vstd::seq_lib::group_to_multiset_ensures;

                assert(lviews.skip(0) =~= lviews);
                lemma_topn_expand(views(acc@), base, lviews, lms, nt as int);
                assert(cl.take(hi as int) =~= cl.take(lo as int) + cl.subrange(
                    lo as int,
                    hi as int,
                ));
                lemma_sms_concat(*store, cl.take(lo as int), cl.subrange(lo as int, hi as int));
            }
            lo = hi;
        }
        proof {
            assert(cl.take(n as int) =~= cl);
        }
        acc
    }
}

} // verus!
