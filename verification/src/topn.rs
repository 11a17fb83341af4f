//! Top-N selection and the parallel reduction discipline.
//!
//! Evaluation produces a stream of `(candidate, correlation)` results whose
//! non-finite correlations were already filtered out.  The selector keeps the
//! `n` highest-ranked results; independent local selections merge by folding
//! one into the other, and the merged selection is provably the selection
//! over the combined stream, whatever the sharding was.
//!
//! Ranking is by correlation, highest first.  Equal correlations are broken
//! by candidate, in lexicographic order: the selection is therefore a
//! deterministic function of the scored stream.
use vstd::prelude::*;
use vstd::multiset::Multiset;

use crate::corr::{
    corr_cmp, corr_finite, corr_key, lemma_corr_le_lt_trans, lemma_corr_le_trans,
    lemma_corr_lt_le_trans, Corr, CorrV,
};
use crate::scorer::ord_ints;

verus! {

/// Strict lexicographic order on integer sequences.
pub open spec fn lex_lt(a: Seq<int>, b: Seq<int>) -> bool
    decreases a.len(),
{
    if a.len() == 0 {
        b.len() > 0
    } else if b.len() == 0 {
        false
    } else if a.first() < b.first() {
        true
    } else if a.first() > b.first() {
        false
    } else {
        lex_lt(a.drop_first(), b.drop_first())
    }
}

/// Exactly one of `a == b`, `a < b`, `b < a` holds.
pub proof fn lemma_lex_trichotomy(a: Seq<int>, b: Seq<int>)
    ensures
        a == b || lex_lt(a, b) || lex_lt(b, a),
        lex_lt(a, b) ==> !lex_lt(b, a) && a != b,
    decreases a.len(),
{
    if a.len() == 0 || b.len() == 0 {
        if a.len() == 0 && b.len() == 0 {
            assert(a =~= b);
        }
    } else if a.first() == b.first() {
        lemma_lex_trichotomy(a.drop_first(), b.drop_first());
        if a.drop_first() == b.drop_first() {
            assert(a.len() == b.len());
            assert forall|i: int| 0 <= i < a.len() implies a[i] == b[i] by {
                if i > 0 {
                    assert(a[i] == a.drop_first()[i - 1]);
                    assert(b[i] == b.drop_first()[i - 1]);
                }
            }
            assert(a =~= b);
        }
    }
}

/// Lexicographic order is transitive.
pub proof fn lemma_lex_trans(a: Seq<int>, b: Seq<int>, c: Seq<int>)
    requires
        lex_lt(a, b),
        lex_lt(b, c),
    ensures
        lex_lt(a, c),
    decreases a.len(),
{
    if a.len() > 0 && b.len() > 0 && c.len() > 0 {
        if a.first() == b.first() && b.first() == c.first() {
            lemma_lex_trans(a.drop_first(), b.drop_first(), c.drop_first());
        }
    }
}

/// One scored result: a candidate and its exact correlation.
#[derive(Debug)]
pub struct Scored {
    pub qs: Vec<usize>,
    pub corr: Corr,
}

/// The mathematical content of a scored result.
pub struct ScoredV {
    pub qs: Seq<int>,
    pub corr: CorrV,
}

impl View for Scored {
    type V = ScoredV;

    open spec fn view(&self) -> ScoredV {
        ScoredV { qs: ord_ints(self.qs@), corr: self.corr@ }
    }
}

/// A scored result the selector can rank: finite, in canonical form.
pub open spec fn rankable(e: ScoredV) -> bool {
    corr_finite(e.corr)
}

/// `a` ranks at least as high as `b`: strictly higher correlation, or equal
/// correlation and a candidate that is lexicographically no later.
pub open spec fn ahead(a: ScoredV, b: ScoredV) -> bool {
    ||| corr_key(b.corr, a.corr) < corr_key(a.corr, b.corr)
    ||| (corr_key(a.corr, b.corr) == corr_key(b.corr, a.corr) && (a.qs == b.qs || lex_lt(
        a.qs,
        b.qs,
    )))
}

/// The ranking is total on finite results.
pub proof fn lemma_ahead_total(a: ScoredV, b: ScoredV)
    requires
        rankable(a),
        rankable(b),
    ensures
        ahead(a, b) || ahead(b, a),
        ahead(a, a),
{
    lemma_lex_trichotomy(a.qs, b.qs);
}

/// Mutual ranking forces equal keys and equal candidates.
pub proof fn lemma_ahead_antisym(a: ScoredV, b: ScoredV)
    requires
        ahead(a, b),
        ahead(b, a),
    ensures
        a.qs == b.qs,
        corr_key(a.corr, b.corr) == corr_key(b.corr, a.corr),
{
    lemma_lex_trichotomy(a.qs, b.qs);
}

/// The ranking is transitive on finite results.
pub proof fn lemma_ahead_trans(a: ScoredV, b: ScoredV, c: ScoredV)
    requires
        rankable(a),
        rankable(b),
        rankable(c),
        ahead(a, b),
        ahead(b, c),
    ensures
        ahead(a, c),
{
    if corr_key(b.corr, a.corr) < corr_key(a.corr, b.corr) {
        // a strictly above b, and c no higher than b.
        lemma_corr_le_lt_trans(c.corr, b.corr, a.corr);
    } else if corr_key(c.corr, b.corr) < corr_key(b.corr, c.corr) {
        // a level with b, and b strictly above c.
        lemma_corr_lt_le_trans(c.corr, b.corr, a.corr);
    } else {
        // All three level: the candidates decide.
        lemma_corr_le_trans(c.corr, b.corr, a.corr);
        lemma_corr_le_trans(a.corr, b.corr, c.corr);
        if a.qs != b.qs && b.qs != c.qs {
            lemma_lex_trans(a.qs, b.qs, c.qs);
        }
    }
}

/// Ranked no later than every later element: a sorted selection.
pub open spec fn sorted_ranking(s: Seq<ScoredV>) -> bool {
    forall|i: int, j: int| 0 <= i < j < s.len() ==> ahead(s[i], s[j])
}

/// Every element is finite.
pub open spec fn all_rankable(s: Seq<ScoredV>) -> bool {
    forall|i: int| 0 <= i < s.len() ==> rankable(#[trigger] s[i])
}

/// Every result of the multiset is finite.
pub open spec fn ms_rankable(sm: Multiset<ScoredV>) -> bool {
    forall|x: ScoredV| sm.contains(x) ==> rankable(x)
}

/// `r` is the top-`n` selection of the scored stream `sm`: it is sorted by
/// rank, drawn from `sm`, holds `min(n, |sm|)` results, and every result of
/// the stream that it dropped ranks no higher than any result it kept.
pub open spec fn is_topn(r: Seq<ScoredV>, sm: Multiset<ScoredV>, n: int) -> bool {
    &&& sorted_ranking(r)
    &&& forall|x: ScoredV| #[trigger] r.to_multiset().count(x) <= sm.count(x)
    &&& r.len() == vstd::math::min(n, sm.len() as int)
    &&& forall|x: ScoredV, i: int|
        #![trigger sm.count(x), r[i]]
        sm.count(x) > r.to_multiset().count(x) && 0 <= i < r.len() ==> ahead(r[i], x)
}

/// The views of a vector of scored results.
pub open spec fn views(s: Seq<Scored>) -> Seq<ScoredV> {
    s.map_values(|x: Scored| x@)
}

/// Every held correlation is in canonical form.
pub open spec fn all_wf(s: Seq<Scored>) -> bool {
    forall|i: int| 0 <= i < s.len() ==> (#[trigger] s[i]).corr.wf()
}

/// Inserting into a sequence inserts into its multiset.
proof fn lemma_insert_to_multiset(s: Seq<ScoredV>, p: int, x: ScoredV)
    requires
        0 <= p <= s.len(),
    ensures
        s.insert(p, x).to_multiset() =~= s.to_multiset().insert(x),
{
    broadcast use vstd::seq_lib::group_to_multiset_ensures;

    let lo = s.subrange(0, p);
    let hi = s.subrange(p, s.len() as int);
    assert(s.insert(p, x) == lo.push(x) + hi);
    vstd::seq_lib::lemma_multiset_commutative(lo.push(x), hi);
    vstd::seq_lib::lemma_multiset_commutative(lo, hi);
    assert(lo + hi =~= s);
    assert(lo.push(x).to_multiset() =~= lo.to_multiset().insert(x));
}

/// Pointwise-bounded multisets of equal size are equal.
proof fn lemma_ms_le_same_len(a: Multiset<ScoredV>, b: Multiset<ScoredV>)
    requires
        forall|x: ScoredV| #[trigger] a.count(x) <= b.count(x),
        a.len() == b.len(),
    ensures
        forall|x: ScoredV| #[trigger] a.count(x) == b.count(x),
{
    broadcast use vstd::multiset::group_multiset_axioms;

    assert(a.subset_of(b));
    let d = b.sub(a);
    assert(d.len() == b.len() - a.len());
    assert(d.len() == 0);
    assert forall|x: ScoredV| #[trigger] a.count(x) == b.count(x) by {
        assert(d.count(x) <= d.len());
    }
}

/// Dropping the last element removes it from the multiset.
proof fn lemma_drop_last_to_multiset(s: Seq<ScoredV>)
    requires
        s.len() > 0,
    ensures
        s.drop_last().to_multiset() =~= s.to_multiset().remove(s.last()),
{
    broadcast use vstd::seq_lib::group_to_multiset_ensures;

    assert(s.drop_last() =~= s.remove(s.len() - 1));
}

/// Fold one scored result into a running selection of the best `n`.
///
/// `sm` is the stream folded so far; the call extends it by `e`.
pub fn topn_insert(
    best: &mut Vec<Scored>,
    e: Scored,
    n: usize,
    Ghost(sm): Ghost<Multiset<ScoredV>>,
)
    requires
        n >= 1,
        ms_rankable(sm),
        rankable(e@),
        e.corr.wf(),
        all_wf(old(best)@),
        is_topn(views(old(best)@), sm, n as int),
    ensures
        all_wf(final(best)@),
        is_topn(views(final(best)@), sm.insert(e@), n as int),
{
    proof {
        broadcast use vstd::seq_lib::group_to_multiset_ensures;

    }
    let ghost v = views(best@);
    let ghost vm = v.to_multiset();
    let ghost sm1 = sm.insert(e@);
    proof {
        // Every held result is finite: it is drawn from the stream.
        assert forall|i: int| 0 <= i < v.len() implies rankable(#[trigger] v[i]) by {
            assert(v.to_multiset().count(v[i]) > 0);
            assert(sm.count(v[i]) > 0);
            assert(sm.contains(v[i]));
        }
    }
    let len = best.len();
    let mut p: usize = 0;
    let mut scanning = true;
    while scanning && p < len
        invariant
            0 <= p <= len,
            len == best@.len(),
            n >= 1,
            v == views(best@),
            all_wf(best@),
            all_rankable(v),
            rankable(e@),
            e.corr.wf(),
            forall|j: int| 0 <= j < p ==> ahead(#[trigger] v[j], e@),
            !scanning ==> p < len && !ahead(v[p as int], e@),
        decreases len - p, if scanning { 1int } else { 0int },
    {
        proof {
            assert(best@[p as int].corr.wf());
            assert(v[p as int] == best@[p as int]@);
        }
        if scored_ahead(&best[p], &e) {
            p += 1;
        } else {
            scanning = false;
        }
    }
    // `p` is the rank of `e`: everything before it ranks at least as high,
    // and `e` ranks at least as high as everything from `p` on.
    proof {
        assert(p == len || !ahead(v[p as int], e@));
        assert forall|j: int| p <= j < len implies ahead(e@, #[trigger] v[j]) by {
            lemma_ahead_total(v[p as int], e@);
            assert(ahead(e@, v[p as int]));
            if j > p {
                lemma_ahead_trans(e@, v[p as int], v[j]);
            }
        }
    }
    if p < n {
        let ghost vold = v;
        best.insert(p, e);
        proof {
            assert(best@ == old(best)@.insert(p as int, e));
            old(best)@.insert_ensures(p as int, e);
            vold.insert_ensures(p as int, e@);
            assert forall|i: int| 0 <= i < views(best@).len() implies views(best@)[i]
                == vold.insert(p as int, e@)[i] by {
                if i < p {
                    assert(best@[i] == old(best)@[i]);
                } else if i == p {
                    assert(best@[i] == e);
                } else {
                    assert(best@[i] == old(best)@[i - 1]);
                    assert(vold.insert(p as int, e@)[i] == vold[i - 1]);
                }
            }
            assert(views(best@) =~= vold.insert(p as int, e@));
            lemma_insert_to_multiset(vold, p as int, e@);
        }
        let ghost w = views(best@);
        proof {
            // The inserted sequence is still sorted by rank.
            assert forall|i: int, j: int| 0 <= i < j < w.len() implies ahead(w[i], w[j]) by {
                if i < p && j < p {
                    assert(w[i] == vold[i] && w[j] == vold[j]);
                } else if i < p && j == p {
                    assert(w[i] == vold[i] && w[j] == e@);
                } else if i < p && j > p {
                    assert(w[i] == vold[i] && w[j] == vold[j - 1]);
                } else if i == p {
                    assert(w[i] == e@ && w[j] == vold[j - 1]);
                } else {
                    assert(w[i] == vold[i - 1] && w[j] == vold[j - 1]);
                }
            }
            assert(all_wf(best@));
            assert forall|i: int| 0 <= i < w.len() implies rankable(#[trigger] w[i]) by {
                if i < p {
                    assert(w[i] == vold[i]);
                } else if i == p {
                } else {
                    assert(w[i] == vold[i - 1]);
                }
            }
        }
        if best.len() > n {
            // The selection was full: the lowest-ranked result leaves.
            let ghost l = w.last();
            let _dropped = best.pop();
            proof {
                assert(best@ =~= old(best)@.insert(p as int, e).drop_last());
                assert forall|i: int| 0 <= i < views(best@).len() implies views(best@)[i]
                    == w.drop_last()[i] by {
                    assert(views(best@)[i] == best@[i]@);
                }
                assert(views(best@) =~= w.drop_last());
                lemma_drop_last_to_multiset(w);
                let f = w.drop_last();
                let fm = f.to_multiset();
                assert(w.to_multiset() =~= vm.insert(e@));
                assert(fm =~= vm.insert(e@).remove(l));
                // Lengths: the stream already held at least n results.
                assert(vold.len() == n);
                assert(sm.len() >= n);
                assert(f.len() == n);
                // Every count stays within the stream.
                assert forall|x: ScoredV| #[trigger] fm.count(x) <= sm1.count(x) by {
                    assert(vm.count(x) <= sm.count(x));
                }
                // Dropped results rank no higher than kept ones.
                assert forall|x: ScoredV, i: int|
                    #![trigger sm1.count(x), f[i]]
                    sm1.count(x) > fm.count(x) && 0 <= i < f.len() implies ahead(f[i], x) by {
                    assert(f[i] == w[i]);
                    if x == l {
                        assert(ahead(w[i], w[w.len() - 1]));
                    } else if x == e@ {
                        // Not the popped result, so its count rose with the
                        // stream's: it must already have been a leftover.
                        assert(fm.count(e@) == vm.count(e@) + 1);
                        assert(sm.count(e@) > vm.count(e@));
                        assert(sm.count(e@) > vold.to_multiset().count(e@));
                        if i < p {
                            assert(w[i] == vold[i]);
                            assert(ahead(vold[i], e@));
                        } else if i == p {
                            lemma_ahead_total(e@, e@);
                        } else {
                            assert(w[i] == vold[i - 1]);
                            assert(ahead(vold[i - 1], e@));
                        }
                    } else {
                        assert(fm.count(x) == vm.count(x));
                        assert(sm1.count(x) == sm.count(x));
                        assert(sm.count(x) > vm.count(x));
                        if i < p {
                            assert(w[i] == vold[i]);
                            assert(ahead(vold[i], x));
                        } else if i == p {
                            // The new result ranks above a kept old one,
                            // which ranks above the leftover.
                            assert(p < vold.len());
                            assert(ahead(e@, vold[p as int]));
                            assert(ahead(vold[p as int], x));
                            lemma_ahead_trans(e@, vold[p as int], x);
                        } else {
                            assert(w[i] == vold[i - 1]);
                            assert(ahead(vold[i - 1], x));
                        }
                    }
                }
            }
        } else {
            proof {
                // Room to spare: nothing was dropped, and nothing had ever
                // been dropped, because the selection held the whole stream.
                assert(vold.len() < n);
                assert(vold.len() == sm.len());
                assert(w.to_multiset() =~= vm.insert(e@));
                assert(w.len() == vold.len() + 1);
                assert forall|x: ScoredV| #[trigger] w.to_multiset().count(x) <= sm1.count(
                    x,
                ) by {
                    assert(vm.count(x) <= sm.count(x));
                }
                assert(vm.len() == sm.len());
                lemma_ms_le_same_len(vm, sm);
                assert forall|x: ScoredV, i: int|
                    #![trigger sm1.count(x), w[i]]
                    sm1.count(x) > w.to_multiset().count(x) && 0 <= i < w.len() implies ahead(
                    w[i],
                    x,
                ) by {
                    assert(vm.count(x) == sm.count(x));
                    assert(false);
                }
            }
        }
    } else {
        proof {
            // The selection is full and `e` ranks below all of it.
            assert(p == len);
            assert(len == n);
            assert(sm.len() >= n);
            assert forall|x: ScoredV, i: int|
                #![trigger sm1.count(x), v[i]]
                sm1.count(x) > vm.count(x) && 0 <= i < v.len() implies ahead(v[i], x) by {
                if x == e@ {
                    assert(ahead(v[i], e@));
                } else {
                    assert(sm.count(x) > vm.count(x));
                }
            }
        }
    }
}

/// No two results of the stream disagree: a candidate appears with one
/// correlation only.  The engine guarantees this because the correlation is
/// a function of the candidate.
pub open spec fn qs_consistent(sm: Multiset<ScoredV>) -> bool {
    forall|x: ScoredV, y: ScoredV|
        sm.contains(x) && sm.contains(y) && x.qs == y.qs ==> x == y
}

/// A multiset count above zero yields a position in the sequence.
proof fn lemma_count_to_index(s: Seq<ScoredV>, x: ScoredV) -> (i: int)
    requires
        s.to_multiset().count(x) > 0,
    ensures
        0 <= i < s.len(),
        s[i] == x,
{
    broadcast use vstd::seq_lib::group_to_multiset_ensures;

    assert(s.contains(x));
    choose|i: int| 0 <= i < s.len() && s[i] == x
}

/// The selection of a stream is unique: any two selections are the same
/// sequence.  This is what makes the engine's answer deterministic.
pub proof fn lemma_topn_unique(
    r1: Seq<ScoredV>,
    r2: Seq<ScoredV>,
    sm: Multiset<ScoredV>,
    n: int,
)
    requires
        n >= 0,
        ms_rankable(sm),
        qs_consistent(sm),
        is_topn(r1, sm, n),
        is_topn(r2, sm, n),
    ensures
        r1 == r2,
    decreases r1.len(),
{
    broadcast use vstd::seq_lib::group_to_multiset_ensures;

    if r1.len() == 0 {
        assert(r2.len() == vstd::math::min(n, sm.len() as int));
        assert(r1 =~= r2);
    } else {
        let h1 = r1[0];
        let h2 = r2[0];
        assert(r1.to_multiset().count(h1) > 0);
        assert(r2.to_multiset().count(h2) > 0);
        assert(sm.count(h1) > 0 && sm.count(h2) > 0);
        assert(rankable(h1) && rankable(h2));
        // Each head ranks at least as high as the other.
        assert(ahead(h1, h2)) by {
            if r1.to_multiset().count(h2) > 0 {
                let j = lemma_count_to_index(r1, h2);
                if j == 0 {
                    lemma_ahead_total(h1, h1);
                } else {
                    assert(ahead(r1[0], r1[j]));
                }
            } else {
                assert(sm.count(h2) > r1.to_multiset().count(h2));
                assert(ahead(r1[0], h2));
            }
        }
        assert(ahead(h2, h1)) by {
            if r2.to_multiset().count(h1) > 0 {
                let j = lemma_count_to_index(r2, h1);
                if j == 0 {
                    lemma_ahead_total(h2, h2);
                } else {
                    assert(ahead(r2[0], r2[j]));
                }
            } else {
                assert(sm.count(h1) > r2.to_multiset().count(h1));
                assert(ahead(r2[0], h1));
            }
        }
        lemma_ahead_antisym(h1, h2);
        assert(sm.contains(h1) && sm.contains(h2));
        assert(h1 == h2);
        // Strip the shared head and recurse.
        let t1 = r1.drop_first();
        let t2 = r2.drop_first();
        let sm2 = sm.remove(h1);
        assert(t1 =~= r1.remove(0));
        assert(t2 =~= r2.remove(0));
        assert(t1.to_multiset() =~= r1.to_multiset().remove(h1)) by {
            assert(r1.remove(0).to_multiset() =~= r1.to_multiset().remove(r1[0]));
        }
        assert(t2.to_multiset() =~= r2.to_multiset().remove(h2)) by {
            assert(r2.remove(0).to_multiset() =~= r2.to_multiset().remove(r2[0]));
        }
        lemma_strip_head(r1, sm, n);
        lemma_strip_head(r2, sm, n);
        lemma_topn_unique(t1, t2, sm2, n - 1);
        assert forall|i: int| 0 <= i < r1.len() implies r1[i] == r2[i] by {
            if i > 0 {
                assert(r1[i] == t1[i - 1]);
                assert(r2[i] == t2[i - 1]);
            }
        }
        assert(r1 =~= r2);
    }
}

/// Removing the head of a selection leaves a selection of the remaining
/// stream, one slot smaller.
proof fn lemma_strip_head(r: Seq<ScoredV>, sm: Multiset<ScoredV>, n: int)
    requires
        n >= 0,
        ms_rankable(sm),
        qs_consistent(sm),
        is_topn(r, sm, n),
        r.len() > 0,
    ensures
        ms_rankable(sm.remove(r[0])),
        qs_consistent(sm.remove(r[0])),
        is_topn(r.drop_first(), sm.remove(r[0]), n - 1),
{
    broadcast use vstd::seq_lib::group_to_multiset_ensures;

    let h = r[0];
    let t = r.drop_first();
    let sm2 = sm.remove(h);
    assert(r.to_multiset().count(h) > 0);
    assert(sm.count(h) > 0);
    assert(t =~= r.remove(0));
    assert(t.to_multiset() =~= r.to_multiset().remove(h)) by {
        assert(r.remove(0).to_multiset() =~= r.to_multiset().remove(r[0]));
    }
    assert forall|x: ScoredV| sm2.contains(x) implies rankable(x) && sm.contains(x) by {
        assert(sm2.count(x) > 0);
        assert(sm.count(x) >= sm2.count(x));
    }
    assert forall|x: ScoredV, y: ScoredV|
        sm2.contains(x) && sm2.contains(y) && x.qs == y.qs implies x == y by {
        assert(sm.count(x) >= sm2.count(x));
        assert(sm.count(y) >= sm2.count(y));
        assert(sm.contains(x) && sm.contains(y));
    }
    assert forall|i: int, j: int| 0 <= i < j < t.len() implies ahead(t[i], t[j]) by {
        assert(t[i] == r[i + 1] && t[j] == r[j + 1]);
    }
    assert forall|x: ScoredV| #[trigger] t.to_multiset().count(x) <= sm2.count(x) by {
        assert(r.to_multiset().count(x) <= sm.count(x));
    }
    assert(t.len() == vstd::math::min(n - 1, sm2.len() as int)) by {
        assert(sm2.len() == sm.len() - 1);
        assert(r.len() == vstd::math::min(n, sm.len() as int));
    }
    assert forall|x: ScoredV, i: int|
        #![trigger sm2.count(x), t[i]]
        sm2.count(x) > t.to_multiset().count(x) && 0 <= i < t.len() implies ahead(t[i], x) by {
        assert(sm.count(x) > r.to_multiset().count(x));
        assert(t[i] == r[i + 1]);
        assert(ahead(r[i + 1], x));
    }
}

/// A selection over a base stream extended by another stream's selection is
/// a selection over the two whole streams combined: merging local selections
/// loses nothing.
pub proof fn lemma_topn_expand(
    m: Seq<ScoredV>,
    base: Multiset<ScoredV>,
    r2: Seq<ScoredV>,
    s2: Multiset<ScoredV>,
    n: int,
)
    requires
        n >= 0,
        ms_rankable(base),
        ms_rankable(s2),
        is_topn(r2, s2, n),
        is_topn(m, base.add(r2.to_multiset()), n),
    ensures
        is_topn(m, base.add(s2), n),
{
    broadcast use vstd::seq_lib::group_to_multiset_ensures;
    broadcast use vstd::multiset::group_multiset_axioms;

    let r2m = r2.to_multiset();
    let mid = base.add(r2m);
    let whole = base.add(s2);
    // Counts stay within the combined stream.
    assert forall|x: ScoredV| #[trigger] m.to_multiset().count(x) <= whole.count(x) by {
        assert(m.to_multiset().count(x) <= mid.count(x));
        assert(r2m.count(x) <= s2.count(x));
    }
    // The length matches the combined stream.
    assert(m.len() == vstd::math::min(n, whole.len() as int)) by {
        assert(r2.len() == vstd::math::min(n, s2.len() as int));
        assert(m.len() == vstd::math::min(n, mid.len() as int));
        assert(mid.len() == base.len() + r2.len());
        assert(whole.len() == base.len() + s2.len());
    }
    // Dropped results rank no higher.
    assert forall|x: ScoredV, i: int|
        #![trigger whole.count(x), m[i]]
        whole.count(x) > m.to_multiset().count(x) && 0 <= i < m.len() implies ahead(m[i], x) by {
        if mid.count(x) > m.to_multiset().count(x) {
            assert(ahead(m[i], x));
        } else {
            // Only the other shard's own leavings are new here.
            assert(s2.count(x) > r2m.count(x));
            assert(s2.contains(x));
            assert(rankable(x));
            assert(r2.len() == vstd::math::min(n, s2.len() as int));
            if r2.len() < n {
                assert(r2.len() == s2.len());
                assert(r2m.len() == s2.len());
                lemma_ms_le_same_len(r2m, s2);
                assert(false);
            }
            assert(r2.len() == n);
            assert(m.len() == n);
            assert(rankable(m[i])) by {
                assert(m.to_multiset().count(m[i]) > 0);
                assert(mid.count(m[i]) > 0);
                if base.count(m[i]) > 0 {
                    assert(base.contains(m[i]));
                } else {
                    assert(r2m.count(m[i]) > 0);
                    assert(s2.count(m[i]) > 0);
                    assert(s2.contains(m[i]));
                }
            }
            if exists|y: ScoredV| #[trigger] r2m.count(y) > m.to_multiset().count(y) {
                let y = choose|y: ScoredV| #[trigger] r2m.count(y) > m.to_multiset().count(y);
                assert(mid.count(y) > m.to_multiset().count(y));
                assert(ahead(m[i], y));
                let j = lemma_count_to_index(r2, y);
                assert(s2.count(y) > 0);
                assert(rankable(y));
                assert(ahead(r2[j], x));
                lemma_ahead_trans(m[i], y, x);
            } else {
                // The merged selection holds the other selection whole.
                assert(forall|y: ScoredV| #[trigger] r2m.count(y) <= m.to_multiset().count(y));
                assert(r2m.len() == r2.len());
                assert(m.to_multiset().len() == m.len());
                lemma_ms_le_same_len(r2m, m.to_multiset());
                assert(m.to_multiset().count(m[i]) > 0);
                assert(r2m.count(m[i]) > 0);
                let j = lemma_count_to_index(r2, m[i]);
                assert(ahead(r2[j], x));
            }
        }
    }
}

/// Merging is deterministic: folding two shards' local selections together
/// gives exactly the selection of the combined stream, however the work was
/// split.
pub proof fn lemma_merge_determinism(
    r1: Seq<ScoredV>,
    s1: Multiset<ScoredV>,
    r2: Seq<ScoredV>,
    s2: Multiset<ScoredV>,
    m: Seq<ScoredV>,
    whole: Seq<ScoredV>,
    n: int,
)
    requires
        n >= 0,
        ms_rankable(s1),
        ms_rankable(s2),
        qs_consistent(s1.add(s2)),
        is_topn(r1, s1, n),
        is_topn(r2, s2, n),
        is_topn(m, r1.to_multiset().add(r2.to_multiset()), n),
        is_topn(whole, s1.add(s2), n),
    ensures
        m == whole,
{
    broadcast use vstd::multiset::group_multiset_axioms;
    broadcast use vstd::seq_lib::group_to_multiset_ensures;

    assert forall|x: ScoredV| r1.to_multiset().contains(x) implies rankable(x) by {
        assert(r1.to_multiset().count(x) <= s1.count(x));
        assert(s1.contains(x));
    }
    lemma_topn_expand(m, r1.to_multiset(), r2, s2, n);
    assert(r1.to_multiset().add(s2) =~= s2.add(r1.to_multiset()));
    lemma_topn_expand(m, s2, r1, s1, n);
    assert(s2.add(s1) =~= s1.add(s2));
    lemma_topn_unique(m, whole, s1.add(s2), n);
}

/// Compare two scored results: does `a` rank at least as high as `b`?
pub fn scored_ahead(a: &Scored, b: &Scored) -> (r: bool)
    requires
        a.corr.wf(),
        b.corr.wf(),
        rankable(a@),
        rankable(b@),
    ensures
        r == ahead(a@, b@),
{
    let c = corr_cmp(&a.corr, &b.corr);
    if c == 1 {
        return true;
    }
    if c == -1 {
        return false;
    }
    // Equal correlation: break the tie on the candidate ordinals.
    let la = a.qs.len();
    let lb = b.qs.len();
    let m = if la < lb {
        la
    } else {
        lb
    };
    let ghost aq = ord_ints(a.qs@);
    let ghost bq = ord_ints(b.qs@);
    let mut i: usize = 0;
    proof {
        assert(aq.skip(0) =~= aq);
        assert(bq.skip(0) =~= bq);
    }
    while i < m
        invariant
            0 <= i <= m,
            la == a.qs@.len(),
            lb == b.qs@.len(),
            m == vstd::math::min(la as int, lb as int),
            aq == ord_ints(a.qs@),
            bq == ord_ints(b.qs@),
            corr_key(a@.corr, b@.corr) == corr_key(b@.corr, a@.corr),
            forall|j: int| 0 <= j < i ==> aq[j] == bq[j],
            lex_lt(aq, bq) == lex_lt(aq.skip(i as int), bq.skip(i as int)),
        decreases m - i,
    {
        let av = a.qs[i];
        let bv = b.qs[i];
        proof {
            let sa = aq.skip(i as int);
            let sb = bq.skip(i as int);
            assert(sa.len() > 0 && sb.len() > 0);
            assert(sa.first() == aq[i as int] && sb.first() == bq[i as int]);
            assert(sa.drop_first() =~= aq.skip(i as int + 1));
            assert(sb.drop_first() =~= bq.skip(i as int + 1));
            assert(aq[i as int] == av as int && bq[i as int] == bv as int);
            if av < bv {
                assert(lex_lt(sa, sb));
            }
            if av > bv {
                assert(!lex_lt(sa, sb));
                lemma_lex_trichotomy(aq, bq);
                if aq == bq {
                    assert(aq[i as int] == bq[i as int]);
                }
            }
        }
        if av < bv {
            return true;
        }
        if av > bv {
            return false;
        }
        i += 1;
    }
    proof {
        let sa = aq.skip(m as int);
        let sb = bq.skip(m as int);
        if la < lb {
            assert(sa.len() == 0 && sb.len() > 0);
            assert(lex_lt(sa, sb));
        } else if la > lb {
            assert(sa.len() > 0 && sb.len() == 0);
            assert(!lex_lt(sa, sb));
            assert(aq.len() != bq.len());
        } else {
            assert forall|j: int| 0 <= j < aq.len() implies aq[j] == bq[j] by {}
            assert(aq =~= bq);
            assert(!lex_lt(sa, sb));
        }
    }
    la <= lb
}

} // verus!
