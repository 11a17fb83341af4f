//! Mathematical sums over integer sequences, and the inequalities that the
//! correlation evaluator rests on.
//!
//! The Pearson correlation of two sequences is determined by five sums:
//! `sum x`, `sum y`, `sum x^2`, `sum y^2` and `sum x*y`.  The evaluator works
//! with the scaled numerator `n*sum_xy - sum_x*sum_y` and the scaled variances
//! `n*sum_xx - sum_x^2` / `n*sum_yy - sum_y^2`; the lemmas here show that the
//! scaled variances are never negative (Lagrange's identity, in inequality
//! form) and bound the sums so that the executable code can accumulate them
//! in fixed-width integers.
use vstd::prelude::*;

verus! {

/// Sum of an integer sequence.
pub open spec fn isum(s: Seq<int>) -> int
    decreases s.len(),
{
    if s.len() == 0 {
        0
    } else {
        isum(s.drop_last()) + s.last()
    }
}

/// Sum of the squares of an integer sequence.
pub open spec fn isum_sq(s: Seq<int>) -> int
    decreases s.len(),
{
    if s.len() == 0 {
        0
    } else {
        isum_sq(s.drop_last()) + s.last() * s.last()
    }
}

/// Sum of the pointwise products of two sequences of equal length.
pub open spec fn isum_prod(xs: Seq<int>, ys: Seq<int>) -> int
    recommends
        xs.len() == ys.len(),
    decreases xs.len(),
{
    if xs.len() == 0 || ys.len() == 0 {
        0
    } else {
        isum_prod(xs.drop_last(), ys.drop_last()) + xs.last() * ys.last()
    }
}

/// Every element of the sequence is non-negative.
pub open spec fn all_nonneg(s: Seq<int>) -> bool {
    forall|i: int| 0 <= i < s.len() ==> s[i] >= 0
}

/// A sum of non-negative elements is non-negative.
pub proof fn lemma_isum_nonneg(s: Seq<int>)
    requires
        all_nonneg(s),
    ensures
        isum(s) >= 0,
    decreases s.len(),
{
    if s.len() > 0 {
        assert(all_nonneg(s.drop_last()));
        lemma_isum_nonneg(s.drop_last());
    }
}

/// Appending an element adds it to the sum.
pub proof fn lemma_isum_push(s: Seq<int>, x: int)
    ensures
        isum(s.push(x)) == isum(s) + x,
        isum_sq(s.push(x)) == isum_sq(s) + x * x,
{
    assert(s.push(x).drop_last() =~= s);
}

/// Appending a pair adds its product to the product sum.
pub proof fn lemma_isum_prod_push(xs: Seq<int>, ys: Seq<int>, x: int, y: int)
    requires
        xs.len() == ys.len(),
    ensures
        isum_prod(xs.push(x), ys.push(y)) == isum_prod(xs, ys) + x * y,
{
    assert(xs.push(x).drop_last() =~= xs);
    assert(ys.push(y).drop_last() =~= ys);
}

/// Growing a prefix of a non-negative sequence can only grow its sum.
pub proof fn lemma_isum_prefix_le(s: Seq<int>, i: int)
    requires
        all_nonneg(s),
        0 <= i <= s.len(),
    ensures
        isum(s.take(i)) <= isum(s),
    decreases s.len() - i,
{
    if i < s.len() {
        lemma_isum_prefix_le(s, i + 1);
        lemma_isum_push(s.take(i), s[i]);
        assert(s.take(i + 1) =~= s.take(i).push(s[i]));
        assert(isum(s.take(i)) <= isum(s.take(i + 1)));
    } else {
        assert(s.take(i) =~= s);
    }
}

/// For non-negative sequences, the sum of squares is at most the square of
/// the sum.
pub proof fn lemma_isum_sq_le(s: Seq<int>)
    requires
        all_nonneg(s),
    ensures
        isum_sq(s) <= isum(s) * isum(s),
    decreases s.len(),
{
    if s.len() > 0 {
        let t = s.drop_last();
        let x = s.last();
        assert(all_nonneg(t));
        lemma_isum_sq_le(t);
        lemma_isum_nonneg(t);
        assert(isum_sq(t) + x * x <= (isum(t) + x) * (isum(t) + x)) by (nonlinear_arith)
            requires
                isum_sq(t) <= isum(t) * isum(t),
                isum(t) >= 0,
                x >= 0,
        ;
    }
}

/// For non-negative sequences of equal length, the sum of products is at
/// most the product of the sums.
pub proof fn lemma_isum_prod_le(xs: Seq<int>, ys: Seq<int>)
    requires
        xs.len() == ys.len(),
        all_nonneg(xs),
        all_nonneg(ys),
    ensures
        isum_prod(xs, ys) <= isum(xs) * isum(ys),
    decreases xs.len(),
{
    if xs.len() > 0 {
        let xt = xs.drop_last();
        let yt = ys.drop_last();
        assert(all_nonneg(xt));
        assert(all_nonneg(yt));
        lemma_isum_prod_le(xt, yt);
        lemma_isum_nonneg(xt);
        lemma_isum_nonneg(yt);
        assert(isum_prod(xt, yt) + xs.last() * ys.last() <= (isum(xt) + xs.last()) * (isum(yt)
            + ys.last())) by (nonlinear_arith)
            requires
                isum_prod(xt, yt) <= isum(xt) * isum(yt),
                isum(xt) >= 0,
                isum(yt) >= 0,
                xs.last() >= 0,
                ys.last() >= 0,
        ;
    }
}

/// Growing a prefix of a non-negative sequence can only grow its sum,
/// between any two cut points.
pub proof fn lemma_isum_take_mono(s: Seq<int>, i: int, j: int)
    requires
        all_nonneg(s),
        0 <= i <= j <= s.len(),
    ensures
        isum(s.take(i)) <= isum(s.take(j)),
    decreases j - i,
{
    if i < j {
        lemma_isum_take_mono(s, i + 1, j);
        lemma_isum_push(s.take(i), s[i]);
        assert(s.take(i + 1) =~= s.take(i).push(s[i]));
    }
}

/// Replacing one element changes the sum by the difference.
pub proof fn lemma_isum_update(s: Seq<int>, j: int, v: int)
    requires
        0 <= j < s.len(),
    ensures
        isum(s.update(j, v)) == isum(s) - s[j] + v,
    decreases s.len(),
{
    if j == s.len() - 1 {
        assert(s.update(j, v).drop_last() =~= s.drop_last());
        assert(s.update(j, v).last() == v);
    } else {
        assert(s.update(j, v).drop_last() =~= s.drop_last().update(j, v));
        lemma_isum_update(s.drop_last(), j, v);
        assert(s.update(j, v).last() == s.last());
    }
}

/// In a non-negative sequence, every element is at most the sum.
pub proof fn lemma_isum_element_le(s: Seq<int>, j: int)
    requires
        all_nonneg(s),
        0 <= j < s.len(),
    ensures
        s[j] <= isum(s),
    decreases s.len(),
{
    if j == s.len() - 1 {
        assert(all_nonneg(s.drop_last()));
        lemma_isum_nonneg(s.drop_last());
    } else {
        assert(all_nonneg(s.drop_last()));
        lemma_isum_element_le(s.drop_last(), j);
    }
}

/// The values of `s` at the positions `idxs`.
pub open spec fn pick(s: Seq<int>, idxs: Seq<int>) -> Seq<int> {
    idxs.map_values(|i: int| s[i])
}

/// A sum over strictly increasing positions of a non-negative sequence is at
/// most the sum over the prefix past the last position.
pub proof fn lemma_isum_pick_le(s: Seq<int>, idxs: Seq<int>)
    requires
        all_nonneg(s),
        forall|a: int, b: int| 0 <= a < b < idxs.len() ==> idxs[a] < idxs[b],
        forall|a: int| 0 <= a < idxs.len() ==> 0 <= #[trigger] idxs[a] < s.len(),
    ensures
        isum(pick(s, idxs)) <= isum(s),
        idxs.len() > 0 ==> isum(pick(s, idxs)) <= isum(s.take(idxs.last() + 1)),
    decreases idxs.len(),
{
    if idxs.len() == 0 {
        assert(pick(s, idxs) =~= Seq::<int>::empty());
        lemma_isum_nonneg(s);
    } else {
        let t = idxs.drop_last();
        let last = idxs.last();
        lemma_isum_pick_le(s, t);
        assert(pick(s, idxs).drop_last() =~= pick(s, t));
        assert(pick(s, idxs).last() == s[last]);
        assert(isum(pick(s, idxs)) == isum(pick(s, t)) + s[last]);
        if t.len() == 0 {
            assert(isum(pick(s, t)) == 0);
            lemma_isum_push(s.take(last), s[last]);
            assert(s.take(last + 1) =~= s.take(last).push(s[last]));
            assert(all_nonneg(s.take(last)));
            lemma_isum_nonneg(s.take(last));
        } else {
            assert(t.last() == idxs[idxs.len() - 2]);
            assert(t.last() < last);
            lemma_isum_take_mono(s, t.last() + 1, last);
            lemma_isum_push(s.take(last), s[last]);
            assert(s.take(last + 1) =~= s.take(last).push(s[last]));
        }
        lemma_isum_take_mono(s, last + 1, s.len() as int);
        assert(s.take(s.len() as int) =~= s);
    }
}

/// A pointwise bound on the elements bounds the sums.
pub proof fn lemma_isum_pointwise_le(xs: Seq<int>, ys: Seq<int>)
    requires
        xs.len() == ys.len(),
        forall|i: int| 0 <= i < xs.len() ==> xs[i] <= ys[i],
    ensures
        isum(xs) <= isum(ys),
    decreases xs.len(),
{
    if xs.len() > 0 {
        lemma_isum_pointwise_le(xs.drop_last(), ys.drop_last());
    }
}

/// `n*x^2 + sum s_i^2 >= 2*x*sum s_i`: summing `(x - s_i)^2 >= 0` over `i`.
proof fn lemma_cross_bound(s: Seq<int>, x: int)
    ensures
        s.len() * (x * x) + isum_sq(s) >= 2 * x * isum(s),
    decreases s.len(),
{
    if s.len() > 0 {
        let t = s.drop_last();
        let y = s.last();
        lemma_cross_bound(t, x);
        assert((s.len() as int) * (x * x) + isum_sq(t) + y * y >= 2 * x * (isum(t) + y))
            by (nonlinear_arith)
            requires
                s.len() >= 1,
                t.len() == s.len() - 1,
                (t.len() as int) * (x * x) + isum_sq(t) >= 2 * x * isum(t),
        ;
    }
}

/// Lagrange's inequality: `n * sum s_i^2 >= (sum s_i)^2`.  It makes the
/// scaled variance of any sequence non-negative.
pub proof fn lemma_scaled_variance_nonneg(s: Seq<int>)
    ensures
        s.len() * isum_sq(s) >= isum(s) * isum(s),
    decreases s.len(),
{
    if s.len() > 0 {
        let t = s.drop_last();
        let x = s.last();
        lemma_scaled_variance_nonneg(t);
        lemma_cross_bound(t, x);
        assert((s.len() as int) * (isum_sq(t) + x * x) >= (isum(t) + x) * (isum(t) + x))
            by (nonlinear_arith)
            requires
                s.len() >= 1,
                t.len() == s.len() - 1,
                (t.len() as int) * isum_sq(t) >= isum(t) * isum(t),
                (t.len() as int) * (x * x) + isum_sq(t) >= 2 * x * isum(t),
        ;
    }
}

/// A constant sequence has zero scaled variance.
pub proof fn lemma_const_variance_zero(s: Seq<int>, c: int)
    requires
        forall|i: int| 0 <= i < s.len() ==> s[i] == c,
    ensures
        isum(s) == s.len() * c,
        isum_sq(s) == s.len() * (c * c),
        s.len() * isum_sq(s) == isum(s) * isum(s),
    decreases s.len(),
{
    if s.len() == 0 {
    } else {
        let t = s.drop_last();
        lemma_const_variance_zero(t, c);
        assert(isum(s) == s.len() * c) by (nonlinear_arith)
            requires
                s.len() >= 1,
                t.len() == s.len() - 1,
                isum(s) == isum(t) + s.last(),
                isum(t) == t.len() * c,
                s.last() == c,
        ;
        assert(isum_sq(s) == s.len() * (c * c)) by (nonlinear_arith)
            requires
                s.len() >= 1,
                t.len() == s.len() - 1,
                isum_sq(s) == isum_sq(t) + s.last() * s.last(),
                isum_sq(t) == t.len() * (c * c),
                s.last() == c,
        ;
    }
    assert(s.len() * (s.len() * (c * c)) == (s.len() * c) * (s.len() * c)) by (nonlinear_arith);
}

} // verus!
