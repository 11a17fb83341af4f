//! Exact Pearson correlation evidence.
//!
//! For integer sequences `xs`, `ys` of length `n`, the Pearson coefficient is
//! `num / sqrt(dx*dy)` with
//!
//! ```text
//! num = n*sum(x*y) - sum(x)*sum(y)
//! dx  = n*sum(x^2) - sum(x)^2
//! dy  = n*sum(y^2) - sum(y)^2
//! ```
//!
//! Instead of evaluating the square root in floating point, the evaluator
//! carries the integer triple `(num, dx, dy)` exactly.  The triple determines
//! the coefficient, `dx == 0` or `dy == 0` marks the degenerate
//! (zero-variance) case, and two finite coefficients are ordered by
//! cross-multiplication: `num_a/sqrt(da) <= num_b/sqrt(db)` holds exactly when
//! `num_a*|num_a|*db <= num_b*|num_b|*da`, which is decided in exact integer
//! arithmetic.
use vstd::prelude::*;

use crate::bignum::{bn_cmp, bn_from_u128, bn_is_zero, bn_mul, bn_sub, limbs_val, BigNat};
use crate::sums::{
    all_nonneg, isum, isum_prod, isum_sq, lemma_isum_prefix_le, lemma_isum_prod_le,
    lemma_isum_prod_push, lemma_isum_push, lemma_isum_sq_le, lemma_scaled_variance_nonneg,
};

verus! {

/// The mathematical value of a correlation: the exact triple that determines
/// the Pearson coefficient `num / sqrt(dx*dy)`.
pub struct CorrV {
    pub num: int,
    pub dx: int,
    pub dy: int,
}

/// A sequence of unsigned scores as mathematical integers.
pub open spec fn ints(s: Seq<u64>) -> Seq<int> {
    s.map_values(|x: u64| x as int)
}

/// The correlation triple of two equal-length integer sequences.
pub open spec fn corr_of(xs: Seq<int>, ys: Seq<int>) -> CorrV {
    CorrV {
        num: xs.len() * isum_prod(xs, ys) - isum(xs) * isum(ys),
        dx: xs.len() * isum_sq(xs) - isum(xs) * isum(xs),
        dy: ys.len() * isum_sq(ys) - isum(ys) * isum(ys),
    }
}

/// A finite (non-degenerate) correlation: both variances are positive.
pub open spec fn corr_finite(c: CorrV) -> bool {
    c.dx > 0 && c.dy > 0
}

/// The signed comparison key of `a` cross-multiplied against `b`'s variance
/// product.  For finite `a` and `b`, `corr_key(a, b) <= corr_key(b, a)` holds
/// exactly when the Pearson coefficient of `a` is at most that of `b`.
pub open spec fn corr_key(a: CorrV, b: CorrV) -> int {
    a.num * vstd::math::abs(a.num) * (b.dx * b.dy)
}

/// Exact correlation evidence: sign and magnitude of the numerator, and the
/// two scaled variances, all as exact naturals.
#[derive(Debug)]
pub struct Corr {
    pub neg: bool,
    pub num: BigNat,
    pub dx: BigNat,
    pub dy: BigNat,
}

impl View for Corr {
    type V = CorrV;

    open spec fn view(&self) -> CorrV {
        CorrV {
            num: if self.neg {
                -self.num@
            } else {
                self.num@
            },
            dx: self.dx@,
            dy: self.dy@,
        }
    }
}

impl Corr {
    /// Canonical form: the sign flag is only set on a strictly negative
    /// numerator, so sign tests can read it directly.
    pub open spec fn wf(&self) -> bool {
        self.neg ==> self.num@ > 0
    }
}

/// `a*b` for `u64` factors does not overflow `u128`.
proof fn lemma_u64_mul_fits(a: u64, b: u64)
    ensures
        a as int * b as int <= 0xffff_ffff_ffff_fffe_0000_0000_0000_0001,
        a as int * b as int >= 0,
{
    assert(a as int * b as int <= 0xffff_ffff_ffff_ffff * 0xffff_ffff_ffff_ffff
        && a as int * b as int >= 0) by (nonlinear_arith)
        requires
            0 <= a as int <= 0xffff_ffff_ffff_ffff,
            0 <= b as int <= 0xffff_ffff_ffff_ffff,
    ;
}

/// The exact correlation triple of two aligned score sequences.
///
/// The bounds in the `requires` clause are machine limits: the five sums are
/// accumulated in fixed-width registers before being combined exactly, so
/// each input sequence must total at most `u64::MAX`.  The engine guarantees
/// this for every candidate because a user's subset sum never exceeds their
/// grand total, and the grand totals are bounded at build time.
pub fn correlation(xs: &Vec<u64>, ys: &Vec<u64>) -> (r: Corr)
    requires
        xs@.len() == ys@.len(),
        isum(ints(xs@)) <= u64::MAX,
        isum(ints(ys@)) <= u64::MAX,
    ensures
        r.wf(),
        r@ == corr_of(ints(xs@), ints(ys@)),
        r@.dx >= 0,
        r@.dy >= 0,
{
    let n = xs.len();
    let ghost ix = ints(xs@);
    let ghost iy = ints(ys@);
    proof {
        assert(forall|i: int| 0 <= i < ix.len() ==> ix[i] >= 0);
        assert(forall|i: int| 0 <= i < iy.len() ==> iy[i] >= 0);
    }
    let mut sx: u64 = 0;
    let mut sy: u64 = 0;
    let mut sxx: u128 = 0;
    let mut syy: u128 = 0;
    let mut sxy: u128 = 0;
    let mut i: usize = 0;
    proof {
        assert(ix.take(0) =~= Seq::<int>::empty());
        assert(iy.take(0) =~= Seq::<int>::empty());
    }
    while i < n
        invariant
            0 <= i <= n,
            n == xs@.len(),
            n == ys@.len(),
            ix == ints(xs@),
            iy == ints(ys@),
            all_nonneg(ix),
            all_nonneg(iy),
            isum(ix) <= u64::MAX,
            isum(iy) <= u64::MAX,
            sx == isum(ix.take(i as int)),
            sy == isum(iy.take(i as int)),
            sxx == isum_sq(ix.take(i as int)),
            syy == isum_sq(iy.take(i as int)),
            sxy == isum_prod(ix.take(i as int), iy.take(i as int)),
        decreases n - i,
    {
        let x = xs[i];
        let y = ys[i];
        proof {
            let xt = ix.take(i as int);
            let yt = iy.take(i as int);
            assert(ix.take(i as int + 1) =~= xt.push(ix[i as int]));
            assert(iy.take(i as int + 1) =~= yt.push(iy[i as int]));
            assert(ix[i as int] == x as int);
            assert(iy[i as int] == y as int);
            lemma_isum_push(xt, x as int);
            lemma_isum_push(yt, y as int);
            lemma_isum_prod_push(xt, yt, x as int, y as int);
            lemma_isum_prefix_le(ix, i as int + 1);
            lemma_isum_prefix_le(iy, i as int + 1);
            // The new partial sums stay within their registers.
            assert(all_nonneg(xt.push(ix[i as int])));
            assert(all_nonneg(yt.push(iy[i as int])));
            crate::sums::lemma_isum_nonneg(xt.push(ix[i as int]));
            crate::sums::lemma_isum_nonneg(yt.push(iy[i as int]));
            lemma_isum_sq_le(xt.push(ix[i as int]));
            lemma_isum_sq_le(yt.push(iy[i as int]));
            lemma_isum_prod_le(xt.push(ix[i as int]), yt.push(iy[i as int]));
            let sx1 = isum(xt.push(ix[i as int]));
            let sy1 = isum(yt.push(iy[i as int]));
            assert(sx1 * sx1 <= 0xffff_ffff_ffff_ffff * 0xffff_ffff_ffff_ffff)
                by (nonlinear_arith)
                requires
                    0 <= sx1 <= 0xffff_ffff_ffff_ffff,
            ;
            assert(sy1 * sy1 <= 0xffff_ffff_ffff_ffff * 0xffff_ffff_ffff_ffff)
                by (nonlinear_arith)
                requires
                    0 <= sy1 <= 0xffff_ffff_ffff_ffff,
            ;
            assert(sx1 * sy1 <= 0xffff_ffff_ffff_ffff * 0xffff_ffff_ffff_ffff)
                by (nonlinear_arith)
                requires
                    0 <= sx1 <= 0xffff_ffff_ffff_ffff,
                    0 <= sy1 <= 0xffff_ffff_ffff_ffff,
            ;
            lemma_u64_mul_fits(x, x);
            lemma_u64_mul_fits(y, y);
            lemma_u64_mul_fits(x, y);
            crate::sums::lemma_isum_nonneg(xt);
            crate::sums::lemma_isum_nonneg(yt);
            assert(isum_sq(xt) >= 0) by {
                lemma_isum_sq_le(xt);
                assert(isum(xt) * isum(xt) >= 0) by (nonlinear_arith);
                lemma_nonneg_sq_sum(xt);
            }
            assert(isum_sq(yt) >= 0) by {
                lemma_nonneg_sq_sum(yt);
            }
            assert(isum_prod(xt, yt) >= 0) by {
                lemma_nonneg_prod_sum(xt, yt);
            }
        }
        sx = sx + x;
        sy = sy + y;
        sxx = sxx + (x as u128) * (x as u128);
        syy = syy + (y as u128) * (y as u128);
        sxy = sxy + (x as u128) * (y as u128);
        i += 1;
    }
    proof {
        assert(ix.take(n as int) =~= ix);
        assert(iy.take(n as int) =~= iy);
    }
    let nn: u64 = n as u64;
    // num = n*sxy - sx*sy, with the sign split off.
    let n_big = bn_from_u128(nn as u128);
    let n_sxy = bn_mul(&bn_from_u128(sxy), &n_big);
    proof {
        lemma_u64_mul_fits(sx, sy);
        assert(n_sxy@ == ix.len() * isum_prod(ix, iy)) by (nonlinear_arith)
            requires
                n_sxy@ == sxy as int * nn as int,
                sxy == isum_prod(ix, iy),
                nn == ix.len(),
        ;
    }
    let sxsy = bn_from_u128((sx as u128) * (sy as u128));
    let c = bn_cmp(&n_sxy, &sxsy);
    let neg = c < 0;
    let num = if neg {
        bn_sub(&sxsy, &n_sxy)
    } else {
        bn_sub(&n_sxy, &sxsy)
    };
    // dx = n*sxx - sx^2 and dy = n*syy - sy^2 are never negative.
    let n_sxx = bn_mul(&bn_from_u128(sxx), &n_big);
    proof {
        lemma_scaled_variance_nonneg(ix);
        lemma_u64_mul_fits(sx, sx);
        assert(n_sxx@ == ix.len() * isum_sq(ix)) by (nonlinear_arith)
            requires
                n_sxx@ == sxx as int * nn as int,
                sxx == isum_sq(ix),
                nn == ix.len(),
        ;
    }
    let dx = bn_sub(&n_sxx, &bn_from_u128((sx as u128) * (sx as u128)));
    let n_syy = bn_mul(&bn_from_u128(syy), &n_big);
    proof {
        lemma_scaled_variance_nonneg(iy);
        lemma_u64_mul_fits(sy, sy);
        assert(n_syy@ == iy.len() * isum_sq(iy)) by (nonlinear_arith)
            requires
                n_syy@ == syy as int * nn as int,
                syy == isum_sq(iy),
                nn == iy.len(),
        ;
    }
    let dy = bn_sub(&n_syy, &bn_from_u128((sy as u128) * (sy as u128)));
    let r = Corr { neg, num, dx, dy };
    proof {
        assert(ix.len() == xs@.len());
        assert(iy.len() == ys@.len());
    }
    r
}

/// A sum of squares of non-negative values is non-negative.
proof fn lemma_nonneg_sq_sum(s: Seq<int>)
    requires
        all_nonneg(s),
    ensures
        isum_sq(s) >= 0,
    decreases s.len(),
{
    if s.len() > 0 {
        assert(all_nonneg(s.drop_last()));
        lemma_nonneg_sq_sum(s.drop_last());
        assert(s.last() * s.last() >= 0) by (nonlinear_arith);
    }
}

/// A sum of products of non-negative values is non-negative.
proof fn lemma_nonneg_prod_sum(xs: Seq<int>, ys: Seq<int>)
    requires
        xs.len() == ys.len(),
        all_nonneg(xs),
        all_nonneg(ys),
    ensures
        isum_prod(xs, ys) >= 0,
    decreases xs.len(),
{
    if xs.len() > 0 {
        assert(all_nonneg(xs.drop_last()));
        assert(all_nonneg(ys.drop_last()));
        lemma_nonneg_prod_sum(xs.drop_last(), ys.drop_last());
        assert(xs.last() * ys.last() >= 0) by (nonlinear_arith)
            requires
                xs.last() >= 0,
                ys.last() >= 0,
        ;
    }
}

/// True exactly when the correlation is finite (both variances positive).
pub fn corr_is_finite(c: &Corr) -> (r: bool)
    requires
        c@.dx >= 0,
        c@.dy >= 0,
    ensures
        r == corr_finite(c@),
{
    let zx = bn_is_zero(&c.dx);
    let zy = bn_is_zero(&c.dy);
    !zx && !zy
}

/// The sign of the comparison key with a positive variance product keeps the
/// sign of the numerator.
proof fn lemma_key_sign(num: int, mag: int, d: int)
    requires
        d > 0,
        mag == vstd::math::abs(num),
    ensures
        num > 0 ==> num * mag * d > 0,
        num == 0 ==> num * mag * d == 0,
        num < 0 ==> num * mag * d < 0,
{
    assert((num > 0 ==> num * mag * d > 0) && (num == 0 ==> num * mag * d == 0) && (num < 0
        ==> num * mag * d < 0)) by (nonlinear_arith)
        requires
            d > 0,
            (num >= 0 ==> mag == num) && (num < 0 ==> mag == -num),
    ;
}

/// Compare two finite correlations exactly: `-1`, `0` or `1` as the Pearson
/// coefficient of `a` is below, equal to or above that of `b`.
pub fn corr_cmp(a: &Corr, b: &Corr) -> (r: i8)
    requires
        a.wf(),
        b.wf(),
        corr_finite(a@),
        corr_finite(b@),
    ensures
        r == -1 || r == 0 || r == 1,
        (r == -1) == (corr_key(a@, b@) < corr_key(b@, a@)),
        (r == 0) == (corr_key(a@, b@) == corr_key(b@, a@)),
        (r == 1) == (corr_key(a@, b@) > corr_key(b@, a@)),
{
    let az = bn_is_zero(&a.num);
    let bz = bn_is_zero(&b.num);
    let sign_a: i8 = if a.neg {
        -1
    } else if az {
        0
    } else {
        1
    };
    let sign_b: i8 = if b.neg {
        -1
    } else if bz {
        0
    } else {
        1
    };
    proof {
        crate::bignum::lemma_val_nonneg(a.num.limbs@);
        crate::bignum::lemma_val_nonneg(b.num.limbs@);
        assert(a@.dx * a@.dy > 0) by (nonlinear_arith)
            requires
                a@.dx > 0,
                a@.dy > 0,
        ;
        assert(b@.dx * b@.dy > 0) by (nonlinear_arith)
            requires
                b@.dx > 0,
                b@.dy > 0,
        ;
        lemma_key_sign(a@.num, vstd::math::abs(a@.num) as int, b@.dx * b@.dy);
        lemma_key_sign(b@.num, vstd::math::abs(b@.num) as int, a@.dx * a@.dy);
    }
    if sign_a != sign_b {
        if sign_a < sign_b {
            return -1;
        } else {
            return 1;
        }
    }
    if sign_a == 0 {
        return 0;
    }
    // Same non-zero sign: compare |num|^2 * (other's variance product).
    let pa = bn_mul(&bn_mul(&a.num, &a.num), &bn_mul(&b.dx, &b.dy));
    let pb = bn_mul(&bn_mul(&b.num, &b.num), &bn_mul(&a.dx, &a.dy));
    let c = bn_cmp(&pa, &pb);
    proof {
        let na = a@.num;
        let nb = b@.num;
        let da = a@.dx * a@.dy;
        let db = b@.dx * b@.dy;
        if sign_a == 1 {
            assert(na == a.num@ && nb == b.num@);
            assert(vstd::math::abs(na) == na && vstd::math::abs(nb) == nb);
            assert(na * na * db == corr_key(a@, b@)) by (nonlinear_arith)
                requires
                    na >= 0,
                    corr_key(a@, b@) == na * vstd::math::abs(na) * db,
                    vstd::math::abs(na) == na,
            ;
            assert(nb * nb * da == corr_key(b@, a@)) by (nonlinear_arith)
                requires
                    nb >= 0,
                    corr_key(b@, a@) == nb * vstd::math::abs(nb) * da,
                    vstd::math::abs(nb) == nb,
            ;
            assert(pa@ == na * na * db) by (nonlinear_arith)
                requires
                    pa@ == (a.num@ * a.num@) * (b@.dx * b@.dy),
                    na == a.num@,
                    db == b@.dx * b@.dy,
            ;
            assert(pb@ == nb * nb * da) by (nonlinear_arith)
                requires
                    pb@ == (b.num@ * b.num@) * (a@.dx * a@.dy),
                    nb == b.num@,
                    da == a@.dx * a@.dy,
            ;
        } else {
            // Both negative: keys are the negated magnitudes, so the
            // comparison flips.
            assert(na == -a.num@ && nb == -b.num@);
            assert(vstd::math::abs(na) == a.num@ && vstd::math::abs(nb) == b.num@);
            assert(corr_key(a@, b@) == -(a.num@ * a.num@ * db)) by (nonlinear_arith)
                requires
                    corr_key(a@, b@) == na * vstd::math::abs(na) * db,
                    na == -a.num@,
                    vstd::math::abs(na) == a.num@,
            ;
            assert(corr_key(b@, a@) == -(b.num@ * b.num@ * da)) by (nonlinear_arith)
                requires
                    corr_key(b@, a@) == nb * vstd::math::abs(nb) * da,
                    nb == -b.num@,
                    vstd::math::abs(nb) == b.num@,
            ;
            assert(pa@ == a.num@ * a.num@ * db) by (nonlinear_arith)
                requires
                    pa@ == (a.num@ * a.num@) * (b@.dx * b@.dy),
                    db == b@.dx * b@.dy,
            ;
            assert(pb@ == b.num@ * b.num@ * da) by (nonlinear_arith)
                requires
                    pb@ == (b.num@ * b.num@) * (a@.dx * a@.dy),
                    da == a@.dx * a@.dy,
            ;
        }
    }
    if sign_a == 1 {
        c
    } else {
        if c == -1 {
            1
        } else if c == 1 {
            -1
        } else {
            0
        }
    }
}

/// The signed comparison numerator of a correlation.
pub open spec fn knum(c: CorrV) -> int {
    c.num * vstd::math::abs(c.num)
}

/// The variance product of a correlation; positive for a finite one.
pub open spec fn kden(c: CorrV) -> int {
    c.dx * c.dy
}

/// A finite correlation has a positive variance product.
pub proof fn lemma_kden_pos(c: CorrV)
    requires
        corr_finite(c),
    ensures
        kden(c) > 0,
{
    assert(c.dx * c.dy > 0) by (nonlinear_arith)
        requires
            c.dx > 0,
            c.dy > 0,
    ;
}

/// The cross-multiplied comparison of finite correlations is transitive.
pub proof fn lemma_corr_le_trans(a: CorrV, b: CorrV, c: CorrV)
    requires
        corr_finite(a),
        corr_finite(b),
        corr_finite(c),
        corr_key(a, b) <= corr_key(b, a),
        corr_key(b, c) <= corr_key(c, b),
    ensures
        corr_key(a, c) <= corr_key(c, a),
{
    lemma_kden_pos(a);
    lemma_kden_pos(b);
    lemma_kden_pos(c);
    assert(knum(a) * kden(c) <= knum(c) * kden(a)) by (nonlinear_arith)
        requires
            kden(a) > 0,
            kden(b) > 0,
            kden(c) > 0,
            knum(a) * kden(b) <= knum(b) * kden(a),
            knum(b) * kden(c) <= knum(c) * kden(b),
    ;
}

/// Strict cross-multiplied comparison composes with the weak one.
pub proof fn lemma_corr_lt_le_trans(a: CorrV, b: CorrV, c: CorrV)
    requires
        corr_finite(a),
        corr_finite(b),
        corr_finite(c),
        corr_key(a, b) < corr_key(b, a),
        corr_key(b, c) <= corr_key(c, b),
    ensures
        corr_key(a, c) < corr_key(c, a),
{
    lemma_kden_pos(a);
    lemma_kden_pos(b);
    lemma_kden_pos(c);
    assert(knum(a) * kden(c) < knum(c) * kden(a)) by (nonlinear_arith)
        requires
            kden(a) > 0,
            kden(b) > 0,
            kden(c) > 0,
            knum(a) * kden(b) < knum(b) * kden(a),
            knum(b) * kden(c) <= knum(c) * kden(b),
    ;
}

/// The weak comparison composes with the strict one.
pub proof fn lemma_corr_le_lt_trans(a: CorrV, b: CorrV, c: CorrV)
    requires
        corr_finite(a),
        corr_finite(b),
        corr_finite(c),
        corr_key(a, b) <= corr_key(b, a),
        corr_key(b, c) < corr_key(c, b),
    ensures
        corr_key(a, c) < corr_key(c, a),
{
    lemma_kden_pos(a);
    lemma_kden_pos(b);
    lemma_kden_pos(c);
    assert(knum(a) * kden(c) < knum(c) * kden(a)) by (nonlinear_arith)
        requires
            kden(a) > 0,
            kden(b) > 0,
            kden(c) > 0,
            knum(a) * kden(b) <= knum(b) * kden(a),
            knum(b) * kden(c) < knum(c) * kden(b),
    ;
}

/// The correlation triple is symmetric in its two sequences: the numerator
/// is unchanged and the variances swap, so the two triples compare equal.
pub proof fn lemma_correlation_symmetry(xs: Seq<int>, ys: Seq<int>)
    requires
        xs.len() == ys.len(),
    ensures
        corr_of(xs, ys).num == corr_of(ys, xs).num,
        corr_of(xs, ys).dx == corr_of(ys, xs).dy,
        corr_of(xs, ys).dy == corr_of(ys, xs).dx,
        corr_key(corr_of(xs, ys), corr_of(ys, xs)) == corr_key(corr_of(ys, xs), corr_of(xs, ys)),
{
    lemma_isum_prod_symmetric(xs, ys);
    let c1 = corr_of(xs, ys);
    let c2 = corr_of(ys, xs);
    assert(c1.num == c2.num) by (nonlinear_arith)
        requires
            c1.num == xs.len() * isum_prod(xs, ys) - isum(xs) * isum(ys),
            c2.num == ys.len() * isum_prod(ys, xs) - isum(ys) * isum(xs),
            isum_prod(xs, ys) == isum_prod(ys, xs),
            xs.len() == ys.len(),
    ;
    assert(c1.num * vstd::math::abs(c1.num) * (c2.dx * c2.dy) == c2.num * vstd::math::abs(c2.num)
        * (c1.dx * c1.dy)) by (nonlinear_arith)
        requires
            c1.num == c2.num,
            c1.dx == c2.dy,
            c1.dy == c2.dx,
    ;
}

/// The product sum does not depend on the order of its two arguments.
pub proof fn lemma_isum_prod_symmetric(xs: Seq<int>, ys: Seq<int>)
    requires
        xs.len() == ys.len(),
    ensures
        isum_prod(xs, ys) == isum_prod(ys, xs),
    decreases xs.len(),
{
    if xs.len() > 0 {
        lemma_isum_prod_symmetric(xs.drop_last(), ys.drop_last());
        assert(xs.last() * ys.last() == ys.last() * xs.last()) by (nonlinear_arith);
    }
}

/// The first components of a paired sequence.
pub open spec fn pair_xs(p: Seq<(int, int)>) -> Seq<int> {
    p.map_values(|t: (int, int)| t.0)
}

/// The second components of a paired sequence.
pub open spec fn pair_ys(p: Seq<(int, int)>) -> Seq<int> {
    p.map_values(|t: (int, int)| t.1)
}

/// The folds that accumulate the five sums of a paired sequence.
pub open spec fn fold_x() -> spec_fn(int, (int, int)) -> int {
    |b: int, t: (int, int)| b + t.0
}

pub open spec fn fold_y() -> spec_fn(int, (int, int)) -> int {
    |b: int, t: (int, int)| b + t.1
}

pub open spec fn fold_xx() -> spec_fn(int, (int, int)) -> int {
    |b: int, t: (int, int)| b + t.0 * t.0
}

pub open spec fn fold_yy() -> spec_fn(int, (int, int)) -> int {
    |b: int, t: (int, int)| b + t.1 * t.1
}

pub open spec fn fold_xy() -> spec_fn(int, (int, int)) -> int {
    |b: int, t: (int, int)| b + t.0 * t.1
}

/// The five sums of a paired sequence are left folds over the pairs.
proof fn lemma_pair_sums_as_folds(p: Seq<(int, int)>)
    ensures
        isum(pair_xs(p)) == p.fold_left(0int, fold_x()),
        isum(pair_ys(p)) == p.fold_left(0int, fold_y()),
        isum_sq(pair_xs(p)) == p.fold_left(0int, fold_xx()),
        isum_sq(pair_ys(p)) == p.fold_left(0int, fold_yy()),
        isum_prod(pair_xs(p), pair_ys(p)) == p.fold_left(0int, fold_xy()),
    decreases p.len(),
{
    if p.len() > 0 {
        lemma_pair_sums_as_folds(p.drop_last());
        assert(pair_xs(p).drop_last() =~= pair_xs(p.drop_last()));
        assert(pair_ys(p).drop_last() =~= pair_ys(p.drop_last()));
        assert(pair_xs(p).last() == p.last().0);
        assert(pair_ys(p).last() == p.last().1);
    }
}

/// The correlation triple of paired values does not depend on their order:
/// reassigning user ordinals permutes the pairs and leaves the triple as it
/// was.
pub proof fn lemma_correlation_permutation(p1: Seq<(int, int)>, p2: Seq<(int, int)>)
    requires
        p1.to_multiset() == p2.to_multiset(),
    ensures
        corr_of(pair_xs(p1), pair_ys(p1)) == corr_of(pair_xs(p2), pair_ys(p2)),
{
    broadcast use vstd::seq_lib::group_to_multiset_ensures;

    lemma_pair_sums_as_folds(p1);
    lemma_pair_sums_as_folds(p2);
    assert(vstd::seq_lib::commutative_foldl(fold_x())) by {
        assert forall|x: (int, int), y: (int, int), v: int| #[trigger]
            fold_x()(fold_x()(v, x), y) == fold_x()(fold_x()(v, y), x) by {}
    }
    assert(vstd::seq_lib::commutative_foldl(fold_y())) by {
        assert forall|x: (int, int), y: (int, int), v: int| #[trigger]
            fold_y()(fold_y()(v, x), y) == fold_y()(fold_y()(v, y), x) by {}
    }
    assert(vstd::seq_lib::commutative_foldl(fold_xx())) by {
        assert forall|x: (int, int), y: (int, int), v: int| #[trigger]
            fold_xx()(fold_xx()(v, x), y) == fold_xx()(fold_xx()(v, y), x) by {}
    }
    assert(vstd::seq_lib::commutative_foldl(fold_yy())) by {
        assert forall|x: (int, int), y: (int, int), v: int| #[trigger]
            fold_yy()(fold_yy()(v, x), y) == fold_yy()(fold_yy()(v, y), x) by {}
    }
    assert(vstd::seq_lib::commutative_foldl(fold_xy())) by {
        assert forall|x: (int, int), y: (int, int), v: int| #[trigger]
            fold_xy()(fold_xy()(v, x), y) == fold_xy()(fold_xy()(v, y), x) by {}
    }
    vstd::seq_lib::lemma_fold_left_permutation(p1, p2, fold_x(), 0int);
    vstd::seq_lib::lemma_fold_left_permutation(p1, p2, fold_y(), 0int);
    vstd::seq_lib::lemma_fold_left_permutation(p1, p2, fold_xx(), 0int);
    vstd::seq_lib::lemma_fold_left_permutation(p1, p2, fold_yy(), 0int);
    vstd::seq_lib::lemma_fold_left_permutation(p1, p2, fold_xy(), 0int);
    assert(p1.len() == p1.to_multiset().len());
    assert(p2.len() == p2.to_multiset().len());
}

/// When every value of `ys` is the same, the scaled variance `dy` vanishes,
/// so the correlation of any candidate against `ys` is degenerate.
pub proof fn lemma_constant_totals_degenerate(xs: Seq<int>, ys: Seq<int>, c: int)
    requires
        xs.len() == ys.len(),
        forall|i: int| 0 <= i < ys.len() ==> ys[i] == c,
    ensures
        corr_of(xs, ys).dy == 0,
        !corr_finite(corr_of(xs, ys)),
{
    crate::sums::lemma_const_variance_zero(ys, c);
}

} // verus!
