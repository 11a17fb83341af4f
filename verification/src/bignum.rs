//! Unbounded natural numbers as little-endian vectors of 64-bit limbs.
//!
//! The correlation evaluator compares exact values of the form
//! `num / sqrt(dx*dy)`; the cross-multiplied comparison products exceed any
//! fixed-width integer for large datasets, so the five sums are combined and
//! compared here with exact multi-limb arithmetic.
use vstd::prelude::*;

verus! {

/// Radix of the limb representation, as a spec-level integer.
pub open spec fn radix() -> int {
    0x1_0000_0000_0000_0000
}

/// `radix()^i`.
pub open spec fn rpow(i: int) -> int
    decreases i,
{
    if i <= 0 {
        1
    } else {
        radix() * rpow(i - 1)
    }
}

/// Value of a little-endian limb sequence.
pub open spec fn limbs_val(s: Seq<u64>) -> int
    decreases s.len(),
{
    if s.len() == 0 {
        0
    } else {
        s.first() + radix() * limbs_val(s.drop_first())
    }
}

/// The limb at position `i`, reading positions past the end as zero.
pub open spec fn limb_at(s: Seq<u64>, i: int) -> u64 {
    if 0 <= i < s.len() {
        s[i]
    } else {
        0
    }
}

/// Value of the first `i` limbs, reading limbs past the end as zero.
pub open spec fn prefix_val(s: Seq<u64>, i: int) -> int {
    if i <= s.len() {
        limbs_val(s.take(i))
    } else {
        limbs_val(s)
    }
}

pub proof fn lemma_rpow_pos(i: int)
    ensures
        rpow(i) >= 1,
    decreases i,
{
    if i > 0 {
        lemma_rpow_pos(i - 1);
    }
}

pub proof fn lemma_rpow_unfold(i: int)
    requires
        i >= 1,
    ensures
        rpow(i) == radix() * rpow(i - 1),
{
}

pub proof fn lemma_rpow_increases(i: int, j: int)
    requires
        i <= j,
    ensures
        rpow(i) <= rpow(j),
    decreases j - i,
{
    if i < j {
        lemma_rpow_increases(i, j - 1);
        lemma_rpow_pos(j - 1);
        lemma_rpow_pos(i);
        if j > 0 {
            lemma_rpow_unfold(j);
            assert(radix() * rpow(j - 1) >= rpow(j - 1)) by (nonlinear_arith)
                requires
                    rpow(j - 1) >= 1,
            ;
        }
    }
}

pub proof fn lemma_val_nonneg(s: Seq<u64>)
    ensures
        limbs_val(s) >= 0,
    decreases s.len(),
{
    if s.len() > 0 {
        lemma_val_nonneg(s.drop_first());
    }
}

/// The value of `i` limbs is below `radix()^i`.
pub proof fn lemma_val_bound(s: Seq<u64>)
    ensures
        limbs_val(s) < rpow(s.len() as int),
    decreases s.len(),
{
    if s.len() == 0 {
    } else {
        let t = s.drop_first();
        lemma_val_bound(t);
        lemma_val_nonneg(t);
        lemma_rpow_unfold(s.len() as int);
        assert(s.first() + radix() * limbs_val(t) < radix() * rpow(t.len() as int))
            by (nonlinear_arith)
            requires
                s.first() < radix(),
                limbs_val(t) + 1 <= rpow(t.len() as int),
                limbs_val(t) >= 0,
        ;
    }
}

/// Extending a prefix by one limb adds that limb at its place value.
pub proof fn lemma_prefix_val_succ(s: Seq<u64>, i: int)
    requires
        0 <= i,
    ensures
        prefix_val(s, i + 1) == prefix_val(s, i) + limb_at(s, i) * rpow(i),
    decreases i,
{
    if i >= s.len() {
        if i == s.len() {
            assert(s.take(i) =~= s);
        }
        assert(limb_at(s, i) == 0);
        assert(0 * rpow(i) == 0);
    } else if i == 0 {
        assert(s.take(1) =~= seq![s[0]]);
        assert(seq![s[0]].drop_first() =~= Seq::<u64>::empty());
        assert(limbs_val(Seq::<u64>::empty()) == 0);
        assert(limbs_val(seq![s[0]]) == s[0] + radix() * 0);
        assert(s.take(0) =~= Seq::<u64>::empty());
        assert(limb_at(s, 0) * rpow(0) == s[0] * 1);
    } else {
        let d = s.drop_first();
        lemma_prefix_val_succ(d, i - 1);
        assert(s.take(i + 1).drop_first() =~= d.take(i));
        assert(s.take(i).drop_first() =~= d.take(i - 1));
        assert(limbs_val(s.take(i + 1)) == s[0] + radix() * limbs_val(d.take(i)));
        assert(limbs_val(s.take(i)) == s[0] + radix() * limbs_val(d.take(i - 1)));
        assert(limbs_val(d.take(i)) == limbs_val(d.take(i - 1)) + limb_at(d, i - 1) * rpow(i - 1));
        assert(limb_at(s, i) == limb_at(d, i - 1));
        lemma_rpow_unfold(i);
        let la = limb_at(d, i - 1) as int;
        let rp = rpow(i - 1);
        assert(radix() * (limbs_val(d.take(i - 1)) + la * rp) == radix() * limbs_val(d.take(i - 1))
            + la * (radix() * rp)) by (nonlinear_arith);
    }
}

/// The value of the whole sequence is the value of any saturated prefix.
pub proof fn lemma_prefix_val_all(s: Seq<u64>, i: int)
    requires
        s.len() <= i,
    ensures
        prefix_val(s, i) == limbs_val(s),
{
    if i == s.len() {
        assert(s.take(i) =~= s);
    }
}

/// A prefix value is bounded by its place value.
pub proof fn lemma_prefix_val_bound(s: Seq<u64>, i: int)
    requires
        0 <= i,
    ensures
        0 <= prefix_val(s, i) < rpow(i),
{
    if i <= s.len() {
        lemma_val_bound(s.take(i));
        lemma_val_nonneg(s.take(i));
    } else {
        lemma_val_bound(s);
        lemma_val_nonneg(s);
        lemma_rpow_increases(s.len() as int, i);
    }
}

/// Appending a limb adds it at the next place value.
pub proof fn lemma_val_push(s: Seq<u64>, x: u64)
    ensures
        limbs_val(s.push(x)) == limbs_val(s) + x * rpow(s.len() as int),
{
    let n = s.len() as int;
    lemma_prefix_val_succ(s.push(x), n);
    assert(s.push(x).take(n) =~= s);
    lemma_prefix_val_all(s.push(x), n + 1);
    assert(limb_at(s.push(x), n) == x);
}

/// An exact natural number held as little-endian 64-bit limbs.
#[derive(Debug)]
pub struct BigNat {
    pub limbs: Vec<u64>,
}

impl View for BigNat {
    type V = int;

    open spec fn view(&self) -> int {
        limbs_val(self.limbs@)
    }
}

/// The zero value.
pub fn bn_zero() -> (r: BigNat)
    ensures
        r@ == 0,
{
    BigNat { limbs: Vec::new() }
}

/// A `BigNat` holding the value of `x`.
pub fn bn_from_u128(x: u128) -> (r: BigNat)
    ensures
        r@ == x as int,
{
    let lo: u64 = (x % 0x1_0000_0000_0000_0000u128) as u64;
    let hi: u64 = (x / 0x1_0000_0000_0000_0000u128) as u64;
    let mut limbs: Vec<u64> = Vec::new();
    proof {
        assert(limbs_val(limbs@) == 0);
    }
    let ghost s0 = limbs@;
    limbs.push(lo);
    proof {
        lemma_val_push(s0, lo);
        assert(lo * rpow(0) == lo * 1);
    }
    let ghost s1 = limbs@;
    limbs.push(hi);
    proof {
        lemma_val_push(s1, hi);
        lemma_rpow_unfold(1);
        assert(hi * (radix() * 1) == radix() * (hi as int)) by (nonlinear_arith);
        assert(x as int == radix() * (x as int / radix()) + x as int % radix());
        assert(x as int / radix() == hi as int);
        assert(x as int % radix() == lo as int);
        assert(limbs_val(limbs@) == lo + radix() * (hi as int));
    }
    BigNat { limbs }
}

/// True exactly when the value is zero.
pub fn bn_is_zero(a: &BigNat) -> (r: bool)
    ensures
        r == (a@ == 0),
{
    let n = a.limbs.len();
    let mut i: usize = 0;
    let mut all_zero = true;
    proof {
        assert(a.limbs@.take(0) =~= Seq::<u64>::empty());
        assert(limbs_val(Seq::<u64>::empty()) == 0);
    }
    while i < n
        invariant
            0 <= i <= n,
            n == a.limbs@.len(),
            all_zero == (prefix_val(a.limbs@, i as int) == 0),
        decreases n - i,
    {
        proof {
            lemma_prefix_val_succ(a.limbs@, i as int);
            lemma_prefix_val_bound(a.limbs@, i as int);
            lemma_rpow_pos(i as int);
            if a.limbs@[i as int] != 0 {
                assert(limb_at(a.limbs@, i as int) * rpow(i as int) >= rpow(i as int))
                    by (nonlinear_arith)
                    requires
                        limb_at(a.limbs@, i as int) >= 1,
                        rpow(i as int) >= 1,
                ;
            } else {
                assert(limb_at(a.limbs@, i as int) * rpow(i as int) == 0) by (nonlinear_arith)
                    requires
                        limb_at(a.limbs@, i as int) == 0,
                ;
            }
        }
        if a.limbs[i] != 0 {
            all_zero = false;
        }
        i += 1;
    }
    proof {
        lemma_prefix_val_all(a.limbs@, n as int);
    }
    all_zero
}

/// Compare two values: `-1`, `0` or `1` as `a` is below, equal to or above `b`.
pub fn bn_cmp(a: &BigNat, b: &BigNat) -> (r: i8)
    ensures
        r == -1 || r == 0 || r == 1,
        (r == -1) == (a@ < b@),
        (r == 0) == (a@ == b@),
        (r == 1) == (a@ > b@),
{
    let la = a.limbs.len();
    let lb = b.limbs.len();
    let m = if la > lb {
        la
    } else {
        lb
    };
    let mut i: usize = 0;
    let mut r: i8 = 0;
    proof {
        assert(a.limbs@.take(0) =~= Seq::<u64>::empty());
        assert(b.limbs@.take(0) =~= Seq::<u64>::empty());
        assert(limbs_val(Seq::<u64>::empty()) == 0);
    }
    while i < m
        invariant
            0 <= i <= m,
            la == a.limbs@.len(),
            lb == b.limbs@.len(),
            m == if la > lb {
                la as int
            } else {
                lb as int
            },
            r == -1 || r == 0 || r == 1,
            (r == -1) == (prefix_val(a.limbs@, i as int) < prefix_val(b.limbs@, i as int)),
            (r == 0) == (prefix_val(a.limbs@, i as int) == prefix_val(b.limbs@, i as int)),
            (r == 1) == (prefix_val(a.limbs@, i as int) > prefix_val(b.limbs@, i as int)),
        decreases m - i,
    {
        let av: u64 = if i < la {
            a.limbs[i]
        } else {
            0
        };
        let bv: u64 = if i < lb {
            b.limbs[i]
        } else {
            0
        };
        proof {
            lemma_prefix_val_succ(a.limbs@, i as int);
            lemma_prefix_val_succ(b.limbs@, i as int);
            lemma_prefix_val_bound(a.limbs@, i as int);
            lemma_prefix_val_bound(b.limbs@, i as int);
            lemma_rpow_pos(i as int);
            let ai = limb_at(a.limbs@, i as int) as int;
            let bi = limb_at(b.limbs@, i as int) as int;
            let rp = rpow(i as int);
            if ai > bi {
                assert(ai * rp >= bi * rp + rp) by (nonlinear_arith)
                    requires
                        ai >= bi + 1,
                        rp >= 1,
                ;
            }
            if ai < bi {
                assert(bi * rp >= ai * rp + rp) by (nonlinear_arith)
                    requires
                        bi >= ai + 1,
                        rp >= 1,
                ;
            }
        }
        if av > bv {
            r = 1;
        } else if av < bv {
            r = -1;
        }
        i += 1;
    }
    proof {
        lemma_prefix_val_all(a.limbs@, m as int);
        lemma_prefix_val_all(b.limbs@, m as int);
    }
    r
}

/// Sum of two values.
pub fn bn_add(a: &BigNat, b: &BigNat) -> (r: BigNat)
    ensures
        r@ == a@ + b@,
{
    let la = a.limbs.len();
    let lb = b.limbs.len();
    let m = if la > lb {
        la
    } else {
        lb
    };
    let mut limbs: Vec<u64> = Vec::new();
    let mut carry: u64 = 0;
    let mut i: usize = 0;
    proof {
        assert(a.limbs@.take(0) =~= Seq::<u64>::empty());
        assert(b.limbs@.take(0) =~= Seq::<u64>::empty());
        assert(limbs_val(Seq::<u64>::empty()) == 0);
    }
    while i < m
        invariant
            0 <= i <= m,
            la == a.limbs@.len(),
            lb == b.limbs@.len(),
            m == if la > lb {
                la as int
            } else {
                lb as int
            },
            limbs@.len() == i,
            carry <= 1,
            limbs_val(limbs@) + carry * rpow(i as int) == prefix_val(a.limbs@, i as int)
                + prefix_val(b.limbs@, i as int),
        decreases m - i,
    {
        let av: u64 = if i < la {
            a.limbs[i]
        } else {
            0
        };
        let bv: u64 = if i < lb {
            b.limbs[i]
        } else {
            0
        };
        let t: u128 = av as u128 + bv as u128 + carry as u128;
        let lo: u64 = (t % 0x1_0000_0000_0000_0000u128) as u64;
        let hi: u64 = (t / 0x1_0000_0000_0000_0000u128) as u64;
        let ghost ls = limbs@;
        proof {
            lemma_prefix_val_succ(a.limbs@, i as int);
            lemma_prefix_val_succ(b.limbs@, i as int);
            lemma_val_push(ls, lo);
            lemma_rpow_unfold(i as int + 1);
            assert(t as int == radix() * (t as int / radix()) + t as int % radix());
            assert(t as int == av + bv + carry);
            let rp = rpow(i as int);
            assert((av + bv + carry) as int * rp == av * rp + bv * rp + carry * rp)
                by (nonlinear_arith);
            assert((lo + radix() * (hi as int)) * rp == lo * rp + hi * (radix() * rp))
                by (nonlinear_arith);
            assert(limbs_val(ls.push(lo)) + hi * rpow(i as int + 1) == prefix_val(
                a.limbs@,
                i as int + 1,
            ) + prefix_val(b.limbs@, i as int + 1));
        }
        limbs.push(lo);
        carry = hi;
        i += 1;
    }
    let ghost ls = limbs@;
    proof {
        lemma_prefix_val_all(a.limbs@, m as int);
        lemma_prefix_val_all(b.limbs@, m as int);
        lemma_val_push(ls, carry);
    }
    limbs.push(carry);
    BigNat { limbs }
}

/// Difference of two values; the subtrahend must not exceed the minuend.
pub fn bn_sub(a: &BigNat, b: &BigNat) -> (r: BigNat)
    requires
        b@ <= a@,
    ensures
        r@ == a@ - b@,
{
    let la = a.limbs.len();
    let lb = b.limbs.len();
    let m = if la > lb {
        la
    } else {
        lb
    };
    let mut limbs: Vec<u64> = Vec::new();
    let mut borrow: u64 = 0;
    let mut i: usize = 0;
    proof {
        assert(a.limbs@.take(0) =~= Seq::<u64>::empty());
        assert(b.limbs@.take(0) =~= Seq::<u64>::empty());
        assert(limbs_val(Seq::<u64>::empty()) == 0);
    }
    while i < m
        invariant
            0 <= i <= m,
            la == a.limbs@.len(),
            lb == b.limbs@.len(),
            m == if la > lb {
                la as int
            } else {
                lb as int
            },
            limbs@.len() == i,
            borrow <= 1,
            limbs_val(limbs@) == prefix_val(a.limbs@, i as int) - prefix_val(b.limbs@, i as int)
                + borrow * rpow(i as int),
        decreases m - i,
    {
        let av: u64 = if i < la {
            a.limbs[i]
        } else {
            0
        };
        let bv: u64 = if i < lb {
            b.limbs[i]
        } else {
            0
        };
        let need: u128 = bv as u128 + borrow as u128;
        let lo: u64;
        let new_borrow: u64;
        if av as u128 >= need {
            lo = av - bv - borrow;
            new_borrow = 0;
        } else {
            let t: u128 = 0x1_0000_0000_0000_0000u128 + av as u128 - need;
            lo = t as u64;
            new_borrow = 1;
        }
        let ghost ls = limbs@;
        proof {
            lemma_prefix_val_succ(a.limbs@, i as int);
            lemma_prefix_val_succ(b.limbs@, i as int);
            lemma_val_push(ls, lo);
            lemma_rpow_unfold(i as int + 1);
            assert(lo as int == av as int - bv - borrow + new_borrow * radix());
            let rp = rpow(i as int);
            assert((av as int - bv - borrow + new_borrow * radix()) * rp == av * rp - bv * rp
                - borrow * rp + new_borrow * (radix() * rp)) by (nonlinear_arith);
        }
        limbs.push(lo);
        borrow = new_borrow;
        i += 1;
    }
    proof {
        lemma_prefix_val_all(a.limbs@, m as int);
        lemma_prefix_val_all(b.limbs@, m as int);
        if borrow == 1 {
            lemma_val_bound(limbs@);
            lemma_rpow_pos(m as int);
            assert(false);
        }
    }
    BigNat { limbs }
}

/// Product of a value and a single limb.
fn bn_mul_limb(a: &BigNat, x: u64) -> (r: BigNat)
    ensures
        r@ == a@ * x,
{
    let la = a.limbs.len();
    let mut limbs: Vec<u64> = Vec::new();
    let mut carry: u64 = 0;
    let mut i: usize = 0;
    proof {
        assert(a.limbs@.take(0) =~= Seq::<u64>::empty());
        assert(limbs_val(Seq::<u64>::empty()) == 0);
        assert(0 * (x as int) == 0);
    }
    while i < la
        invariant
            0 <= i <= la,
            la == a.limbs@.len(),
            limbs@.len() == i,
            limbs_val(limbs@) + carry * rpow(i as int) == prefix_val(a.limbs@, i as int) * x,
        decreases la - i,
    {
        let av: u64 = a.limbs[i];
        proof {
            assert(av as u128 * x as u128 + 0xffff_ffff_ffff_ffffu128 < 0x1_0000_0000_0000_0000u128
                * 0x1_0000_0000_0000_0000u128) by (nonlinear_arith)
                requires
                    av <= 0xffff_ffff_ffff_ffffu64,
                    x <= 0xffff_ffff_ffff_ffffu64,
            ;
        }
        let t: u128 = av as u128 * x as u128 + carry as u128;
        let lo: u64 = (t % 0x1_0000_0000_0000_0000u128) as u64;
        let hi: u64 = (t / 0x1_0000_0000_0000_0000u128) as u64;
        let ghost ls = limbs@;
        proof {
            lemma_prefix_val_succ(a.limbs@, i as int);
            lemma_val_push(ls, lo);
            lemma_rpow_unfold(i as int + 1);
            assert(t as int == radix() * (t as int / radix()) + t as int % radix());
            assert(t as int == av * x + carry);
            let rp = rpow(i as int);
            let pv = prefix_val(a.limbs@, i as int);
            assert((pv + av * rp) * x == pv * x + (av as int * x) * rp) by (nonlinear_arith);
            assert((lo + radix() * (hi as int) + 0) * rp == lo * rp + hi * (radix() * rp))
                by (nonlinear_arith);
            assert((av as int * x + carry) * rp == (av as int * x) * rp + carry * rp)
                by (nonlinear_arith);
            assert(limbs_val(ls.push(lo)) + hi * rpow(i as int + 1) == prefix_val(
                a.limbs@,
                i as int + 1,
            ) * x);
        }
        limbs.push(lo);
        carry = hi;
        i += 1;
    }
    let ghost ls = limbs@;
    proof {
        lemma_prefix_val_all(a.limbs@, la as int);
        lemma_val_push(ls, carry);
    }
    limbs.push(carry);
    BigNat { limbs }
}

/// The same value shifted up by one limb, i.e. multiplied by the radix.
fn bn_shift(a: &BigNat) -> (r: BigNat)
    ensures
        r@ == radix() * a@,
{
    let mut limbs: Vec<u64> = Vec::new();
    limbs.push(0);
    let la = a.limbs.len();
    let mut i: usize = 0;
    proof {
        assert(limbs@.drop_first() =~= a.limbs@.take(0));
    }
    while i < la
        invariant
            0 <= i <= la,
            la == a.limbs@.len(),
            limbs@.len() == i + 1,
            limbs@.first() == 0u64,
            limbs@.drop_first() =~= a.limbs@.take(i as int),
        decreases la - i,
    {
        let av: u64 = a.limbs[i];
        proof {
            assert(limbs@.push(av).drop_first() =~= limbs@.drop_first().push(av));
            assert(a.limbs@.take(i as int).push(a.limbs@[i as int]) =~= a.limbs@.take(i as int + 1));
        }
        limbs.push(av);
        i += 1;
    }
    proof {
        assert(a.limbs@.take(la as int) =~= a.limbs@);
        assert(limbs_val(limbs@) == limbs@.first() + radix() * limbs_val(limbs@.drop_first()));
    }
    BigNat { limbs }
}

/// Product of two values.
pub fn bn_mul(a: &BigNat, b: &BigNat) -> (r: BigNat)
    ensures
        r@ == a@ * b@,
{
    let lb = b.limbs.len();
    let mut acc = bn_zero();
    let mut sh = BigNat { limbs: a.limbs.clone() };
    let mut i: usize = 0;
    proof {
        assert(sh.limbs@ =~= a.limbs@);
        assert(b.limbs@.take(0) =~= Seq::<u64>::empty());
        assert(limbs_val(Seq::<u64>::empty()) == 0);
        assert(a@ * 0 == 0);
        assert(a@ * rpow(0) == a@ * 1);
    }
    while i < lb
        invariant
            0 <= i <= lb,
            lb == b.limbs@.len(),
            acc@ == a@ * prefix_val(b.limbs@, i as int),
            sh@ == a@ * rpow(i as int),
        decreases lb - i,
    {
        let bv: u64 = b.limbs[i];
        let part = bn_mul_limb(&sh, bv);
        let new_acc = bn_add(&acc, &part);
        proof {
            lemma_prefix_val_succ(b.limbs@, i as int);
            let rp = rpow(i as int);
            let pv = prefix_val(b.limbs@, i as int);
            assert((a@ * rp) * bv == a@ * (bv * rp)) by (nonlinear_arith);
            assert(a@ * pv + a@ * (bv * rp) == a@ * (pv + bv * rp)) by (nonlinear_arith);
        }
        acc = new_acc;
        let new_sh = bn_shift(&sh);
        proof {
            lemma_rpow_unfold(i as int + 1);
            assert(radix() * (a@ * rpow(i as int)) == a@ * (radix() * rpow(i as int)))
                by (nonlinear_arith);
        }
        sh = new_sh;
        i += 1;
    }
    proof {
        lemma_prefix_val_all(b.limbs@, lb as int);
    }
    acc
}

} // verus!
