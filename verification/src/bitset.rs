//! Coverage sets: fixed-size bitsets over user ordinals.
//!
//! One bit per user of the domain; a question's coverage set holds the users
//! with a recorded score for it.  Candidate evaluation intersects coverage
//! sets word by word and then walks the members of the intersection.
use vstd::prelude::*;

verus! {

/// Whether bit `u` is set in the word sequence `ws`.
pub open spec fn word_bit(ws: Seq<u64>, u: int) -> bool {
    0 <= u && u / 64 < ws.len() && ((ws[u / 64] >> (u % 64) as u64) & 1u64) == 1u64
}

/// Some position of `m` holds the ordinal `u`.
pub open spec fn appears(m: Seq<usize>, u: int) -> bool {
    exists|i: int| 0 <= i < m.len() && m[i] == u
}

/// A set of user ordinals drawn from a fixed domain `[0, nbits)`.
pub struct UserSet {
    pub words: Vec<u64>,
    pub nbits: usize,
}

impl UserSet {
    /// The abstract contents: which ordinals are present.
    pub open spec fn view(&self) -> Set<int> {
        Set::new(|u: int| 0 <= u < self.nbits && word_bit(self.words@, u))
    }

    /// Well-formed: enough words for the domain, and no stray bits past it.
    pub open spec fn wf(&self) -> bool {
        &&& self.nbits <= usize::MAX - 63
        &&& self.words@.len() == (self.nbits + 63) / 64
        &&& forall|u: int|
            self.nbits <= u < 64 * self.words@.len() ==> !word_bit(self.words@, u)
    }
}

/// Setting bit `b` of a word leaves every other bit as it was.
proof fn lemma_or_bit(x: u64, b: u64, c: u64)
    requires
        b < 64,
        c < 64,
    ensures
        ((x | (1u64 << b)) >> c) & 1u64 == (if b == c {
            1u64
        } else {
            (x >> c) & 1u64
        }),
{
    assert(((x | (1u64 << b)) >> c) & 1u64 == (if b == c {
        1u64
    } else {
        (x >> c) & 1u64
    })) by (bit_vector)
        requires
            b < 64,
            c < 64,
    ;
}

/// A bit of an intersection word is set exactly when it is set in both.
proof fn lemma_and_bit(x: u64, y: u64, c: u64)
    requires
        c < 64,
    ensures
        (((x & y) >> c) & 1u64 == 1u64) == (((x >> c) & 1u64 == 1u64) && ((y >> c) & 1u64
            == 1u64)),
{
    assert((((x & y) >> c) & 1u64 == 1u64) == (((x >> c) & 1u64 == 1u64) && ((y >> c) & 1u64
        == 1u64))) by (bit_vector)
        requires
            c < 64,
    ;
}

/// Updating one word by setting one bit changes exactly one bit of the set.
proof fn lemma_update_bit(old_words: Seq<u64>, new_words: Seq<u64>, w: int, b: u64, v: int)
    requires
        0 <= w < old_words.len(),
        b < 64,
        new_words == old_words.update(w, old_words[w] | (1u64 << b)),
        0 <= v < 64 * new_words.len(),
    ensures
        word_bit(new_words, v) == (v == 64 * w + b || word_bit(old_words, v)),
{
    let vw = v / 64;
    let vb = (v % 64) as u64;
    assert(64 * vw + v % 64 == v);
    assert(vw < new_words.len()) by (nonlinear_arith)
        requires
            0 <= v < 64 * new_words.len(),
            vw == v / 64,
            64 * vw + v % 64 == v,
            0 <= v % 64 < 64,
    ;
    if vw == w {
        lemma_or_bit(old_words[vw], b, vb);
        assert((b == vb) == (v == 64 * w + b));
    } else {
        assert(new_words[vw] == old_words[vw]);
    }
}

/// No bit of the zero word is set.
proof fn lemma_zero_bit(c: u64)
    requires
        c < 64,
    ensures
        (0u64 >> c) & 1u64 == 0u64,
{
    assert((0u64 >> c) & 1u64 == 0u64) by (bit_vector)
        requires
            c < 64,
    ;
}

/// The empty set over a domain of `nbits` ordinals.
pub fn us_new(nbits: usize) -> (r: UserSet)
    requires
        nbits <= usize::MAX - 63,
    ensures
        r.wf(),
        r.nbits == nbits,
        r@ =~= Set::<int>::empty(),
{
    let nwords = (nbits + 63) / 64;
    let mut words: Vec<u64> = Vec::new();
    let mut i: usize = 0;
    while i < nwords
        invariant
            0 <= i <= nwords,
            words@.len() == i,
            forall|j: int| 0 <= j < i ==> words@[j] == 0u64,
        decreases nwords - i,
    {
        words.push(0);
        i += 1;
    }
    let r = UserSet { words, nbits };
    proof {
        assert forall|u: int| 0 <= u < 64 * r.words@.len() implies !word_bit(r.words@, u) by {
            lemma_zero_bit((u % 64) as u64);
        }
        assert(r@ =~= Set::<int>::empty());
    }
    r
}

/// Insert ordinal `u`.
pub fn us_insert(s: &mut UserSet, u: usize)
    requires
        old(s).wf(),
        u < old(s).nbits,
    ensures
        final(s).wf(),
        final(s).nbits == old(s).nbits,
        final(s)@ =~= old(s)@.insert(u as int),
{
    let w = u / 64;
    let b = (u % 64) as u64;
    proof {
        assert(64 * (u as int / 64) + u as int % 64 == u as int);
        assert(u as int / 64 < s.words@.len()) by {
            assert(s.words@.len() == (s.nbits + 63) / 64);
        }
    }
    let nw = s.words[w] | (1u64 << b);
    let ghost old_words = s.words@;
    s.words.set(w, nw);
    proof {
        assert(64 * (w as int) + b == u as int);
        assert(s.nbits <= 64 * s.words@.len());
        assert forall|v: int| s.nbits <= v < 64 * s.words@.len() implies !word_bit(s.words@, v) by {
            lemma_update_bit(old_words, s.words@, w as int, b, v);
        }
        assert forall|v: int| #![all_triggers] true implies s@.contains(v) == old(s)@.insert(
            u as int,
        ).contains(v) by {
            if 0 <= v < 64 * s.words@.len() {
                lemma_update_bit(old_words, s.words@, w as int, b, v);
            }
        }
        assert(s@ =~= old(s)@.insert(u as int));
    }
}

/// Membership test for ordinal `u`.
pub fn us_contains(s: &UserSet, u: usize) -> (r: bool)
    requires
        s.wf(),
        u < s.nbits,
    ensures
        r == s@.contains(u as int),
{
    let w = u / 64;
    let b = (u % 64) as u64;
    proof {
        assert(64 * (u as int / 64) + u as int % 64 == u as int);
        assert(u as int / 64 < s.words@.len());
    }
    (s.words[w] >> b) & 1u64 == 1u64
}

/// A copy of `s`.
pub fn us_clone(s: &UserSet) -> (r: UserSet)
    ensures
        r.words@ == s.words@,
        r.nbits == s.nbits,
        r@ == s@,
        r.wf() == s.wf(),
{
    let mut words: Vec<u64> = Vec::new();
    let n = s.words.len();
    let mut i: usize = 0;
    while i < n
        invariant
            0 <= i <= n,
            n == s.words@.len(),
            words@ =~= s.words@.take(i as int),
        decreases n - i,
    {
        proof {
            assert(s.words@.take(i as int).push(s.words@[i as int]) =~= s.words@.take(i as int + 1));
        }
        words.push(s.words[i]);
        i += 1;
    }
    proof {
        assert(words@ =~= s.words@);
    }
    UserSet { words, nbits: s.nbits }
}

/// The intersection of two sets over the same domain.
pub fn us_and(a: &UserSet, b: &UserSet) -> (r: UserSet)
    requires
        a.wf(),
        b.wf(),
        a.nbits == b.nbits,
    ensures
        r.wf(),
        r.nbits == a.nbits,
        r@ =~= a@.intersect(b@),
{
    let n = a.words.len();
    let mut words: Vec<u64> = Vec::new();
    let mut i: usize = 0;
    while i < n
        invariant
            0 <= i <= n,
            n == a.words@.len(),
            n == b.words@.len(),
            words@.len() == i,
            forall|j: int| 0 <= j < i ==> words@[j] == (a.words@[j] & b.words@[j]),
        decreases n - i,
    {
        words.push(a.words[i] & b.words[i]);
        i += 1;
    }
    let r = UserSet { words, nbits: a.nbits };
    proof {
        assert forall|u: int| 0 <= u < 64 * r.words@.len() implies word_bit(r.words@, u) == (
        word_bit(a.words@, u) && word_bit(b.words@, u)) by {
            let vw = u / 64;
            let vb = (u % 64) as u64;
            assert(64 * vw + u % 64 == u);
            lemma_and_bit(a.words@[vw], b.words@[vw], vb);
        }
        assert(r@ =~= a@.intersect(b@));
    }
    r
}

/// The members of the set, in increasing ordinal order.
pub fn us_members(s: &UserSet) -> (r: Vec<usize>)
    requires
        s.wf(),
    ensures
        forall|i: int, j: int| 0 <= i < j < r@.len() ==> r@[i] < r@[j],
        forall|i: int| 0 <= i < r@.len() ==> 0 <= #[trigger] r@[i] < s.nbits,
        forall|u: int| s@.contains(u) == appears(r@, u),
{
    let nw = s.words.len();
    proof {
        assert(64 * ((s.nbits + 63) as int / 64) <= (s.nbits + 63) as int);
    }
    let mut r: Vec<usize> = Vec::new();
    let mut w: usize = 0;
    while w < nw
        invariant
            0 <= w <= nw,
            nw == s.words@.len(),
            s.wf(),
            64 * nw <= usize::MAX,
            forall|i: int, j: int| 0 <= i < j < r@.len() ==> r@[i] < r@[j],
            forall|i: int| 0 <= i < r@.len() ==> 0 <= #[trigger] r@[i] < s.nbits && r@[i] < 64 * w,
            forall|u: int| 0 <= u < 64 * w ==> (s@.contains(u) == appears(r@, u)),
        decreases nw - w,
    {
        proof {
            assert(64 * (w as int + 1) <= 64 * nw) by (nonlinear_arith)
                requires
                    w as int + 1 <= nw,
            ;
            assert(64 * nw <= (s.nbits + 63) as int) by (nonlinear_arith)
                requires
                    nw == (s.nbits + 63) / 64,
            ;
        }
        let word = s.words[w];
        if word != 0 {
            let mut b: usize = 0;
            while b < 64
                invariant
                    0 <= b <= 64,
                    0 <= w < nw,
                    nw == s.words@.len(),
                    s.wf(),
                    word == s.words@[w as int],
                    64 * nw <= usize::MAX,
                    64 * w + 64 <= 64 * nw,
                    forall|i: int, j: int| 0 <= i < j < r@.len() ==> r@[i] < r@[j],
                    forall|i: int|
                        0 <= i < r@.len() ==> 0 <= #[trigger] r@[i] < s.nbits && r@[i] < 64 * w + b,
                    forall|u: int| 0 <= u < 64 * w + b ==> (s@.contains(u) == appears(r@, u)),
                decreases 64 - b,
            {
                let u = 64 * w + b;
                let bit_set = (word >> (b as u64)) & 1u64 == 1u64;
                proof {
                    assert(u as int / 64 == w as int && u as int % 64 == b as int);
                    if bit_set {
                        assert(word_bit(s.words@, u as int));
                        if u >= s.nbits {
                            assert(!word_bit(s.words@, u as int));
                        }
                        assert(s@.contains(u as int));
                    } else {
                        assert(!word_bit(s.words@, u as int));
                        assert(!s@.contains(u as int));
                    }
                }
                let ghost r_before = r@;
                if bit_set {
                    r.push(u);
                    proof {
                        assert(r@[r_before.len() as int] == u);
                        assert forall|v: int| 0 <= v < 64 * w + b + 1 implies (s@.contains(v)
                            == appears(r@, v)) by {
                            if v == u as int {
                                assert(r@[r_before.len() as int] == v);
                                assert(appears(r@, v));
                            } else if s@.contains(v) {
                                assert(appears(r_before, v));
                                let i = choose|i: int|
                                    0 <= i < r_before.len() && r_before[i] == v;
                                assert(r@[i] == v);
                                assert(appears(r@, v));
                            } else {
                                assert(!appears(r_before, v));
                                assert forall|i: int| 0 <= i < r@.len() implies r@[i] != v by {
                                    if i < r_before.len() {
                                        assert(r_before[i] == r@[i]);
                                    }
                                }
                                assert(!appears(r@, v));
                            }
                        }
                    }
                } else {
                    proof {
                        assert forall|v: int| 0 <= v < 64 * w + b + 1 implies (s@.contains(v)
                            == appears(r@, v)) by {
                            if v == u as int {
                                assert forall|i: int| 0 <= i < r@.len() implies r@[i] != v by {}
                                assert(!appears(r@, v));
                            }
                        }
                    }
                }
                b += 1;
            }
        } else {
            proof {
                assert forall|u: int| 64 * w <= u < 64 * w + 64 implies !s@.contains(u) by {
                    assert(u / 64 == w as int && 0 <= u % 64 < 64);
                    lemma_zero_bit((u % 64) as u64);
                }
            }
        }
        w += 1;
    }
    proof {
        assert forall|u: int| s@.contains(u) implies 0 <= u < 64 * nw by {
            assert(64 * (u / 64) + u % 64 == u);
            assert(u / 64 < nw);
            assert(64 * (u / 64) <= 64 * (nw - 1)) by (nonlinear_arith)
                requires
                    u / 64 <= nw - 1,
            ;
        }
    }
    r
}

} // verus!
