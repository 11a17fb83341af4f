//! Batching: splitting a work list into fixed-size chunks.
//!
//! The chunked evaluation loop hands each worker one batch of candidates at a
//! time; this is the splitter.
use vstd::prelude::*;

verus! {

/// The chunks of `s`, each of `n` elements except a shorter final one.
pub open spec fn chunks_of<T>(s: Seq<T>, n: int) -> Seq<Seq<T>>
    recommends
        n >= 1,
    decreases s.len(),
{
    if s.len() == 0 {
        Seq::empty()
    } else if s.len() <= n || n < 1 {
        seq![s]
    } else {
        seq![s.take(n)] + chunks_of(s.skip(n), n)
    }
}

/// A work list being handed out in fixed-size batches.
pub struct Batched<T> {
    pub items: Vec<T>,
    pub size: usize,
}

impl<T> Batched<T> {
    /// Wrap a work list for batching.
    pub fn batched(items: Vec<T>, size: usize) -> (r: Batched<T>)
        requires
            size >= 1,
        ensures
            r.items@ == items@,
            r.size == size,
    {
        Batched { items, size }
    }

    /// The next batch: the first `size` remaining items, fewer at the end,
    /// `None` once everything was handed out.
    pub fn next(&mut self) -> (r: Option<Vec<T>>)
        requires
            old(self).size >= 1,
        ensures
            final(self).size == old(self).size,
            match r {
                Some(b) => old(self).items@.len() > 0 && b@ == old(self).items@.take(
                    vstd::math::min(old(self).size as int, old(self).items@.len() as int),
                ) && final(self).items@ == old(self).items@.skip(
                    vstd::math::min(old(self).size as int, old(self).items@.len() as int),
                ),
                None => old(self).items@.len() == 0 && final(self).items@ == old(self).items@,
            },
    {
        let len = self.items.len();
        if len == 0 {
            return None;
        }
        let take_n = if self.size < len {
            self.size
        } else {
            len
        };
        let mut b: Vec<T> = Vec::new();
        let mut i: usize = 0;
        while i < take_n
            invariant
                0 <= i <= take_n,
                take_n <= old(self).items@.len(),
                b@.len() == i,
                self.size == old(self).size,
                b@ == old(self).items@.take(i as int),
                self.items@ == old(self).items@.skip(i as int),
            decreases take_n - i,
        {
            proof {
                let rest = old(self).items@.skip(i as int);
                assert(rest[0] == old(self).items@[i as int]);
                assert(rest.remove(0) =~= old(self).items@.skip(i as int + 1));
                assert(old(self).items@.take(i as int).push(old(self).items@[i as int])
                    =~= old(self).items@.take(i as int + 1));
            }
            let x = self.items.remove(0);
            b.push(x);
            i += 1;
        }
        Some(b)
    }
}

/// The views of a vector of chunks.
pub open spec fn chunk_views<T>(r: Seq<Vec<T>>) -> Seq<Seq<T>> {
    r.map_values(|v: Vec<T>| v@)
}

/// Split a work list into its chunks, in order.
pub fn batched_all<T>(items: Vec<T>, size: usize) -> (r: Vec<Vec<T>>)
    requires
        size >= 1,
    ensures
        chunk_views(r@) == chunks_of(items@, size as int),
{
    let ghost whole = items@;
    let mut b = Batched::batched(items, size);
    let mut r: Vec<Vec<T>> = Vec::new();
    proof {
        assert(chunk_views(r@) + chunks_of(b.items@, size as int) =~= chunks_of(
            whole,
            size as int,
        ));
    }
    loop
        invariant
            b.size == size,
            size >= 1,
            chunk_views(r@) + chunks_of(b.items@, size as int) =~= chunks_of(whole, size as int),
        ensures
            b.items@.len() == 0,
            chunk_views(r@) + chunks_of(b.items@, size as int) =~= chunks_of(whole, size as int),
        decreases b.items@.len(),
    {
        let ghost before = b.items@;
        let ghost r0 = r@;
        match b.next() {
            Some(chunk) => {
                proof {
                    let mn = vstd::math::min(size as int, before.len() as int);
                    if before.len() <= size {
                        assert(before.take(mn) =~= before);
                        assert(before.skip(mn) =~= Seq::<T>::empty());
                        assert(chunks_of(before, size as int) =~= seq![before]);
                    }
                    assert(chunks_of(before, size as int) =~= seq![before.take(mn)] + chunks_of(
                        before.skip(mn),
                        size as int,
                    ));
                }
                r.push(chunk);
                proof {
                    assert(chunk_views(r@) =~= chunk_views(r0).push(before.take(
                        vstd::math::min(size as int, before.len() as int),
                    )));
                    assert(chunk_views(r@) + chunks_of(b.items@, size as int) =~= chunks_of(
                        whole,
                        size as int,
                    ));
                }
            },
            None => {
                break ;
            },
        }
    }
    proof {
        assert(chunks_of(b.items@, size as int) =~= Seq::<Seq<T>>::empty());
        assert(chunk_views(r@) + Seq::<Seq<T>>::empty() =~= chunk_views(r@));
    }
    r
}

} // verus!
