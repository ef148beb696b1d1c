//! The ring a capture callback writes into and the recorder drains.

use vstd::prelude::*;

verus! {

/// The newest samples of a stream: a preallocated ring that is written over and
/// over, so the writer never waits and never allocates.
#[derive(Debug)]
pub struct Ring<T> {
    buf: Vec<T>,
    write: usize,
}

impl<T: Copy> Ring<T> {
    /// How many samples the ring has room for.
    pub closed spec fn room(&self) -> nat {
        self.buf@.len()
    }

    /// How many samples were ever written.
    pub closed spec fn count(&self) -> nat {
        self.write as nat
    }

    /// How many of them the ring still holds.
    pub open spec fn kept(&self) -> nat {
        if self.count() < self.room() {
            self.count()
        } else {
            self.room()
        }
    }

    /// Sample `i` of the stream, while the ring holds it.
    pub closed spec fn sample(&self, i: int) -> T {
        self.buf@[i % self.buf@.len() as int]
    }

    /// What the ring holds, oldest first.
    pub open spec fn held(&self) -> Seq<T> {
        Seq::new(self.kept(), |i: int| self.sample(self.count() - self.kept() + i))
    }

    /// An empty ring with room for `capacity` samples.
    pub fn new(capacity: usize, silence: T) -> (r: Ring<T>)
        ensures
            r.room() == capacity,
            r.count() == 0,
            r.held() == Seq::<T>::empty(),
    {
        let mut buf: Vec<T> = Vec::new();
        let mut i: usize = 0;
        while i < capacity
            invariant
                i <= capacity,
                buf@.len() == i,
            decreases capacity - i,
        {
            buf.push(silence);
            i = i + 1;
        }
        Ring { buf, write: 0 }
    }

    /// Write samples, over the oldest once the ring is full.
    pub fn push(&mut self, samples: &[T])
        requires
            old(self).room() > 0,
            old(self).count() + samples@.len() <= usize::MAX,
        ensures
            final(self).room() == old(self).room(),
            final(self).count() == old(self).count() + samples@.len(),
            final(self).held() == newest(old(self).held() + samples@, final(self).kept()),
    {
        let cap: usize = self.buf.len();
        let ghost was = self.held();
        let ghost before = self.count();
        let mut i: usize = 0;
        proof {
            assert(samples@.take(0) == Seq::<T>::empty());
            assert(self.held() == newest(was + samples@.take(0), self.kept()));
        }
        while i < samples.len()
            invariant
                cap > 0,
                cap == self.buf@.len(),
                i <= samples@.len(),
                before + samples@.len() <= usize::MAX,
                self.write == before + i,
                was.len() == (if before < cap {
                    before
                } else {
                    cap as nat
                }),
                self.held() == newest(was + samples@.take(i as int), self.kept()),
            decreases samples@.len() - i,
        {
            let ghost ring = *self;
            let w: usize = self.write;
            self.buf.set(w % cap, samples[i]);
            self.write = w + 1;
            proof {
                let all = was + samples@.take(i + 1);
                assert(all == (was + samples@.take(i as int)).push(samples@[i as int]));
                let k = self.kept();
                assert forall|j: int| 0 <= j < k implies self.held()[j] == newest(all, k)[j] by {
                    let p = self.count() - k + j;
                    if p == w {
                    } else {
                        lemma_apart(p, w as int, cap as int);
                        assert(self.sample(p) == ring.sample(p));
                        let q = p - (ring.count() - ring.kept());
                        assert(0 <= q < ring.kept());
                        assert(ring.held()[q] == ring.sample(p));
                        assert(newest(was + samples@.take(i as int), ring.kept())[q]
                            == ring.sample(p));
                    }
                }
                assert(self.held() == newest(all, k));
            }
            i = i + 1;
        }
        proof {
            assert(samples@.take(samples@.len() as int) == samples@);
        }
    }

    /// How many samples were written so far.
    pub fn written(&self) -> (r: usize)
        ensures
            r == self.count(),
    {
        self.write
    }

    /// Copy out everything between `from` and the current write position, as far
    /// as the ring still holds it.
    pub fn drain_from(&self, from: usize) -> (r: (Vec<T>, usize))
        requires
            from <= self.count(),
        ensures
            r.1 == self.count(),
            r.0@ == newest(self.held(), (self.count() - from) as nat),
    {
        let w: usize = self.write;
        let cap: usize = self.buf.len();
        let oldest: usize = if w < cap {
            0
        } else {
            w - cap
        };
        let start: usize = if from > oldest {
            from
        } else {
            oldest
        };
        let mut out: Vec<T> = Vec::new();
        let mut i: usize = start;
        while i < w
            invariant
                cap == self.buf@.len(),
                w == self.write,
                oldest == self.count() - self.kept(),
                oldest <= start <= i <= w,
                out@.len() == i - start,
                forall|j: int| 0 <= j < out@.len() ==> #[trigger] out@[j] == self.sample(start + j),
            decreases w - i,
        {
            out.push(self.buf[i % cap]);
            i = i + 1;
        }
        proof {
            let want = newest(self.held(), (self.count() - from) as nat);
            assert forall|j: int| 0 <= j < out@.len() implies out@[j] == want[j] by {
                assert(want[j] == self.held()[start - oldest + j]);
            }
            assert(out@ == want);
        }
        (out, w)
    }
}

/// The last `k` of a sequence, or all of it if it has fewer.
pub open spec fn newest<T>(s: Seq<T>, k: nat) -> Seq<T> {
    if k < s.len() {
        s.skip(s.len() - k)
    } else {
        s
    }
}

/// A reader that drains before the ring has been written over once misses
/// nothing: what it gets is exactly what was written since it last drained.
pub proof fn a_prompt_reader_misses_nothing<T>(held: Seq<T>, written: Seq<T>, kept: nat)
    requires
        written.len() <= kept,
    ensures
        newest(newest(held + written, kept), written.len()) == written,
{
    assert(newest(newest(held + written, kept), written.len()) == written);
}

/// Two places less than one ring apart are different places in it.
proof fn lemma_apart(p: int, w: int, cap: int)
    requires
        cap > 0,
        0 <= p < w,
        w - p < cap,
    ensures
        p % cap != w % cap,
{
    assert(p % cap != w % cap) by (nonlinear_arith)
        requires
            cap > 0,
            0 <= p < w,
            w - p < cap,
    ;
}

} // verus!
