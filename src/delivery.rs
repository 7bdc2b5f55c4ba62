//! Hands the primes of windows sieved in any order (by parallel workers) to
//! a single writer in window order: a window's primes are held until every
//! earlier window has been released.

use vstd::prelude::*;
use crate::generator::tiles;
use crate::primes::{lemma_primes_in_split, primes_in};

verus! {

/// Windows of a tiled range, some delivered, released in order.
pub struct OrderedDelivery {
    segments: Vec<(u64, u64)>,
    slots: Vec<Vec<u64>>,
    ready: Vec<bool>,
    next: usize,
}

impl OrderedDelivery {
    /// The windows, in order.
    pub closed spec fn windows(&self) -> Seq<(u64, u64)> {
        self.segments@
    }

    /// How many windows have been released.
    pub closed spec fn released(&self) -> nat {
        self.next as nat
    }

    /// Whether window `i` has been delivered and not yet released.
    pub closed spec fn waiting(&self, i: int) -> bool {
        self.ready@[i]
    }

    /// The windows tile a range, and each window delivered and not yet
    /// released holds exactly its primes.
    pub closed spec fn wf(&self) -> bool {
        &&& self.segments@.len() >= 1
        &&& exists|size: int|
            tiles(self.segments@, self.segments@[0].0 as int, self.segments@.last().1 as int, size)
        &&& self.slots@.len() == self.segments@.len()
        &&& self.ready@.len() == self.segments@.len()
        &&& self.next <= self.segments@.len()
        &&& forall|i: int|
            0 <= i < self.segments@.len() && #[trigger] self.ready@[i] ==> self.slots@[i]@ == primes_in(
                self.segments@[i].0 as int,
                self.segments@[i].1 as int,
            )
    }

    /// A queue for the windows `segments`, which tile a range; nothing is
    /// delivered yet.
    pub fn new(segments: Vec<(u64, u64)>) -> (d: Self)
        requires
            segments@.len() >= 1,
            exists|size: int| tiles(segments@, segments@[0].0 as int, segments@.last().1 as int, size),
        ensures
            d.wf(),
            d.windows() == segments@,
            d.released() == 0,
            forall|i: int| 0 <= i < segments@.len() ==> !d.waiting(i),
    {
        let n = segments.len();
        let mut slots: Vec<Vec<u64>> = Vec::new();
        let mut ready: Vec<bool> = Vec::new();
        let mut i: usize = 0;
        while i < n
            invariant
                n == segments@.len(),
                i <= n,
                slots@.len() == i,
                ready@.len() == i,
                forall|k: int| 0 <= k < i ==> !#[trigger] ready@[k],
            decreases n - i,
        {
            slots.push(Vec::new());
            ready.push(false);
            i = i + 1;
        }
        OrderedDelivery { segments, slots, ready, next: 0 }
    }

    /// Hands in the primes of window `index`.
    pub fn deliver(&mut self, index: usize, primes: Vec<u64>)
        requires
            old(self).wf(),
            index < old(self).windows().len(),
            primes@ == primes_in(
                old(self).windows()[index as int].0 as int,
                old(self).windows()[index as int].1 as int,
            ),
        ensures
            final(self).wf(),
            final(self).windows() == old(self).windows(),
            final(self).released() == old(self).released(),
            forall|i: int|
                0 <= i < old(self).windows().len() ==> #[trigger] final(self).waiting(i) == (old(
                    self,
                ).waiting(i) || (i == index && i >= old(self).released())),
    {
        if index >= self.next {
            self.slots.set(index, primes);
            self.ready.set(index, true);
        }
    }

    /// Releases, in window order, the windows that are delivered and follow
    /// those already released without a gap: the result is the primes from
    /// the first such window to the last, and the next window is then not
    /// yet delivered (or there is none).
    pub fn release(&mut self) -> (r: Vec<u64>)
        requires
            old(self).wf(),
        ensures
            final(self).wf(),
            final(self).windows() == old(self).windows(),
            old(self).released() <= final(self).released() <= old(self).windows().len(),
            final(self).released() < old(self).windows().len() ==> !final(self).waiting(
                final(self).released() as int,
            ),
            forall|i: int|
                0 <= i < old(self).windows().len() ==> #[trigger] final(self).waiting(i) == (old(
                    self,
                ).waiting(i) && !(old(self).released() <= i < final(self).released())),
            final(self).released() == old(self).released() ==> r@.len() == 0,
            final(self).released() > old(self).released() ==> r@ == primes_in(
                old(self).windows()[old(self).released() as int].0 as int,
                old(self).windows()[final(self).released() - 1].1 as int,
            ),
    {
        let ghost start = self.next as int;
        let ghost segs = self.segments@;
        let ghost size = choose|size: int| tiles(segs, segs[0].0 as int, segs.last().1 as int, size);
        let ghost ready0 = self.ready@;
        let mut out: Vec<u64> = Vec::new();
        while self.next < self.segments.len() && self.ready[self.next]
            invariant
                self.wf(),
                self.segments@ == segs,
                tiles(segs, segs[0].0 as int, segs.last().1 as int, size),
                0 <= start <= self.next <= segs.len(),
                self.ready@.len() == segs.len(),
                ready0.len() == segs.len(),
                forall|i: int|
                    0 <= i < segs.len() ==> #[trigger] self.ready@[i] == (ready0[i] && !(start <= i
                        < self.next)),
                self.next == start ==> out@.len() == 0,
                self.next > start ==> out@ == primes_in(segs[start].0 as int, segs[self.next - 1].1 as int),
            decreases segs.len() - self.next,
        {
            let k = self.next;
            let ghost before = out@;
            let part: &Vec<u64> = &self.slots[k];
            let mut j: usize = 0;
            while j < part.len()
                invariant
                    j <= part@.len(),
                    out@ == before + part@.subrange(0, j as int),
                decreases part@.len() - j,
            {
                out.push(part[j]);
                assert(out@ =~= before + part@.subrange(0, j + 1));
                j = j + 1;
            }
            assert(part@.subrange(0, part@.len() as int) =~= part@);
            proof {
                if k > start {
                    let p = (k - 1) as int;
                    assert(segs[p + 1].0 == segs[p].1 + 1);
                    assert(segs[start].0 <= segs[p].1 + 1) by {
                        if start < p {
                            lemma_starts_ascend(segs, size, start, p);
                        }
                    }
                    lemma_primes_in_split(segs[start].0 as int, segs[p].1 as int, segs[k as int].1 as int);
                } else {
                    assert(out@ =~= primes_in(segs[k as int].0 as int, segs[k as int].1 as int));
                }
            }
            self.slots.set(k, Vec::new());
            self.ready.set(k, false);
            self.next = k + 1;
        }
        out
    }

    /// Whether every window has been released.
    pub fn is_complete(&self) -> (r: bool)
        requires
            self.wf(),
        ensures
            r == (self.released() == self.windows().len()),
    {
        self.next == self.segments.len()
    }
}

/// In a tiling, windows start in ascending order.
proof fn lemma_starts_ascend(segs: Seq<(u64, u64)>, size: int, i: int, j: int)
    requires
        tiles(segs, segs[0].0 as int, segs.last().1 as int, size),
        0 <= i < j < segs.len(),
    ensures
        segs[i].0 < segs[j].0,
        segs[i].1 < segs[j].0,
    decreases j - i,
{
    assert(segs[i + 1].0 == segs[i].1 + 1);
    if i + 1 < j {
        lemma_starts_ascend(segs, size, i + 1, j);
    }
}

} // verus!
