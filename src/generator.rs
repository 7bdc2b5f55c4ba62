//! Prime generation over a 64-bit range: the range is cut into windows, each
//! window is sieved with the base primes, and the primes are gathered in
//! ascending order. A run advances one window per step, so that the caller
//! can report progress and stop it between windows.

use std::sync::Arc;
use std::sync::atomic::AtomicBool;
use vstd::prelude::*;
use crate::isqrt::integer_sqrt;
use crate::primes::{is_prime, lemma_primes_in_facts, lemma_primes_in_split, primes_in};
use crate::sieve::{lemma_base_primes, base_primes_for, sieve_window, simple_sieve};

verus! {

/// The largest upper bound a run accepts.
pub const MAX_PRIME_LIMIT: u64 = 999_999_999_999_999_999;

/// `segs` cuts `[min, max]` into consecutive windows of `size` numbers, the
/// last of which may be shorter.
pub open spec fn tiles(segs: Seq<(u64, u64)>, min: int, max: int, size: int) -> bool {
    &&& segs.len() >= 1
    &&& segs[0].0 == min
    &&& segs[segs.len() - 1].1 == max
    &&& forall|i: int|
        0 <= i < segs.len() ==> #[trigger] segs[i].0 <= segs[i].1 && segs[i].1 - segs[i].0 < size
            && min <= segs[i].0 && segs[i].1 <= max
    &&& forall|i: int|
        0 <= i < segs.len() - 1 ==> #[trigger] segs[i + 1].0 == segs[i].1 + 1 && segs[i].1
            - segs[i].0 + 1 == size
}

/// Cuts `[prime_min, prime_max]` into consecutive windows of `segment_size`
/// numbers; the last window ends at `prime_max`.
pub fn plan_segments(prime_min: u64, prime_max: u64, segment_size: u64) -> (r: Vec<(u64, u64)>)
    requires
        prime_min <= prime_max,
        segment_size >= 1,
    ensures
        tiles(r@, prime_min as int, prime_max as int, segment_size as int),
{
    let mut segs: Vec<(u64, u64)> = Vec::new();
    let mut start: u64 = prime_min;
    loop
        invariant_except_break
            segs@.len() == 0 ==> start == prime_min,
            segs@.len() > 0 ==> segs@[segs@.len() - 1].1 + 1 == start,
            forall|i: int|
                0 <= i < segs@.len() ==> #[trigger] segs@[i].1 - segs@[i].0 + 1 == segment_size,
        invariant
            prime_min <= start <= prime_max,
            segment_size >= 1,
            segs@.len() > 0 ==> segs@[0].0 == prime_min,
            forall|i: int|
                0 <= i < segs@.len() ==> #[trigger] segs@[i].0 <= segs@[i].1 && segs@[i].1
                    - segs@[i].0 < segment_size && prime_min <= segs@[i].0 && segs@[i].1 <= prime_max,
            forall|i: int|
                0 <= i < segs@.len() - 1 ==> #[trigger] segs@[i + 1].0 == segs@[i].1 + 1
                    && segs@[i].1 - segs@[i].0 + 1 == segment_size,
        ensures
            tiles(segs@, prime_min as int, prime_max as int, segment_size as int),
        decreases prime_max - start,
    {
        let end: u64 = if prime_max - start < segment_size {
            prime_max
        } else {
            start + (segment_size - 1)
        };
        let ghost prev = segs@;
        segs.push((start, end));
        proof {
            assert forall|i: int| 0 <= i < segs@.len() - 1 implies #[trigger] segs@[i + 1].0
                == segs@[i].1 + 1 && segs@[i].1 - segs@[i].0 + 1 == segment_size by {
                assert(segs@[i] == prev[i]);
                if i < prev.len() - 1 {
                    assert(segs@[i + 1] == prev[i + 1]);
                }
            }
        }
        if end == prime_max {
            break;
        }
        start = end + 1;
    }
    segs
}

/// What one step of a run did.
#[derive(Clone, Copy, Debug, PartialEq, Eq, Structural)]
pub enum StepOutcome {
    /// One more window was sieved; `processed` of the `total` numbers of the
    /// range are done.
    Sieved { processed: u64, total: u64 },
    /// A stop was seen; the window under way was dropped.
    Stopped,
    /// Every window has been sieved.
    Finished,
}

/// A run over `[prime_min, prime_max]`, one window at a time.
pub struct PrimeGenerator {
    prime_min: u64,
    prime_max: u64,
    base_primes: Vec<u64>,
    segments: Vec<(u64, u64)>,
    next: usize,
    found: Vec<u64>,
}

impl PrimeGenerator {
    /// The lower bound of the run.
    pub closed spec fn min(&self) -> int {
        self.prime_min as int
    }

    /// The upper bound of the run.
    pub closed spec fn max(&self) -> int {
        self.prime_max as int
    }

    /// The last number sieved so far (`min - 1` before the first window).
    pub closed spec fn done_up_to(&self) -> int {
        if self.next == 0 {
            self.prime_min - 1
        } else {
            self.segments@[self.next - 1].1 as int
        }
    }

    /// Whether every window has been sieved.
    pub closed spec fn finished(&self) -> bool {
        self.next >= self.segments@.len()
    }

    /// The primes gathered so far.
    pub closed spec fn found_primes(&self) -> Seq<u64> {
        self.found@
    }

    /// The windows tile the range, the base primes serve every window, and
    /// the primes gathered are exactly those of the windows sieved so far.
    pub closed spec fn wf(&self) -> bool {
        &&& self.prime_min <= self.prime_max <= MAX_PRIME_LIMIT
        &&& exists|size: int| tiles(self.segments@, self.prime_min as int, self.prime_max as int, size)
        &&& self.next <= self.segments@.len()
        &&& self.next > 0 ==> self.segments@[self.next - 1].1 <= self.prime_max
        &&& self.next < self.segments@.len() ==> self.segments@[self.next as int].0 == self.done_up_to() + 1
        &&& forall|i: int| 0 <= i < self.segments@.len() ==> #[trigger] self.segments@[i].1 <= self.prime_max
            && self.prime_min <= self.segments@[i].0 && self.segments@[i].0 <= self.segments@[i].1
            && self.segments@[i].1 - self.segments@[i].0 < usize::MAX / 8
        &&& forall|high: int| high <= self.prime_max ==> base_primes_for(self.base_primes@, high)
        &&& self.found@ == primes_in(self.prime_min as int, self.done_up_to())
    }

    /// A run over `[prime_min, prime_max]` in windows of `segment_size`
    /// numbers, with the base primes up to `isqrt(prime_max) + 1`.
    pub fn new(prime_min: u64, prime_max: u64, segment_size: u64) -> (g: Self)
        requires
            prime_min <= prime_max <= MAX_PRIME_LIMIT,
            1 <= segment_size <= usize::MAX / 8,
        ensures
            g.wf(),
            g.min() == prime_min,
            g.max() == prime_max,
            g.done_up_to() == prime_min - 1,
            !g.finished(),
    {
        let s: u64 = integer_sqrt(prime_max);
        assert(s <= 1_000_000_000) by (nonlinear_arith)
            requires s * s <= prime_max, prime_max <= MAX_PRIME_LIMIT;
        let root: u64 = s + 1;
        assert(root * root > prime_max) by (nonlinear_arith)
            requires prime_max < (s + 1) * (s + 1), root == s + 1;
        let base_primes = simple_sieve(root);
        proof {
            assert forall|high: int| high <= prime_max implies base_primes_for(base_primes@, high) by {
                lemma_base_primes(root as int, high);
            }
        }
        let segments = plan_segments(prime_min, prime_max, segment_size);
        let g = PrimeGenerator { prime_min, prime_max, base_primes, segments, next: 0, found: Vec::new() };
        proof {
            assert(tiles(g.segments@, prime_min as int, prime_max as int, segment_size as int));
            assert(g.segments@[0].0 == g.done_up_to() + 1);
            assert(forall|i: int| 0 <= i < g.segments@.len() ==> #[trigger] g.segments@[i].1 - g.segments@[i].0 < usize::MAX / 8);
            assert(forall|high: int| high <= g.prime_max ==> base_primes_for(g.base_primes@, high));
            assert(g.found@ =~= primes_in(prime_min as int, prime_min - 1));
        }
        g
    }

    /// Sieves the next window, polling `stop` as the window sieve does. A
    /// window that saw a stop adds nothing.
    pub fn step_with(&mut self, stop: Option<&AtomicBool>) -> (r: StepOutcome)
        requires
            old(self).wf(),
        ensures
            final(self).wf(),
            final(self).min() == old(self).min(),
            final(self).max() == old(self).max(),
            old(self).finished() ==> r == StepOutcome::Finished && *final(self) == *old(self),
            r == StepOutcome::Stopped ==> *final(self) == *old(self),
            stop.is_none() ==> r != StepOutcome::Stopped,
            match r {
                StepOutcome::Sieved { processed, total } => {
                    &&& !old(self).finished()
                    &&& final(self).done_up_to() > old(self).done_up_to()
                    &&& processed == final(self).done_up_to() - final(self).min() + 1
                    &&& total == final(self).max() - final(self).min() + 1
                },
                StepOutcome::Finished => old(self).finished(),
                StepOutcome::Stopped => true,
            },
    {
        if self.next >= self.segments.len() {
            return StepOutcome::Finished;
        }
        let (low, high) = self.segments[self.next];
        let (mut window, complete) = sieve_window(self.base_primes.as_slice(), low, high, stop);
        if !complete {
            return StepOutcome::Stopped;
        }
        proof {
            lemma_primes_in_split(self.prime_min as int, low - 1, high as int);
        }
        self.found.append(&mut window);
        self.next = self.next + 1;
        StepOutcome::Sieved { processed: high - self.prime_min + 1, total: self.prime_max - self.prime_min + 1 }
    }

    /// Sieves the next window, stopping early when `stop_flag` is set.
    pub fn step(&mut self, stop_flag: &Arc<AtomicBool>) -> (r: StepOutcome)
        requires
            old(self).wf(),
        ensures
            final(self).wf(),
            final(self).min() == old(self).min(),
            final(self).max() == old(self).max(),
            old(self).finished() ==> r == StepOutcome::Finished && *final(self) == *old(self),
            r == StepOutcome::Stopped ==> *final(self) == *old(self),
            match r {
                StepOutcome::Sieved { processed, total } => {
                    &&& !old(self).finished()
                    &&& final(self).done_up_to() > old(self).done_up_to()
                    &&& processed == final(self).done_up_to() - final(self).min() + 1
                    &&& total == final(self).max() - final(self).min() + 1
                },
                StepOutcome::Finished => old(self).finished(),
                StepOutcome::Stopped => true,
            },
    {
        let flag: &AtomicBool = &**stop_flag;
        self.step_with(Some(flag))
    }

    /// The bounds of a run: `0 <= min <= max <= MAX_PRIME_LIMIT`, and the
    /// part sieved so far ends between `min - 1` and `max`, at `max` once the
    /// run is finished.
    pub proof fn lemma_run_bounds(&self)
        requires
            self.wf(),
        ensures
            0 <= self.min() <= self.max() <= MAX_PRIME_LIMIT,
            self.min() - 1 <= self.done_up_to() <= self.max(),
            self.finished() ==> self.done_up_to() == self.max(),
    {
        if self.next > 0 {
            assert(self.segments@[self.next - 1].1 <= self.prime_max);
            assert(self.prime_min <= self.segments@[self.next - 1].0);
        }
        if self.finished() {
            let size = choose|size: int| tiles(self.segments@, self.prime_min as int, self.prime_max as int, size);
            assert(tiles(self.segments@, self.prime_min as int, self.prime_max as int, size));
        }
    }

    /// The primes gathered so far, ascending: those of `[min, done_up_to]`.
    /// Each is a prime within `[min, max]`.
    pub fn primes(&self) -> (r: &Vec<u64>)
        requires
            self.wf(),
        ensures
            r@ == primes_in(self.min(), self.done_up_to()),
            forall|i: int| 0 <= i < r@.len() ==> self.min() <= #[trigger] r@[i] <= self.max() && is_prime(r@[i] as int),
            forall|i: int, j: int| 0 <= i < j < r@.len() ==> r@[i] < r@[j],
    {
        proof {
            self.lemma_run_bounds();
            lemma_primes_in_facts(self.min(), self.done_up_to());
        }
        &self.found
    }

    /// Whether every window has been sieved.
    pub fn is_finished(&self) -> (r: bool)
        requires
            self.wf(),
        ensures
            r == self.finished(),
            r ==> self.done_up_to() == self.max(),
    {
        self.next >= self.segments.len()
    }

    /// Ends the run and hands over the primes gathered: ascending primes
    /// within `[min, max]`.
    pub fn into_primes(self) -> (r: Vec<u64>)
        requires
            self.wf(),
        ensures
            r@ == primes_in(self.min(), self.done_up_to()),
            forall|i: int| 0 <= i < r@.len() ==> self.min() <= #[trigger] r@[i] <= self.max() && is_prime(r@[i] as int),
            forall|i: int, j: int| 0 <= i < j < r@.len() ==> r@[i] < r@[j],
    {
        proof {
            self.lemma_run_bounds();
            lemma_primes_in_facts(self.min(), self.done_up_to());
        }
        self.found
    }
}

/// All the primes of `[prime_min, prime_max]`, ascending, sieved in windows of
/// `segment_size` numbers; the result does not depend on the window size.
pub fn generate_primes(prime_min: u64, prime_max: u64, segment_size: u64) -> (r: Vec<u64>)
    requires
        prime_min <= prime_max <= MAX_PRIME_LIMIT,
        1 <= segment_size <= usize::MAX / 8,
    ensures
        r@ == primes_in(prime_min as int, prime_max as int),
{
    let mut g = PrimeGenerator::new(prime_min, prime_max, segment_size);
    loop
        invariant
            g.wf(),
            g.min() == prime_min,
            g.max() == prime_max,
        ensures
            g.wf(),
            g.finished(),
        decreases g.max() - g.done_up_to(),
    {
        let out = g.step_with(None);
        if out == StepOutcome::Finished {
            break;
        }
    }
    g.into_primes()
}

/// The primes of each window in turn, joined.
pub open spec fn primes_of_windows(segs: Seq<(u64, u64)>) -> Seq<u64>
    decreases segs.len(),
{
    if segs.len() == 0 {
        seq![]
    } else {
        primes_of_windows(segs.drop_last()) + primes_in(segs.last().0 as int, segs.last().1 as int)
    }
}

/// Sieving a range window by window and joining the results in window order
/// gives the primes of the whole range, whatever the window size.
pub proof fn lemma_windows_join(segs: Seq<(u64, u64)>, min: int, max: int, size: int)
    requires
        tiles(segs, min, max, size),
    ensures
        primes_of_windows(segs) == primes_in(min, max),
    decreases segs.len(),
{
    let last = segs.last();
    if segs.len() == 1 {
        assert(primes_of_windows(segs.drop_last()) =~= seq![]);
        assert(primes_of_windows(segs) =~= primes_in(min, max));
    } else {
        let rest = segs.drop_last();
        let mid = rest.last().1 as int;
        assert forall|i: int| 0 <= i < rest.len() implies #[trigger] rest[i].0 <= rest[i].1
            && rest[i].1 - rest[i].0 < size && min <= rest[i].0 && rest[i].1 <= mid by {
            assert(rest[i] == segs[i]);
            if i < rest.len() - 1 {
                lemma_window_order(segs, min, max, size, i, rest.len() - 1);
            }
        }
        assert forall|i: int| 0 <= i < rest.len() - 1 implies #[trigger] rest[i + 1].0 == rest[i].1
            + 1 && rest[i].1 - rest[i].0 + 1 == size by {
            assert(rest[i] == segs[i] && rest[i + 1] == segs[i + 1]);
        }
        lemma_windows_join(rest, min, mid, size);
        let k = segs.len() - 2;
        assert(segs[k + 1].0 == segs[k].1 + 1);
        lemma_primes_in_split(min, mid, max);
    }
}

/// In a tiling, a window ends before any later window ends.
proof fn lemma_window_order(segs: Seq<(u64, u64)>, min: int, max: int, size: int, i: int, j: int)
    requires
        tiles(segs, min, max, size),
        0 <= i < j < segs.len(),
    ensures
        segs[i].1 < segs[j].1,
    decreases j - i,
{
    assert(segs[i + 1].0 == segs[i].1 + 1);
    assert(segs[i + 1].0 <= segs[i + 1].1);
    if i + 1 < j {
        lemma_window_order(segs, min, max, size, i + 1, j);
    }
}

} // verus!
