//! Scans a range one integer at a time with the Baillie-PSW test, counting
//! the numbers found; one step per integer, so that the caller can report
//! each one and stop between steps.

use std::sync::Arc;
use std::sync::atomic::{AtomicBool, Ordering};
use vstd::prelude::*;
use crate::lucas::{bpsw_accepts, is_bpsw_prime_check};

verus! {

/// How many numbers of `[lo, hi]` the Baillie-PSW test accepts.
pub open spec fn accepted_count(lo: int, hi: int) -> nat
    decreases hi + 1 - lo,
{
    if hi < lo {
        0
    } else {
        accepted_count(lo, hi - 1) + if bpsw_accepts(hi) { 1nat } else { 0nat }
    }
}

proof fn lemma_accepted_count_bound(lo: int, hi: int)
    ensures
        accepted_count(lo, hi) <= if hi < lo { 0 } else { hi - lo + 1 },
    decreases hi + 1 - lo,
{
    if hi >= lo {
        lemma_accepted_count_bound(lo, hi - 1);
    }
}

/// What one step of a scan did.
#[derive(Clone, Copy, Debug, PartialEq, Eq, Structural)]
pub enum ScanEvent {
    /// `value` passed the test; it is the `index`-th found (from 1).
    Found { value: u64, index: u64 },
    /// `value` failed the test.
    Skipped { value: u64 },
    /// A stop was seen; nothing was scanned.
    Stopped,
    /// The whole range has been scanned.
    Finished,
}

/// A scan of `[low, high]` that has reached `next`.
pub struct RangeScanner {
    low: u64,
    high: u64,
    next: u64,
    finished: bool,
    found: u64,
}

impl RangeScanner {
    /// The lower bound of the scan.
    pub closed spec fn low(&self) -> int {
        self.low as int
    }

    /// The upper bound of the scan.
    pub closed spec fn high(&self) -> int {
        self.high as int
    }

    /// The last number scanned (`low - 1` before the first step).
    pub closed spec fn scanned_up_to(&self) -> int {
        if self.finished {
            self.high as int
        } else {
            self.next - 1
        }
    }

    /// How many numbers have been found so far.
    pub closed spec fn found_count(&self) -> nat {
        self.found as nat
    }

    /// Whether the whole range has been scanned.
    pub closed spec fn is_done(&self) -> bool {
        self.finished
    }

    /// The scan stays within its range and has counted exactly the numbers
    /// accepted so far.
    pub closed spec fn wf(&self) -> bool {
        &&& self.low <= self.high
        &&& self.finished || self.low <= self.next <= self.high
        &&& self.found == accepted_count(self.low as int, self.scanned_up_to())
    }

    /// A scan of `[low, high]` that has not started.
    pub fn new(low: u64, high: u64) -> (s: Self)
        requires
            low <= high,
        ensures
            s.wf(),
            s.low() == low,
            s.high() == high,
            s.scanned_up_to() == low - 1,
            s.found_count() == 0,
            !s.is_done(),
    {
        RangeScanner { low, high, next: low, finished: false, found: 0 }
    }

    /// Tests the next number, unless the scan is over or `stop` is set;
    /// without a flag an unfinished scan always tests the next number.
    pub fn step_with(&mut self, stop: Option<&AtomicBool>) -> (e: ScanEvent)
        requires
            old(self).wf(),
        ensures
            final(self).wf(),
            final(self).low() == old(self).low(),
            final(self).high() == old(self).high(),
            old(self).is_done() ==> e == ScanEvent::Finished && *final(self) == *old(self),
            e == ScanEvent::Stopped ==> *final(self) == *old(self),
            match e {
                ScanEvent::Found { value, index } => {
                    &&& value == old(self).scanned_up_to() + 1
                    &&& bpsw_accepts(value as int)
                    &&& index == final(self).found_count()
                    &&& final(self).found_count() == old(self).found_count() + 1
                    &&& final(self).scanned_up_to() == value
                },
                ScanEvent::Skipped { value } => {
                    &&& value == old(self).scanned_up_to() + 1
                    &&& !bpsw_accepts(value as int)
                    &&& final(self).found_count() == old(self).found_count()
                    &&& final(self).scanned_up_to() == value
                },
                ScanEvent::Finished => old(self).is_done(),
                ScanEvent::Stopped => true,
            },
            stop.is_none() ==> e != ScanEvent::Stopped,
            final(self).is_done() <==> final(self).scanned_up_to() == final(self).high(),
    {
        if self.finished {
            return ScanEvent::Finished;
        }
        let stopped = match stop {
            Some(flag) => flag.load(Ordering::SeqCst),
            None => false,
        };
        if stopped {
            return ScanEvent::Stopped;
        }
        let value: u64 = self.next;
        let accepted = is_bpsw_prime_check(value);
        proof {
            lemma_accepted_count_bound(self.low as int, value as int);
        }
        if value == self.high {
            self.finished = true;
        } else {
            self.next = value + 1;
        }
        if accepted {
            self.found = self.found + 1;
            ScanEvent::Found { value, index: self.found }
        } else {
            ScanEvent::Skipped { value }
        }
    }

    /// Tests the next number, unless the scan is over or `stop_flag` is set.
    pub fn step(&mut self, stop_flag: &Arc<AtomicBool>) -> (e: ScanEvent)
        requires
            old(self).wf(),
        ensures
            final(self).wf(),
            final(self).low() == old(self).low(),
            final(self).high() == old(self).high(),
            old(self).is_done() ==> e == ScanEvent::Finished && *final(self) == *old(self),
            e == ScanEvent::Stopped ==> *final(self) == *old(self),
            match e {
                ScanEvent::Found { value, index } => {
                    &&& value == old(self).scanned_up_to() + 1
                    &&& bpsw_accepts(value as int)
                    &&& index == final(self).found_count()
                    &&& final(self).found_count() == old(self).found_count() + 1
                    &&& final(self).scanned_up_to() == value
                },
                ScanEvent::Skipped { value } => {
                    &&& value == old(self).scanned_up_to() + 1
                    &&& !bpsw_accepts(value as int)
                    &&& final(self).found_count() == old(self).found_count()
                    &&& final(self).scanned_up_to() == value
                },
                ScanEvent::Finished => old(self).is_done(),
                ScanEvent::Stopped => true,
            },
            final(self).is_done() <==> final(self).scanned_up_to() == final(self).high(),
    {
        let flag: &AtomicBool = &**stop_flag;
        self.step_with(Some(flag))
    }

    /// How many numbers have been found so far.
    pub fn found(&self) -> (r: u64)
        requires
            self.wf(),
        ensures
            r == self.found_count(),
    {
        self.found
    }

    /// Whether the whole range has been scanned.
    pub fn is_finished(&self) -> (r: bool)
        requires
            self.wf(),
        ensures
            r == self.is_done(),
    {
        self.finished
    }
}

} // verus!
