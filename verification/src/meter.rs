//! Level metering: the peak of what is being played or recorded.
//!
//! A meter is polled far more slowly than the audio callback fires. So a cell keeps the largest peak
//! that it was given, and a poll reads and resets it: every poll gets the true peak of everything
//! since the previous one.

use vstd::prelude::*;
use crate::edit::{is_peak, peak};
use crate::sample::{finite, law_order_is_numeric, value, INFINITY};

verus! {

/// The largest magnitude of `samples`, or zero for an empty buffer. What is no number is passed
/// over. A peak above full scale is reported as it is, so that clipping shows.
pub fn buffer_peak(samples: &[u32]) -> (r: u32)
    ensures
        is_peak(samples@, r),
{
    peak(samples)
}

/// `v` encodes a finite number above zero.
pub open spec fn is_level(v: u32) -> bool {
    0 < v < INFINITY
}

/// The peak `cur` after `peak` was recorded. What is no level is ignored.
pub open spec fn raised(cur: u32, peak: u32) -> u32 {
    if is_level(peak) && peak > cur {
        peak
    } else {
        cur
    }
}

/// The peak `cur` after `peak` was recorded: the larger one, where `peak` is finite and above zero.
pub fn raise(cur: u32, peak: u32) -> (r: u32)
    ensures
        r == raised(cur, peak),
{
    if 0 < peak && peak < INFINITY && peak > cur {
        peak
    } else {
        cur
    }
}

/// A cell with the peak since it was last read.
#[derive(Debug)]
pub struct PeakCell {
    bits: u32,
}

impl PeakCell {
    /// The peak that the cell holds.
    pub closed spec fn held(self) -> u32 {
        self.bits
    }

    /// The cell holds zero or a level.
    pub closed spec fn wf(self) -> bool {
        self.bits == 0 || is_level(self.bits)
    }

    /// A cell that holds zero.
    pub fn new() -> (r: PeakCell)
        ensures
            r.wf(),
            r.held() == 0,
    {
        PeakCell { bits: 0 }
    }

    /// Folds `peak` into the running maximum. What is not finite or not above zero is ignored, so
    /// that a bad sample cannot peg the meter.
    pub fn record(&mut self, peak: u32)
        requires
            old(self).wf(),
        ensures
            final(self).wf(),
            final(self).held() == raised(old(self).held(), peak),
    {
        self.bits = raise(self.bits, peak);
    }

    /// The peak since the last `take`; the cell is reset to zero.
    pub fn take(&mut self) -> (r: u32)
        ensures
            r == old(self).held(),
            final(self).wf(),
            final(self).held() == 0,
    {
        let r: u32 = self.bits;
        self.bits = 0;
        r
    }

    /// The peak without a reset.
    pub fn peek(&self) -> (r: u32)
        ensures
            r == self.held(),
    {
        self.bits
    }
}

impl Default for PeakCell {
    fn default() -> (r: PeakCell)
        ensures
            r.wf(),
            r.held() == 0,
    {
        PeakCell::new()
    }
}

/// What a cell holds after `peaks` were recorded, one after the other, since it held zero.
pub open spec fn raised_by(peaks: Seq<u32>) -> u32
    decreases peaks.len(),
{
    if peaks.len() == 0 {
        0
    } else {
        raised(raised_by(peaks.drop_last()), peaks.last())
    }
}

/// A poll reads the largest level recorded since the previous poll, or zero where there was none.
pub proof fn law_a_poll_reads_the_largest_level(peaks: Seq<u32>)
    ensures
        forall|i: int| 0 <= i < peaks.len() && is_level(#[trigger] peaks[i]) ==> peaks[i] <= raised_by(peaks),
        raised_by(peaks) == 0 || exists|i: int|
            0 <= i < peaks.len() && is_level(#[trigger] peaks[i]) && peaks[i] == raised_by(peaks),
    decreases peaks.len(),
{
    if peaks.len() > 0 {
        let rest = peaks.drop_last();
        law_a_poll_reads_the_largest_level(rest);
        assert forall|i: int| 0 <= i < peaks.len() && is_level(#[trigger] peaks[i]) implies peaks[i] <= raised_by(
            peaks,
        ) by {
            if i < rest.len() {
                assert(rest[i] == peaks[i]);
            }
        }
        if raised_by(peaks) != 0 {
            if raised_by(peaks) == raised_by(rest) {
                let i = choose|i: int|
                    0 <= i < rest.len() && is_level(#[trigger] rest[i]) && rest[i] == raised_by(rest);
                assert(peaks[i] == rest[i]);
            } else {
                assert(peaks[peaks.len() - 1] == raised_by(peaks));
            }
        }
    }
}

/// A poll reads the loudest level since the previous one. `held` is what the cell holds before and after
/// each recorded peak, from a reset on. No peak that is finite and above zero is louder than what a poll
/// reads then, and that is one of them, or zero where there is none.
pub proof fn law_a_poll_reads_the_loudest(held: Seq<u32>, peaks: Seq<u32>)
    requires
        held.len() == peaks.len() + 1,
        held[0] == 0,
        forall|i: int| 0 <= i < peaks.len() ==> held[i + 1] == raised(held[i], #[trigger] peaks[i]),
    ensures
        forall|i: int|
            0 <= i < peaks.len() && finite(#[trigger] peaks[i]) && value(peaks[i]) > 0 ==> value(peaks[i]) <= value(
                held.last(),
            ),
        held.last() == 0 || exists|i: int|
            {
                &&& 0 <= i < peaks.len()
                &&& finite(#[trigger] peaks[i])
                &&& value(peaks[i]) > 0
                &&& peaks[i] == held.last()
            },
        held.last() < 0x7f80_0000,
    decreases peaks.len(),
{
    if peaks.len() > 0 {
        let rest = peaks.drop_last();
        let k = peaks.len() - 1;
        assert forall|i: int| 0 <= i < rest.len() implies held.drop_last()[i + 1] == raised(
            held.drop_last()[i],
            #[trigger] rest[i],
        ) by {
            assert(rest[i] == peaks[i]);
        }
        law_a_poll_reads_the_loudest(held.drop_last(), rest);
        let cur = held.drop_last().last();
        assert(cur == held[k]);
        assert(held[k + 1] == raised(cur, peaks[k]));
        law_order_is_numeric(0, 0);
        if finite(peaks[k]) {
            law_order_is_numeric(peaks[k], cur);
            law_order_is_numeric(cur, peaks[k]);
        }
        assert forall|i: int| 0 <= i < peaks.len() && finite(#[trigger] peaks[i]) && value(peaks[i]) > 0 implies value(
            peaks[i],
        ) <= value(held.last()) by {
            if i < k {
                assert(rest[i] == peaks[i]);
            }
        }
        if held.last() != 0 {
            if held.last() == cur {
                let i = choose|i: int|
                    {
                        &&& 0 <= i < rest.len()
                        &&& finite(#[trigger] rest[i])
                        &&& value(rest[i]) > 0
                        &&& rest[i] == cur
                    };
                assert(rest[i] == peaks[i]);
            } else {
                assert(peaks[k] == held.last());
            }
        }
    }
}

} // verus!
