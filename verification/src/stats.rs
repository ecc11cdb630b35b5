//! Derived range statistics: the numbers shown in a statistics panel.
//!
//! Peak is the largest absolute sample, RMS the root of the mean square, the DC offset the mean,
//! and the frequency half the zero crossings per second. Quotients and roots are double-precision
//! patterns that the [`Units`] handed in compute.

use vstd::prelude::*;
use crate::agg::{first_max, first_min, law_extremes_are_the_numeric_ones, Agg};
use crate::sample::{
    abs, is_nan, larger, law_order_is_numeric, law_the_larger_encodes_the_larger, law_the_magnitude_is_the_absolute_value, less, magnitude, max, value,
};

verus! {

/// The double-precision pattern of positive infinity. What lies above it without the sign bit is
/// not a number.
pub const WIDE_INFINITY: u64 = 0x7ff0_0000_0000_0000;

/// The double-precision pattern of one.
pub const WIDE_ONE: u64 = 0x3ff0_0000_0000_0000;

/// The double-precision pattern of negative infinity.
pub const WIDE_NEG_INFINITY: u64 = 0xfff0_0000_0000_0000;

/// The double-precision pattern of negative zero.
pub const WIDE_SIGN_BIT: u64 = 0x8000_0000_0000_0000;

/// `x` encodes a number above zero.
pub open spec fn wide_positive(x: u64) -> bool {
    0 < x <= WIDE_INFINITY
}

/// `x` encodes a number that is not above zero.
pub open spec fn wide_not_positive(x: u64) -> bool {
    x == 0 || WIDE_SIGN_BIT <= x <= WIDE_NEG_INFINITY
}

/// Double-precision arithmetic for the statistics.
pub struct Units<S, M, R, F> {
    /// A number of samples over a sampling rate.
    pub seconds: S,
    /// An accumulator over a number of samples.
    pub mean: M,
    /// The square root.
    pub root: R,
    /// A number of zero crossings over twice a duration.
    pub frequency: F,
}

impl<S: Fn(u64, u32) -> u64, M: Fn(u64, u64) -> u64, R: Fn(u64) -> u64, F: Fn(u64, u64) -> u64> Units<S, M, R, F> {
    /// Every operation is defined on every pattern.
    pub open spec fn total(self) -> bool {
        &&& forall|n: u64, rate: u32| #[trigger] call_requires(self.seconds, (n, rate))
        &&& forall|x: u64, n: u64| #[trigger] call_requires(self.mean, (x, n))
        &&& forall|x: u64| #[trigger] call_requires(self.root, (x,))
        &&& forall|n: u64, d: u64| #[trigger] call_requires(self.frequency, (n, d))
    }

    /// `r` is the root of the mean of `x` over `n`.
    pub open spec fn root_mean(self, x: u64, n: u64, r: u64) -> bool {
        exists|m: u64| #[trigger] call_ensures(self.mean, (x, n), m) && call_ensures(self.root, (m,), r)
    }
}

/// Everything a statistics panel shows of a selection, in linear units. Times, levels and the
/// frequency are double-precision patterns; samples are single-precision patterns.
#[derive(Debug, Clone, Copy, PartialEq, Eq, Structural)]
pub struct RangeStats {
    /// Number of samples in the selection.
    pub n: u64,
    /// Duration of the selection in seconds.
    pub duration_s: u64,
    /// Start time of the selection in seconds.
    pub start_s: u64,
    /// Largest absolute sample.
    pub peak: u32,
    /// Minimum sample.
    pub min: u32,
    /// Time of the first occurrence of `min` in seconds.
    pub min_pos_s: u64,
    /// Maximum sample.
    pub max: u32,
    /// Time of the first occurrence of `max` in seconds.
    pub max_pos_s: u64,
    /// RMS level.
    pub rms: u64,
    /// DC offset.
    pub dc: u64,
    /// Number of zero crossings in the selection.
    pub zero_crossings: u64,
    /// Zero-crossing frequency estimate in Hz.
    pub freq_hz: u64,
}

/// The peak that an aggregate shows: the larger of the magnitudes of its extremes.
pub open spec fn peak_of(agg: Agg) -> u32 {
    larger(magnitude(agg.min) as u32, magnitude(agg.max) as u32)
}

impl RangeStats {
    /// The statistics of `agg` over a selection that starts at `start`.
    pub open spec fn derives<
        S: Fn(u64, u32) -> u64,
        M: Fn(u64, u64) -> u64,
        R: Fn(u64) -> u64,
        F: Fn(u64, u64) -> u64,
    >(self, agg: Agg, start: u64, sample_rate: u32, units: Units<S, M, R, F>) -> bool {
        &&& self.n == agg.n
        &&& if agg.n == 0 {
            self == (RangeStats {
                n: 0,
                duration_s: 0,
                start_s: 0,
                peak: 0,
                min: 0,
                min_pos_s: 0,
                max: 0,
                max_pos_s: 0,
                rms: 0,
                dc: 0,
                zero_crossings: 0,
                freq_hz: 0,
            })
        } else {
            &&& call_ensures(units.seconds, (agg.n, sample_rate), self.duration_s)
            &&& call_ensures(units.seconds, (start, sample_rate), self.start_s)
            &&& self.peak == peak_of(agg)
            &&& self.min == agg.min
            &&& call_ensures(units.seconds, (agg.min_pos, sample_rate), self.min_pos_s)
            &&& self.max == agg.max
            &&& call_ensures(units.seconds, (agg.max_pos, sample_rate), self.max_pos_s)
            &&& units.root_mean(agg.sum_sq, agg.n, self.rms)
            &&& call_ensures(units.mean, (agg.sum, agg.n), self.dc)
            &&& self.zero_crossings == agg.zero_crossings
            &&& if wide_positive(self.duration_s) {
                call_ensures(units.frequency, (agg.zero_crossings, self.duration_s), self.freq_hz)
            } else {
                self.freq_hz == 0
            }
        }
    }

    /// Derives the statistics of an aggregate over a selection that starts at sample `start`. An
    /// empty selection has zero for everything.
    pub fn from_agg<
        S: Fn(u64, u32) -> u64,
        M: Fn(u64, u64) -> u64,
        R: Fn(u64) -> u64,
        F: Fn(u64, u64) -> u64,
    >(agg: &Agg, start: u64, sample_rate: u32, units: &Units<S, M, R, F>) -> (r: Self)
        requires
            units.total(),
        ensures
            r.derives(*agg, start, sample_rate, *units),
    {
        if agg.n == 0 {
            return RangeStats {
                n: 0,
                duration_s: 0,
                start_s: 0,
                peak: 0,
                min: 0,
                min_pos_s: 0,
                max: 0,
                max_pos_s: 0,
                rms: 0,
                dc: 0,
                zero_crossings: 0,
                freq_hz: 0,
            };
        }
        let duration_s: u64 = (units.seconds)(agg.n, sample_rate);
        let start_s: u64 = (units.seconds)(start, sample_rate);
        let peak: u32 = max(abs(agg.min), abs(agg.max));
        let mean_sq: u64 = (units.mean)(agg.sum_sq, agg.n);
        let rms: u64 = (units.root)(mean_sq);
        let dc: u64 = (units.mean)(agg.sum, agg.n);
        let freq_hz: u64 = if 0 < duration_s && duration_s <= WIDE_INFINITY {
            (units.frequency)(agg.zero_crossings, duration_s)
        } else {
            0
        };
        RangeStats {
            n: agg.n,
            duration_s,
            start_s,
            peak,
            min: agg.min,
            min_pos_s: (units.seconds)(agg.min_pos, sample_rate),
            max: agg.max,
            max_pos_s: (units.seconds)(agg.max_pos, sample_rate),
            rms,
            dc,
            zero_crossings: agg.zero_crossings,
            freq_hz,
        }
    }
}

/// A linear amplitude in decibels. What is not above zero is negative infinity; for the rest
/// `level` computes twenty times the decimal logarithm.
pub fn linear_to_db<G: Fn(u64) -> u64>(x: u64, level: G) -> (r: u64)
    requires
        !wide_not_positive(x) ==> call_requires(level, (x,)),
    ensures
        wide_not_positive(x) ==> r == WIDE_NEG_INFINITY,
        !wide_not_positive(x) ==> call_ensures(level, (x,), r),
{
    if x == 0 || (WIDE_SIGN_BIT <= x && x <= WIDE_NEG_INFINITY) {
        WIDE_NEG_INFINITY
    } else {
        level(x)
    }
}

/// The peak of a run that holds a number is the largest magnitude of its numbers.
pub proof fn law_peak_is_the_largest_magnitude(agg: Agg, s: Seq<u32>, base: int)
    requires
        agg.describes(s, base),
        exists|j: int| 0 <= j < s.len() && !is_nan(#[trigger] s[j]),
    ensures
        forall|j: int| 0 <= j < s.len() && !is_nan(#[trigger] s[j]) ==> magnitude(s[j]) <= peak_of(agg),
        exists|j: int| 0 <= j < s.len() && !is_nan(#[trigger] s[j]) && magnitude(s[j]) == peak_of(agg),
{
    let k = choose|j: int| 0 <= j < s.len() && !is_nan(#[trigger] s[j]);
    assert(!less(s[k], agg.min) && !less(agg.max, s[k]));
    if magnitude(agg.min) >= magnitude(agg.max) {
        if exists|i: int| #[trigger] first_min(s, i) && agg.min == s[i] {
            let i = choose|i: int| #[trigger] first_min(s, i) && agg.min == s[i];
            assert(magnitude(s[i]) == peak_of(agg));
        } else {
            assert(magnitude(s[k]) == peak_of(agg));
        }
    } else {
        let i = choose|i: int| #[trigger] first_max(s, i) && agg.max == s[i];
        assert(magnitude(s[i]) == peak_of(agg));
    }
}

/// What a statistics panel shows of a selection is what its samples `s` are. Duration and start are in
/// seconds, the offset is the mean of the sum, the level the root of the mean of the sum of squares, and
/// the frequency that of the crossings over the duration, where that is above zero. Each extreme is
/// shown with the time of its own position, and the peak is as far from zero as the further of them.
pub proof fn law_statistics_are_those_of_the_samples<
    S: Fn(u64, u32) -> u64,
    M: Fn(u64, u64) -> u64,
    R: Fn(u64) -> u64,
    F: Fn(u64, u64) -> u64,
>(
    stats: RangeStats,
    agg: Agg,
    s: Seq<u32>,
    base: int,
    start: u64,
    rate: u32,
    units: Units<S, M, R, F>,
)
    requires
        s.len() > 0,
        agg.describes(s, base),
        stats.derives(agg, start, rate, units),
    ensures
        stats.n == s.len(),
        call_ensures(units.seconds, (s.len() as u64, rate), stats.duration_s),
        call_ensures(units.seconds, (start, rate), stats.start_s),
        stats.min == agg.min,
        call_ensures(units.seconds, (agg.min_pos, rate), stats.min_pos_s),
        stats.max == agg.max,
        call_ensures(units.seconds, (agg.max_pos, rate), stats.max_pos_s),
        -value(stats.peak) <= value(agg.min) <= value(stats.peak),
        -value(stats.peak) <= value(agg.max) <= value(stats.peak),
        value(stats.peak) == value(agg.min) || value(stats.peak) == -value(agg.min) || value(stats.peak) == value(agg.max)
            || value(stats.peak) == -value(agg.max),
        exists|m: u64| #[trigger]
            call_ensures(units.mean, (agg.sum_sq, s.len() as u64), m) && call_ensures(units.root, (m,), stats.rms),
        call_ensures(units.mean, (agg.sum, s.len() as u64), stats.dc),
        stats.zero_crossings == agg.zero_crossings,
        0 < stats.duration_s <= 0x7ff0_0000_0000_0000 ==> call_ensures(
            units.frequency,
            (stats.zero_crossings, stats.duration_s),
            stats.freq_hz,
        ),
        !(0 < stats.duration_s <= 0x7ff0_0000_0000_0000) ==> stats.freq_hz == 0,
{
    law_the_magnitude_is_the_absolute_value(agg.min);
    law_the_magnitude_is_the_absolute_value(agg.max);
    law_the_larger_encodes_the_larger(magnitude(agg.min) as u32, magnitude(agg.max) as u32);
}

/// The minimum is shown at its time: where sample `i` is the first of the smallest numbers of a run that
/// starts at `base`, its value is the minimum, and the time is that of `base + i`.
pub proof fn law_the_minimum_is_shown_at_its_time<
    S: Fn(u64, u32) -> u64,
    M: Fn(u64, u64) -> u64,
    R: Fn(u64) -> u64,
    F: Fn(u64, u64) -> u64,
>(
    stats: RangeStats,
    agg: Agg,
    s: Seq<u32>,
    base: int,
    start: u64,
    rate: u32,
    units: Units<S, M, R, F>,
    i: int,
)
    requires
        agg.describes(s, base),
        stats.derives(agg, start, rate, units),
        0 <= i < s.len(),
        !is_nan(s[i]),
        value(s[i]) < value(0x7f80_0000),
        forall|j: int| 0 <= j < s.len() && !is_nan(#[trigger] s[j]) ==> value(s[i]) <= value(s[j]),
        forall|j: int| 0 <= j < i && !is_nan(#[trigger] s[j]) ==> value(s[i]) < value(s[j]),
    ensures
        stats.min == s[i],
        0 <= base + i <= u64::MAX,
        call_ensures(units.seconds, ((base + i) as u64, rate), stats.min_pos_s),
{
    law_extremes_are_the_numeric_ones(agg, s, base);
    let at = agg.min_pos - base;
    assert(s[at] == agg.min);
    if at < i {
        assert(value(s[i]) < value(s[at]));
    }
    assert(at == i);
}

/// The maximum is shown at its time: where sample `i` is the first of the largest numbers of a run that
/// starts at `base`, its value is the maximum, and the time is that of `base + i`.
pub proof fn law_the_maximum_is_shown_at_its_time<
    S: Fn(u64, u32) -> u64,
    M: Fn(u64, u64) -> u64,
    R: Fn(u64) -> u64,
    F: Fn(u64, u64) -> u64,
>(
    stats: RangeStats,
    agg: Agg,
    s: Seq<u32>,
    base: int,
    start: u64,
    rate: u32,
    units: Units<S, M, R, F>,
    i: int,
)
    requires
        agg.describes(s, base),
        stats.derives(agg, start, rate, units),
        0 <= i < s.len(),
        !is_nan(s[i]),
        value(s[i]) > value(0xff80_0000),
        forall|j: int| 0 <= j < s.len() && !is_nan(#[trigger] s[j]) ==> value(s[j]) <= value(s[i]),
        forall|j: int| 0 <= j < i && !is_nan(#[trigger] s[j]) ==> value(s[j]) < value(s[i]),
    ensures
        stats.max == s[i],
        0 <= base + i <= u64::MAX,
        call_ensures(units.seconds, ((base + i) as u64, rate), stats.max_pos_s),
{
    law_extremes_are_the_numeric_ones(agg, s, base);
    let at = agg.max_pos - base;
    assert(s[at] == agg.max);
    if at < i {
        assert(value(s[at]) < value(s[i]));
    }
    assert(at == i);
}

/// The peak is the largest absolute value: no number of the run is further from zero, and one is as
/// far.
pub proof fn law_the_peak_is_the_largest_absolute_value<
    S: Fn(u64, u32) -> u64,
    M: Fn(u64, u64) -> u64,
    R: Fn(u64) -> u64,
    F: Fn(u64, u64) -> u64,
>(
    stats: RangeStats,
    agg: Agg,
    s: Seq<u32>,
    base: int,
    start: u64,
    rate: u32,
    units: Units<S, M, R, F>,
)
    requires
        agg.describes(s, base),
        stats.derives(agg, start, rate, units),
        exists|j: int| 0 <= j < s.len() && !is_nan(#[trigger] s[j]),
    ensures
        stats.peak < 0x8000_0000,
        forall|j: int|
            0 <= j < s.len() && !is_nan(#[trigger] s[j]) ==> -value(stats.peak) <= value(s[j]) <= value(stats.peak),
        exists|j: int|
            {
                &&& 0 <= j < s.len()
                &&& !is_nan(#[trigger] s[j])
                &&& value(s[j]) == value(stats.peak) || value(s[j]) == -value(stats.peak)
            },
{
    law_peak_is_the_largest_magnitude(agg, s, base);
    let j = choose|j: int| 0 <= j < s.len() && !is_nan(#[trigger] s[j]) && magnitude(s[j]) == peak_of(agg);
    law_the_magnitude_is_the_absolute_value(s[j]);
    assert forall|m: int| 0 <= m < s.len() && !is_nan(#[trigger] s[m]) implies -value(stats.peak) <= value(s[m])
        <= value(stats.peak) by {
        law_the_magnitude_is_the_absolute_value(s[m]);
        law_order_is_numeric(stats.peak, magnitude(s[m]) as u32);
    }
}

/// An empty selection shows nothing but zeros.
pub proof fn law_an_empty_selection_is_all_zeros<
    S: Fn(u64, u32) -> u64,
    M: Fn(u64, u64) -> u64,
    R: Fn(u64) -> u64,
    F: Fn(u64, u64) -> u64,
>(stats: RangeStats, agg: Agg, base: int, start: u64, rate: u32, units: Units<S, M, R, F>)
    requires
        agg.describes(Seq::empty(), base),
        stats.derives(agg, start, rate, units),
    ensures
        stats.n == 0,
        stats.duration_s == 0,
        stats.start_s == 0,
        stats.peak == 0,
        stats.min == 0,
        stats.min_pos_s == 0,
        stats.max == 0,
        stats.max_pos_s == 0,
        stats.rms == 0,
        stats.dc == 0,
        stats.zero_crossings == 0,
        stats.freq_hz == 0,
{
}

/// Only what is above zero has a level in decibels: zero of either sign and every negative number down
/// to infinity has none, and nothing else lacks it.
pub proof fn law_a_level_needs_a_positive_amplitude(x: u64)
    ensures
        wide_not_positive(x) <==> x % 0x8000_0000_0000_0000 == 0 || (x / 0x8000_0000_0000_0000 == 1 && x
            % 0x8000_0000_0000_0000 <= 0x7ff0_0000_0000_0000),
        wide_positive(x) ==> !wide_not_positive(x),
{
}

} // verus!
