//! Edit operations on samples: normalize, fade in and out, silence.
//!
//! Each works in place on the slice it is given and knows nothing of documents or channels.
//! Single-precision products and quotients are computed by the [`Scale`] handed in.
//!
//! These change samples and not their number, so a pyramid over them goes stale unnoticed: build
//! it anew for every channel that is edited.

use vstd::prelude::*;
use crate::sample::{
    abs, finite, is_nan, law_order_is_numeric, law_the_magnitude_is_the_absolute_value, less, lt, magnitude, max, value, INFINITY,
    ONE,
};

verus! {

/// Single-precision arithmetic on bit patterns.
pub struct Scale<M, D, R, F> {
    /// The product of a sample and a gain.
    pub times: M,
    /// The quotient of two samples.
    pub over: D,
    /// The gain at step `i` of a ramp from zero to one in `last` steps.
    pub rise: R,
    /// The gain at step `i` of a ramp from one to zero in `last` steps.
    pub fall: F,
}

impl<
    M: Fn(u32, u32) -> u32,
    D: Fn(u32, u32) -> u32,
    R: Fn(usize, usize) -> u32,
    F: Fn(usize, usize) -> u32,
> Scale<M, D, R, F> {
    /// Every operation is defined on every pattern, the ramps on every step.
    pub open spec fn total(self) -> bool {
        &&& forall|x: u32, g: u32| #[trigger] call_requires(self.times, (x, g))
        &&& forall|x: u32, y: u32| #[trigger] call_requires(self.over, (x, y))
        &&& forall|i: usize, last: usize| i <= last && last > 0 ==> #[trigger] call_requires(self.rise, (i, last))
        &&& forall|i: usize, last: usize| i <= last && last > 0 ==> #[trigger] call_requires(self.fall, (i, last))
    }

    /// `y` is `x` scaled by the gain at step `i` of a ramp.
    pub open spec fn ramps(self, rising: bool, x: u32, i: usize, last: usize, y: u32) -> bool {
        exists|g: u32| #[trigger]
            self.gain_at(rising, i, last, g) && call_ensures(self.times, (x, g), y)
    }

    /// `g` is the gain at step `i` of a ramp.
    pub open spec fn gain_at(self, rising: bool, i: usize, last: usize, g: u32) -> bool {
        if rising {
            call_ensures(self.rise, (i, last), g)
        } else {
            call_ensures(self.fall, (i, last), g)
        }
    }

    /// `r` is a gain that lifts `peak` to `target`: their quotient. There is none where the peak is
    /// zero or not finite, the target is not above zero, or the quotient overflows; then it is one.
    /// Towards an infinite target it is infinite.
    pub open spec fn gain(self, peak: u32, target: u32, r: u32) -> bool {
        if magnitude(peak) == 0 || !finite(peak) || !less(0, target) {
            r == ONE
        } else {
            exists|q: u32| #[trigger]
                self.divides(target, peak, q) && r == (if finite(q) || !finite(target) {
                    q
                } else {
                    ONE
                })
        }
    }

    /// `q` is the quotient of `target` and `peak`.
    pub open spec fn divides(self, target: u32, peak: u32, q: u32) -> bool {
        call_ensures(self.over, (target, peak), q)
    }

    /// `t` is `s` with every sample multiplied by `gain`.
    pub open spec fn scaled(self, s: Seq<u32>, gain: u32, t: Seq<u32>) -> bool {
        &&& t.len() == s.len()
        &&& forall|i: int| 0 <= i < s.len() ==> call_ensures(self.times, (s[i], gain), #[trigger] t[i])
    }

    /// `t` is `s` faded linearly over its whole length. Fewer than two samples stay as they are.
    pub open spec fn faded(self, rising: bool, s: Seq<u32>, t: Seq<u32>) -> bool {
        &&& t.len() == s.len()
        &&& s.len() < 2 ==> t == s
        &&& s.len() >= 2 ==> forall|i: int|
            0 <= i < s.len() ==> self.ramps(rising, s[i], i as usize, (s.len() - 1) as usize, #[trigger] t[i])
    }
}

/// `p` is the largest magnitude of the numbers in `s`, or zero where there is none.
pub open spec fn is_peak(s: Seq<u32>, p: u32) -> bool {
    &&& p <= INFINITY
    &&& forall|j: int| 0 <= j < s.len() && !is_nan(#[trigger] s[j]) ==> magnitude(s[j]) <= p
    &&& p > 0 ==> exists|j: int| 0 <= j < s.len() && #[trigger] magnitude(s[j]) == p
}

/// A buffer has one peak.
pub proof fn law_peak_is_unique(s: Seq<u32>, p: u32, q: u32)
    requires
        is_peak(s, p),
        is_peak(s, q),
    ensures
        p == q,
{
    if p > 0 {
        let j = choose|j: int| 0 <= j < s.len() && #[trigger] magnitude(s[j]) == p;
        assert(!is_nan(s[j]));
    }
    if q > 0 {
        let j = choose|j: int| 0 <= j < s.len() && #[trigger] magnitude(s[j]) == q;
        assert(!is_nan(s[j]));
    }
}

/// The loudest absolute sample, or zero for an empty slice.
pub fn peak(samples: &[u32]) -> (r: u32)
    ensures
        is_peak(samples@, r),
{
    let mut m: u32 = 0;
    let mut i: usize = 0;
    while i < samples.len()
        invariant
            i <= samples@.len(),
            is_peak(samples@.take(i as int), m),
        decreases samples@.len() - i,
    {
        let ghost before = samples@.take(i as int);
        let ghost after = samples@.take(i + 1);
        let ghost was = m;
        m = max(m, abs(samples[i]));
        proof {
            assert(after =~= before.push(samples@[i as int]));
            assert forall|j: int| 0 <= j < after.len() && !is_nan(#[trigger] after[j]) implies magnitude(after[j]) <= m by {
                if j < i {
                    assert(before[j] == after[j]);
                }
            }
            if m > 0 {
                if m == was {
                    let j = choose|j: int| 0 <= j < before.len() && #[trigger] magnitude(before[j]) == was;
                    assert(magnitude(after[j]) == m);
                } else {
                    assert(magnitude(after[i as int]) == m);
                }
            }
        }
        i = i + 1;
    }
    proof {
        assert(samples@.take(samples@.len() as int) =~= samples@);
    }
    m
}

/// The gain that lifts `peak` to `target_peak`, or one where there is no such gain.
///
/// It is apart from applying it because a selection of several channels is normalized with one
/// gain for all of them: each channel with its own would shift the stereo image.
pub fn gain_for<
    M: Fn(u32, u32) -> u32,
    D: Fn(u32, u32) -> u32,
    R: Fn(usize, usize) -> u32,
    F: Fn(usize, usize) -> u32,
>(peak: u32, target_peak: u32, scale: &Scale<M, D, R, F>) -> (r: u32)
    requires
        scale.total(),
    ensures
        scale.gain(peak, target_peak, r),
{
    let m: u32 = abs(peak);
    if m == 0 || m >= INFINITY || !lt(0, target_peak) {
        ONE
    } else {
        let q: u32 = (scale.over)(target_peak, peak);
        proof {
            assert(scale.divides(target_peak, peak, q));
        }
        if abs(q) < INFINITY || abs(target_peak) >= INFINITY {
            q
        } else {
            ONE
        }
    }
}

/// Multiplies every sample by `gain`.
pub fn apply_gain<
    M: Fn(u32, u32) -> u32,
    D: Fn(u32, u32) -> u32,
    R: Fn(usize, usize) -> u32,
    F: Fn(usize, usize) -> u32,
>(samples: &mut [u32], gain: u32, scale: &Scale<M, D, R, F>)
    requires
        scale.total(),
    ensures
        scale.scaled(old(samples)@, gain, final(samples)@),
{
    let mut i: usize = 0;
    let ghost before = samples@;
    while i < samples.len()
        invariant
            scale.total(),
            i <= samples@.len(),
            samples@.len() == before.len(),
            forall|j: int| 0 <= j < i ==> call_ensures(scale.times, (before[j], gain), #[trigger] samples@[j]),
            forall|j: int| i <= j < before.len() ==> #[trigger] samples@[j] == before[j],
        decreases samples@.len() - i,
    {
        samples[i] = (scale.times)(samples[i], gain);
        i = i + 1;
    }
}

/// Scales a single buffer so that its loudest sample reaches `target_peak`, and returns the gain.
pub fn normalize<
    M: Fn(u32, u32) -> u32,
    D: Fn(u32, u32) -> u32,
    R: Fn(usize, usize) -> u32,
    F: Fn(usize, usize) -> u32,
>(samples: &mut [u32], target_peak: u32, scale: &Scale<M, D, R, F>) -> (gain: u32)
    requires
        scale.total(),
    ensures
        exists|p: u32| #[trigger] is_peak(old(samples)@, p) && scale.gain(p, target_peak, gain),
        scale.scaled(old(samples)@, gain, final(samples)@),
{
    let p: u32 = peak(samples);
    let gain: u32 = gain_for(p, target_peak, scale);
    apply_gain(samples, gain, scale);
    gain
}

/// Fades linearly over the whole slice, from or to silence.
fn fade<
    M: Fn(u32, u32) -> u32,
    D: Fn(u32, u32) -> u32,
    R: Fn(usize, usize) -> u32,
    F: Fn(usize, usize) -> u32,
>(samples: &mut [u32], rising: bool, scale: &Scale<M, D, R, F>)
    requires
        scale.total(),
    ensures
        scale.faded(rising, old(samples)@, final(samples)@),
{
    let n: usize = samples.len();
    if n < 2 {
        return;
    }
    let last: usize = n - 1;
    let mut i: usize = 0;
    let ghost before = samples@;
    while i < n
        invariant
            scale.total(),
            i <= n,
            n >= 2,
            last == n - 1,
            samples@.len() == n,
            before.len() == n,
            forall|j: int|
                0 <= j < i ==> scale.ramps(rising, before[j], j as usize, last, #[trigger] samples@[j]),
            forall|j: int| i <= j < n ==> #[trigger] samples@[j] == before[j],
        decreases n - i,
    {
        let g: u32 = if rising {
            (scale.rise)(i, last)
        } else {
            (scale.fall)(i, last)
        };
        samples[i] = (scale.times)(samples[i], g);
        proof {
            assert(scale.gain_at(rising, i, last, g));
        }
        i = i + 1;
    }
}

/// Linear fade from silence to unity over the whole slice. Fewer than two samples are left alone:
/// a fade needs somewhere to travel.
pub fn fade_in<
    M: Fn(u32, u32) -> u32,
    D: Fn(u32, u32) -> u32,
    R: Fn(usize, usize) -> u32,
    F: Fn(usize, usize) -> u32,
>(samples: &mut [u32], scale: &Scale<M, D, R, F>)
    requires
        scale.total(),
    ensures
        scale.faded(true, old(samples)@, final(samples)@),
{
    fade(samples, true, scale)
}

/// Linear fade from unity to silence over the whole slice. Fewer than two samples are left alone.
pub fn fade_out<
    M: Fn(u32, u32) -> u32,
    D: Fn(u32, u32) -> u32,
    R: Fn(usize, usize) -> u32,
    F: Fn(usize, usize) -> u32,
>(samples: &mut [u32], scale: &Scale<M, D, R, F>)
    requires
        scale.total(),
    ensures
        scale.faded(false, old(samples)@, final(samples)@),
{
    fade(samples, false, scale)
}

/// Digital silence of length `n`.
pub open spec fn silent(n: nat) -> Seq<u32> {
    Seq::new(n, |i: int| 0u32)
}

/// Replaces every sample with digital silence.
pub fn silence(samples: &mut [u32])
    ensures
        final(samples)@ == silent(old(samples)@.len()),
{
    let mut i: usize = 0;
    let ghost n = samples@.len();
    while i < samples.len()
        invariant
            i <= samples@.len(),
            samples@.len() == n,
            forall|j: int| 0 <= j < i ==> #[trigger] samples@[j] == 0,
        decreases samples@.len() - i,
    {
        samples[i] = 0;
        i = i + 1;
    }
}

impl<
    M: Fn(u32, u32) -> u32,
    D: Fn(u32, u32) -> u32,
    R: Fn(usize, usize) -> u32,
    F: Fn(usize, usize) -> u32,
> Scale<M, D, R, F> {
    /// Multiplying by one changes nothing.
    pub open spec fn keeps_by_one(self) -> bool {
        forall|x: u32, y: u32| #[trigger] call_ensures(self.times, (x, ONE), y) ==> y == x
    }

    /// Ramps start and end at exactly zero and one, and zero times a finite sample is a zero.
    pub open spec fn exact_ends(self, last: usize) -> bool {
        &&& forall|g: u32| #[trigger] self.gain_at(true, 0, last, g) ==> g == 0
        &&& forall|g: u32| #[trigger] self.gain_at(true, last, last, g) ==> g == ONE
        &&& forall|g: u32| #[trigger] self.gain_at(false, 0, last, g) ==> g == ONE
        &&& forall|g: u32| #[trigger] self.gain_at(false, last, last, g) ==> g == 0
        &&& forall|x: u32, y: u32| #[trigger] call_ensures(self.times, (x, 0u32), y) && finite(x) ==> magnitude(y) == 0
    }

    /// Normalizing silence, a buffer whose peak is not finite, towards a target that is not above
    /// zero, or towards a finite target by a quotient that is not finite changes nothing. `t` stands
    /// for the buffer afterwards.
    pub proof fn law_degenerate_normalize_is_a_no_op(self, s: Seq<u32>, target: u32, gain: u32, t: Seq<u32>)
        requires
            self.keeps_by_one(),
            exists|p: u32|
                is_peak(s, p) && self.gain(p, target, gain) && (p == 0 || !finite(p) || !less(0, target) || (finite(
                    target,
                ) && forall|q: u32| #[trigger] self.divides(target, p, q) ==> !finite(q))),
            self.scaled(s, gain, t),
        ensures
            gain == ONE,
            t == s,
    {
        assert(t =~= s);
    }

    /// A fade in starts at silence and leaves the last sample alone; a fade out leaves the first
    /// alone and ends in silence.
    pub proof fn law_fades_end_exactly(self, rising: bool, s: Seq<u32>, t: Seq<u32>)
        requires
            s.len() >= 2,
            s.len() <= usize::MAX,
            self.faded(rising, s, t),
            self.keeps_by_one(),
            self.exact_ends((s.len() - 1) as usize),
            finite(s.first()),
            finite(s.last()),
        ensures
            rising ==> magnitude(t.first()) == 0 && t.last() == s.last(),
            !rising ==> t.first() == s.first() && magnitude(t.last()) == 0,
    {
        let last = (s.len() - 1) as usize;
        assert(self.ramps(rising, s[0], 0, last, t[0]));
        assert(self.ramps(rising, s[last as int], last, last, t[last as int]));
    }

    /// Where the falling ramp is the rising one backwards, a fade out is a fade in of the reversed
    /// buffer, reversed.
    pub proof fn law_fades_are_mirror_images(self, s: Seq<u32>, t: Seq<u32>)
        requires
            s.len() <= usize::MAX,
            forall|i: usize, g: u32|
                i < s.len() ==> (#[trigger] self.gain_at(false, i, (s.len() - 1) as usize, g) <==> self.gain_at(
                    true,
                    (s.len() - 1 - i) as usize,
                    (s.len() - 1) as usize,
                    g,
                )),
            self.faded(true, s, t),
        ensures
            self.faded(false, s.reverse(), t.reverse()),
    {
        let n = s.len();
        if n >= 2 {
            let last = (n - 1) as usize;
            assert forall|i: int| 0 <= i < n implies self.ramps(
                false,
                s.reverse()[i],
                i as usize,
                last,
                #[trigger] t.reverse()[i],
            ) by {
                let k = n - 1 - i;
                assert(self.ramps(true, s[k], k as usize, last, t[k]));
                let g = choose|g: u32| #[trigger]
                    self.gain_at(true, k as usize, last, g) && call_ensures(self.times, (s[k], g), t[k]);
                assert(self.gain_at(false, i as usize, last, g));
            }
        } else {
            assert(t.reverse() =~= s.reverse());
        }
    }
}

/// The peak of a buffer is its largest absolute value: no number is further from zero, one is as far
/// unless the peak is zero, and the peak is zero only where every number is.
pub proof fn law_the_peak_is_the_loudest_number(s: Seq<u32>, p: u32)
    requires
        is_peak(s, p),
    ensures
        p <= 0x7f80_0000,
        forall|j: int| 0 <= j < s.len() && !is_nan(#[trigger] s[j]) ==> -value(p) <= value(s[j]) <= value(p),
        p > 0 ==> exists|j: int|
            {
                &&& 0 <= j < s.len()
                &&& !is_nan(#[trigger] s[j])
                &&& value(s[j]) == value(p) || value(s[j]) == -value(p)
            },
{
    assert forall|j: int| 0 <= j < s.len() && !is_nan(#[trigger] s[j]) implies -value(p) <= value(s[j]) <= value(p) by {
        law_the_magnitude_is_the_absolute_value(s[j]);
        law_order_is_numeric(p, magnitude(s[j]) as u32);
    }
    if p > 0 {
        let j = choose|j: int| 0 <= j < s.len() && #[trigger] magnitude(s[j]) == p;
        law_the_magnitude_is_the_absolute_value(s[j]);
        assert(!is_nan(s[j]));
    }
}

/// Every buffer has a peak.
pub proof fn lemma_peak_exists(s: Seq<u32>) -> (p: u32)
    ensures
        is_peak(s, p),
    decreases s.len(),
{
    if s.len() == 0 {
        0
    } else {
        let rest = s.drop_last();
        let q = lemma_peak_exists(rest);
        let m = magnitude(s.last()) as u32;
        assert forall|j: int| 0 <= j < rest.len() implies #[trigger] rest[j] == s[j] by {}
        assert forall|j: int| 0 <= j < s.len() && !is_nan(#[trigger] s[j]) implies j == s.len() - 1 || magnitude(s[j])
            <= q by {
            if j < s.len() - 1 {
                assert(rest[j] == s[j]);
            }
        }
        if !is_nan(s.last()) && m > q {
            assert(magnitude(s[s.len() - 1]) == m);
            m
        } else {
            if q > 0 {
                let j = choose|j: int| 0 <= j < rest.len() && #[trigger] magnitude(rest[j]) == q;
                assert(magnitude(s[j]) == q);
            }
            q
        }
    }
}

/// Silence is as many zeros as it is long.
pub proof fn law_silence_is_all_zeros(n: nat)
    ensures
        silent(n).len() == n,
        forall|i: int| 0 <= i < n ==> #[trigger] silent(n)[i] == 0,
{
}

impl<
    M: Fn(u32, u32) -> u32,
    D: Fn(u32, u32) -> u32,
    R: Fn(usize, usize) -> u32,
    F: Fn(usize, usize) -> u32,
> Scale<M, D, R, F> {
    /// A fade multiplies each sample by the gain of its own step: sample `i` of `n` by that of step `i`
    /// of `n - 1`, on the rising ramp for a fade in and on the falling one for a fade out.
    pub proof fn law_a_fade_takes_a_step_with_each_sample(self, rising: bool, s: Seq<u32>, t: Seq<u32>, i: int)
        requires
            self.faded(rising, s, t),
            2 <= s.len() <= usize::MAX,
            0 <= i < s.len(),
        ensures
            t.len() == s.len(),
            rising ==> exists|g: u32| #[trigger]
                call_ensures(self.rise, (i as usize, (s.len() - 1) as usize), g) && call_ensures(
                    self.times,
                    (s[i], g),
                    t[i],
                ),
            !rising ==> exists|g: u32| #[trigger]
                call_ensures(self.fall, (i as usize, (s.len() - 1) as usize), g) && call_ensures(
                    self.times,
                    (s[i], g),
                    t[i],
                ),
    {
        let last = (s.len() - 1) as usize;
        assert(self.ramps(rising, s[i], i as usize, last, t[i]));
        let g = choose|g: u32| #[trigger]
            self.gain_at(rising, i as usize, last, g) && call_ensures(self.times, (s[i], g), t[i]);
        if rising {
            assert(call_ensures(self.rise, (i as usize, last), g));
        } else {
            assert(call_ensures(self.fall, (i as usize, last), g));
        }
    }

    /// Fewer than two samples are not faded.
    pub proof fn law_a_fade_needs_two_samples(self, rising: bool, s: Seq<u32>, t: Seq<u32>)
        requires
            self.faded(rising, s, t),
            s.len() < 2,
        ensures
            t == s,
    {
    }

    /// A fade in rises. Where the ramp rises from each step to the next, and a larger gain makes more of
    /// the sample `x`, a fade in of a constant buffer of `x` rises strictly from each sample to the next.
    pub proof fn law_a_fade_in_rises(self, s: Seq<u32>, t: Seq<u32>, x: u32, i: int)
        requires
            self.faded(true, s, t),
            2 <= s.len() <= usize::MAX,
            forall|j: int| 0 <= j < s.len() ==> #[trigger] s[j] == x,
            forall|j: usize, k: usize, g: u32, h: u32|
                j < k < s.len() && #[trigger] call_ensures(self.rise, (j, (s.len() - 1) as usize), g)
                    && #[trigger] call_ensures(self.rise, (k, (s.len() - 1) as usize), h) ==> value(g) < value(h),
            forall|g: u32, h: u32, y: u32, z: u32| #[trigger]
                call_ensures(self.times, (x, g), y) && #[trigger] call_ensures(self.times, (x, h), z) && value(g)
                    < value(h) ==> value(y) < value(z),
            0 <= i < s.len() - 1,
        ensures
            value(t[i]) < value(t[i + 1]),
    {
        let last = (s.len() - 1) as usize;
        self.law_a_fade_takes_a_step_with_each_sample(true, s, t, i);
        self.law_a_fade_takes_a_step_with_each_sample(true, s, t, i + 1);
        let g = choose|g: u32| #[trigger]
            call_ensures(self.rise, (i as usize, last), g) && call_ensures(self.times, (s[i], g), t[i]);
        let h = choose|g: u32| #[trigger]
            call_ensures(self.rise, ((i + 1) as usize, last), g) && call_ensures(self.times, (s[i + 1], g), t[i + 1]);
        assert(value(g) < value(h));
        assert(call_ensures(self.times, (x, g), t[i]) && call_ensures(self.times, (x, h), t[i + 1]));
    }

    /// A fade out falls. Where the ramp falls from each step to the next, and a larger gain makes more of
    /// the sample `x`, a fade out of a constant buffer of `x` falls strictly from each sample to the next.
    pub proof fn law_a_fade_out_falls(self, s: Seq<u32>, t: Seq<u32>, x: u32, i: int)
        requires
            self.faded(false, s, t),
            2 <= s.len() <= usize::MAX,
            forall|j: int| 0 <= j < s.len() ==> #[trigger] s[j] == x,
            forall|j: usize, k: usize, g: u32, h: u32|
                j < k < s.len() && #[trigger] call_ensures(self.fall, (j, (s.len() - 1) as usize), g)
                    && #[trigger] call_ensures(self.fall, (k, (s.len() - 1) as usize), h) ==> value(h) < value(g),
            forall|g: u32, h: u32, y: u32, z: u32| #[trigger]
                call_ensures(self.times, (x, g), y) && #[trigger] call_ensures(self.times, (x, h), z) && value(g)
                    < value(h) ==> value(y) < value(z),
            0 <= i < s.len() - 1,
        ensures
            value(t[i + 1]) < value(t[i]),
    {
        let last = (s.len() - 1) as usize;
        self.law_a_fade_takes_a_step_with_each_sample(false, s, t, i);
        self.law_a_fade_takes_a_step_with_each_sample(false, s, t, i + 1);
        let g = choose|g: u32| #[trigger]
            call_ensures(self.fall, (i as usize, last), g) && call_ensures(self.times, (s[i], g), t[i]);
        let h = choose|g: u32| #[trigger]
            call_ensures(self.fall, ((i + 1) as usize, last), g) && call_ensures(self.times, (s[i + 1], g), t[i + 1]);
        assert(value(h) < value(g));
        assert(call_ensures(self.times, (x, h), t[i + 1]) && call_ensures(self.times, (x, g), t[i]));
    }

    /// A gain multiplies every sample, and no sample is added or lost.
    pub proof fn law_a_gain_multiplies_every_sample(self, s: Seq<u32>, gain: u32, t: Seq<u32>)
        requires
            self.scaled(s, gain, t),
        ensures
            t.len() == s.len(),
            forall|i: int| 0 <= i < s.len() ==> call_ensures(self.times, (#[trigger] s[i], gain), t[i]),
    {
        assert forall|i: int| 0 <= i < s.len() implies call_ensures(self.times, (#[trigger] s[i], gain), t[i]) by {
            assert(t[i] == t[i]);
        }
    }

    /// The gain is the quotient of target and peak wherever there is one. It is one where the peak is zero
    /// or not finite, where the target is not above zero, and where the quotient overflows towards a
    /// finite target.
    pub proof fn law_the_gain_is_the_quotient(self, peak: u32, target: u32, r: u32)
        requires
            self.gain(peak, target, r),
        ensures
            value(peak) == 0 || !finite(peak) || is_nan(target) || value(target) <= 0 ==> r == 0x3f80_0000,
            value(peak) != 0 && finite(peak) && !is_nan(target) && value(target) > 0 ==> exists|q: u32|
                {
                    &&& #[trigger] call_ensures(self.over, (target, peak), q)
                    &&& finite(q) || !finite(target) ==> r == q
                    &&& !finite(q) && finite(target) ==> r == 0x3f80_0000
                },
    {
        law_order_is_numeric(0, 0);
        if !is_nan(target) {
            law_order_is_numeric(0, target);
        }
        if !is_nan(peak) {
            law_order_is_numeric(peak, peak);
        }
        if magnitude(peak) != 0 && finite(peak) && less(0, target) {
            let q = choose|q: u32| #[trigger]
                self.divides(target, peak, q) && r == (if finite(q) || !finite(target) {
                    q
                } else {
                    ONE
                });
            assert(call_ensures(self.over, (target, peak), q));
        }
    }

    /// A normalized buffer peaks at the target. Multiplying by the quotient of target and peak has to
    /// take the peak to the target, take nothing that is not above the peak above the target, and make no
    /// number of what is none.
    pub proof fn law_a_normalized_buffer_peaks_at_the_target(
        self,
        s: Seq<u32>,
        p: u32,
        target: u32,
        gain: u32,
        t: Seq<u32>,
    )
        requires
            is_peak(s, p),
            self.gain(p, target, gain),
            self.scaled(s, gain, t),
            0 < p < 0x7f80_0000,
            0 < target < 0x7f80_0000,
            forall|q: u32| #[trigger] call_ensures(self.over, (target, p), q) ==> finite(q),
            forall|q: u32, x: u32, y: u32| #[trigger]
                call_ensures(self.over, (target, p), q) && #[trigger] call_ensures(self.times, (x, q), y) ==> {
                    &&& is_nan(x) ==> is_nan(y)
                    &&& -value(p) <= value(x) <= value(p) ==> -value(target) <= value(y) <= value(target)
                    &&& !is_nan(x) && value(x) == value(p) ==> !is_nan(y) && value(y) == value(target)
                    &&& !is_nan(x) && value(x) == -value(p) ==> !is_nan(y) && value(y) == -value(target)
                },
        ensures
            is_peak(t, target),
    {
        law_the_peak_is_the_loudest_number(s, p);
        law_order_is_numeric(p, target);
        law_order_is_numeric(target, p);
        self.law_the_gain_is_the_quotient(p, target, gain);
        assert(call_ensures(self.over, (target, p), gain));
        assert forall|j: int| 0 <= j < t.len() && !is_nan(#[trigger] t[j]) implies magnitude(t[j]) <= target by {
            assert(call_ensures(self.times, (s[j], gain), t[j]));
            law_the_magnitude_is_the_absolute_value(t[j]);
            law_order_is_numeric(target, magnitude(t[j]) as u32);
        }
        let j = choose|j: int|
            {
                &&& 0 <= j < s.len()
                &&& !is_nan(#[trigger] s[j])
                &&& value(s[j]) == value(p) || value(s[j]) == -value(p)
            };
        assert(call_ensures(self.times, (s[j], gain), t[j]));
        law_the_magnitude_is_the_absolute_value(t[j]);
        law_order_is_numeric(target, magnitude(t[j]) as u32);
        law_order_is_numeric(magnitude(t[j]) as u32, target);
        assert(magnitude(t[j]) == target);
    }
}

} // verus!
