//! Edits applied to the samples of a PCM cache, and taken back.

use vstd::prelude::*;
use crate::audio::EditOp;
use crate::decode::{contents, PcmCache};
use crate::edit::{
    apply_gain, fade_in, fade_out, gain_for, is_peak, law_peak_is_unique, law_the_peak_is_the_loudest_number, lemma_peak_exists,
    peak, silence, silent, Scale,
};
use crate::sample::{finite, is_nan, law_order_is_numeric, max, value, INFINITY, ONE};

verus! {

/// `after` is `before` with its samples `start..end` replaced by as many others.
pub open spec fn confined(before: Seq<u32>, start: int, end: int, after: Seq<u32>) -> bool {
    &&& after.len() == before.len()
    &&& after.take(start) == before.take(start)
    &&& after.skip(end) == before.skip(end)
}

/// `p` is the loudest magnitude of the samples `start..end` over all channels.
pub open spec fn loudest(samples: Seq<Seq<u32>>, start: int, end: int, p: u32) -> bool {
    &&& p > 0 ==> exists|ch: int| 0 <= ch < samples.len() && is_peak(#[trigger] samples[ch].subrange(start, end), p)
    &&& forall|ch: int, q: u32|
        0 <= ch < samples.len() && #[trigger] is_peak(samples[ch].subrange(start, end), q) ==> q <= p
}

/// `to` is what `op` makes of the samples `from` of a channel, where `gain` is the gain of a
/// normalize.
pub open spec fn changed<
    M: Fn(u32, u32) -> u32,
    D: Fn(u32, u32) -> u32,
    R: Fn(usize, usize) -> u32,
    F: Fn(usize, usize) -> u32,
>(op: EditOp, scale: Scale<M, D, R, F>, gain: u32, from: Seq<u32>, to: Seq<u32>) -> bool {
    match op {
        EditOp::Normalize => scale.scaled(from, gain, to),
        EditOp::FadeIn => scale.faded(true, from, to),
        EditOp::FadeOut => scale.faded(false, from, to),
        EditOp::Silence => to == silent(from.len()),
    }
}

/// `after` is `before` with `op` applied to `start..end` of every channel. One gain, that of the
/// loudest channel, normalizes them all, so that their balance stays.
pub open spec fn edited<
    M: Fn(u32, u32) -> u32,
    D: Fn(u32, u32) -> u32,
    R: Fn(usize, usize) -> u32,
    F: Fn(usize, usize) -> u32,
>(op: EditOp, scale: Scale<M, D, R, F>, before: Seq<Seq<u32>>, start: int, end: int, after: Seq<Seq<u32>>) -> bool {
    exists|p: u32, gain: u32| #[trigger]
        edited_with(op, scale, before, start, end, after, p, gain)
}

/// [`edited`], with the loudest magnitude and the gain.
pub open spec fn edited_with<
    M: Fn(u32, u32) -> u32,
    D: Fn(u32, u32) -> u32,
    R: Fn(usize, usize) -> u32,
    F: Fn(usize, usize) -> u32,
>(
    op: EditOp,
    scale: Scale<M, D, R, F>,
    before: Seq<Seq<u32>>,
    start: int,
    end: int,
    after: Seq<Seq<u32>>,
    p: u32,
    gain: u32,
) -> bool {
    &&& op == EditOp::Normalize ==> loudest(before, start, end, p) && scale.gain(p, ONE, gain)
    &&& after.len() == before.len()
    &&& forall|ch: int|
        0 <= ch < before.len() ==> channel_edited(op, scale, gain, before[ch], start, end, #[trigger] after[ch])
}

/// `after` is the channel `before` with `op` applied to `start..end`.
pub open spec fn channel_edited<
    M: Fn(u32, u32) -> u32,
    D: Fn(u32, u32) -> u32,
    R: Fn(usize, usize) -> u32,
    F: Fn(usize, usize) -> u32,
>(op: EditOp, scale: Scale<M, D, R, F>, gain: u32, before: Seq<u32>, start: int, end: int, after: Seq<u32>) -> bool {
    &&& confined(before, start, end, after)
    &&& changed(op, scale, gain, before.subrange(start, end), after.subrange(start, end))
}

/// Applies `op` to `start..end` of channel `ch`, with the given gain for a normalize.
fn edit_channel<
    M: Fn(u32, u32) -> u32,
    D: Fn(u32, u32) -> u32,
    R: Fn(usize, usize) -> u32,
    F: Fn(usize, usize) -> u32,
>(cache: &mut PcmCache, ch: usize, op: EditOp, start: usize, end: usize, gain: u32, scale: &Scale<M, D, R, F>)
    requires
        old(cache).wf(),
        scale.total(),
        ch < old(cache)@.len(),
        start <= end <= old(cache).n_frames(),
    ensures
        final(cache).wf(),
        final(cache).rate() == old(cache).rate(),
        final(cache).n_frames() == old(cache).n_frames(),
        final(cache)@ == old(cache)@.update(ch as int, final(cache)@[ch as int]),
        channel_edited(
            op,
            *scale,
            gain,
            old(cache)@[ch as int],
            start as int,
            end as int,
            final(cache)@[ch as int],
        ),
{
    proof {
        cache.lemma_shape();
    }
    let ghost before = cache@[ch as int];
    let ghost all = cache@;
    let channel: &mut [u32] = cache.channel_mut(ch);
    let (head, rest): (&mut [u32], &mut [u32]) = channel.split_at_mut(start);
    let (mid, tail): (&mut [u32], &mut [u32]) = rest.split_at_mut(end - start);
    proof {
        assert(mid@ =~= before.subrange(start as int, end as int));
    }
    match op {
        EditOp::Normalize => apply_gain(mid, gain, scale),
        EditOp::FadeIn => fade_in(mid, scale),
        EditOp::FadeOut => fade_out(mid, scale),
        EditOp::Silence => silence(mid),
    }
    proof {
        assert(has_resolved(head) && has_resolved(tail) && has_resolved(mid));
        let after = head@ + (mid@ + tail@);
        assert(after.take(start as int) =~= before.take(start as int));
        assert(after.skip(end as int) =~= before.skip(end as int));
        assert(after.subrange(start as int, end as int) =~= mid@);
        assert(cache@ == all.update(ch as int, after));
    }
}

/// The loudest magnitude of `start..end` over all channels.
fn loudest_of(cache: &PcmCache, start: usize, end: usize) -> (p: u32)
    requires
        cache.wf(),
        start <= end <= cache.n_frames(),
    ensures
        loudest(cache@, start as int, end as int, p),
{
    proof {
        cache.lemma_shape();
    }
    let channels: usize = cache.channels();
    let mut p: u32 = 0;
    let mut ch: usize = 0;
    while ch < channels
        invariant
            cache.wf(),
            channels == cache@.len(),
            start <= end <= cache.n_frames(),
            forall|c: int| 0 <= c < cache@.len() ==> (#[trigger] cache@[c]).len() == cache.n_frames(),
            ch <= channels,
            p <= INFINITY,
            p > 0 ==> exists|c: int|
                0 <= c < ch && is_peak(#[trigger] cache@[c].subrange(start as int, end as int), p),
            forall|c: int, q: u32|
                0 <= c < ch && #[trigger] is_peak(cache@[c].subrange(start as int, end as int), q) ==> q <= p,
        decreases channels - ch,
    {
        let ghost was = p;
        let part: &[u32] = vstd::slice::slice_subrange(cache.channel(ch), start, end);
        let q: u32 = peak(part);
        p = max(p, q);
        proof {
            assert(is_peak(cache@[ch as int].subrange(start as int, end as int), q));
            assert forall|c: int, x: u32|
                0 <= c < ch + 1 && #[trigger] is_peak(cache@[c].subrange(start as int, end as int), x) implies x <= p by {
                if c == ch {
                    law_peak_is_unique(part@, x, q);
                }
            }
            if was > 0 && p == was {
                let c = choose|c: int|
                    0 <= c < ch && is_peak(#[trigger] cache@[c].subrange(start as int, end as int), was);
                assert(is_peak(cache@[c].subrange(start as int, end as int), p));
            }
        }
        ch = ch + 1;
    }
    p
}

/// Applies `op` to `start..end` of every channel of `cache`.
pub fn apply_edit<
    M: Fn(u32, u32) -> u32,
    D: Fn(u32, u32) -> u32,
    R: Fn(usize, usize) -> u32,
    F: Fn(usize, usize) -> u32,
>(cache: &mut PcmCache, op: EditOp, start: usize, end: usize, scale: &Scale<M, D, R, F>)
    requires
        old(cache).wf(),
        scale.total(),
        start <= end <= old(cache).n_frames(),
    ensures
        final(cache).wf(),
        final(cache).rate() == old(cache).rate(),
        final(cache).n_frames() == old(cache).n_frames(),
        edited(op, *scale, old(cache)@, start as int, end as int, final(cache)@),
{
    let p: u32 = match op {
        EditOp::Normalize => loudest_of(cache, start, end),
        _ => 0,
    };
    let gain: u32 = match op {
        EditOp::Normalize => gain_for(p, ONE, scale),
        _ => ONE,
    };
    let channels: usize = cache.channels();
    let ghost before = cache@;
    let mut ch: usize = 0;
    while ch < channels
        invariant
            cache.wf(),
            scale.total(),
            cache.rate() == old(cache).rate(),
            cache.n_frames() == old(cache).n_frames(),
            start <= end <= old(cache).n_frames(),
            cache@.len() == channels,
            before.len() == channels,
            ch <= channels,
            forall|c: int|
                0 <= c < ch ==> channel_edited(
                    op,
                    *scale,
                    gain,
                    before[c],
                    start as int,
                    end as int,
                    #[trigger] cache@[c],
                ),
            forall|c: int| ch <= c < channels ==> #[trigger] cache@[c] == before[c],
        decreases channels - ch,
    {
        edit_channel(cache, ch, op, start, end, gain, scale);
        ch = ch + 1;
    }
    proof {
        assert(edited_with(op, *scale, before, start as int, end as int, cache@, p, gain));
    }
}

/// The samples `start..end` of every channel.
pub open spec fn cut(samples: Seq<Seq<u32>>, start: int, end: int) -> Seq<Seq<u32>> {
    Seq::new(samples.len(), |ch: int| samples[ch].subrange(start, end))
}

/// `samples` with `originals` put back from `start` on in each channel.
pub open spec fn restored(samples: Seq<Seq<u32>>, start: int, originals: Seq<Seq<u32>>) -> Seq<Seq<u32>> {
    Seq::new(
        samples.len(),
        |ch: int|
            samples[ch].take(start) + originals[ch] + samples[ch].skip(start + originals[ch].len()),
    )
}

/// Copies the samples `start..end` of every channel.
pub fn snapshot(cache: &PcmCache, start: usize, end: usize) -> (r: Vec<Vec<u32>>)
    requires
        cache.wf(),
        start <= end <= cache.n_frames(),
    ensures
        contents(r@) == cut(cache@, start as int, end as int),
{
    proof {
        cache.lemma_shape();
    }
    let channels: usize = cache.channels();
    let mut out: Vec<Vec<u32>> = Vec::new();
    let mut ch: usize = 0;
    while ch < channels
        invariant
            cache.wf(),
            channels == cache@.len(),
            start <= end <= cache.n_frames(),
            forall|c: int| 0 <= c < cache@.len() ==> (#[trigger] cache@[c]).len() == cache.n_frames(),
            ch <= channels,
            out@.len() == ch,
            forall|c: int| 0 <= c < ch ==> (#[trigger] out@[c])@ == cache@[c].subrange(start as int, end as int),
        decreases channels - ch,
    {
        let part: &[u32] = vstd::slice::slice_subrange(cache.channel(ch), start, end);
        out.push(vstd::slice::slice_to_vec(part));
        ch = ch + 1;
    }
    proof {
        assert(contents(out@) =~= cut(cache@, start as int, end as int));
    }
    out
}

/// Puts `originals` back from `start` on in each channel.
pub fn restore(cache: &mut PcmCache, start: usize, originals: &Vec<Vec<u32>>)
    requires
        old(cache).wf(),
        originals@.len() == old(cache)@.len(),
        forall|ch: int|
            0 <= ch < originals@.len() ==> start + (#[trigger] originals@[ch])@.len() <= old(cache).n_frames(),
    ensures
        final(cache).wf(),
        final(cache).rate() == old(cache).rate(),
        final(cache).n_frames() == old(cache).n_frames(),
        final(cache)@ == restored(old(cache)@, start as int, contents(originals@)),
{
    let channels: usize = cache.channels();
    let ghost before = cache@;
    let ghost after = restored(before, start as int, contents(originals@));
    let mut ch: usize = 0;
    while ch < channels
        invariant
            cache.wf(),
            cache.rate() == old(cache).rate(),
            cache.n_frames() == old(cache).n_frames(),
            cache@.len() == channels,
            before.len() == channels,
            originals@.len() == channels,
            after == restored(before, start as int, contents(originals@)),
            forall|c: int|
                0 <= c < originals@.len() ==> start + (#[trigger] originals@[c])@.len() <= old(cache).n_frames(),
            ch <= channels,
            forall|c: int| 0 <= c < ch ==> #[trigger] cache@[c] == after[c],
            forall|c: int| ch <= c < channels ==> #[trigger] cache@[c] == before[c],
        decreases channels - ch,
    {
        restore_channel(cache, ch, start, originals[ch].as_slice());
        proof {
            assert(contents(originals@)[ch as int] == originals@[ch as int]@);
        }
        ch = ch + 1;
    }
    proof {
        assert(cache@ =~= after);
    }
}

/// Puts `original` back from `start` on in channel `ch`.
fn restore_channel(cache: &mut PcmCache, ch: usize, start: usize, original: &[u32])
    requires
        old(cache).wf(),
        ch < old(cache)@.len(),
        start + original@.len() <= old(cache).n_frames(),
    ensures
        final(cache).wf(),
        final(cache).rate() == old(cache).rate(),
        final(cache).n_frames() == old(cache).n_frames(),
        final(cache)@ == old(cache)@.update(
            ch as int,
            old(cache)@[ch as int].take(start as int) + original@ + old(cache)@[ch as int].skip(
                start + original@.len(),
            ),
        ),
{
    proof {
        cache.lemma_shape();
    }
    let ghost all = cache@;
    let ghost before = cache@[ch as int];
    let ghost after = before.take(start as int) + original@ + before.skip(start + original@.len());
    let n: usize = original.len();
    let channel: &mut [u32] = cache.channel_mut(ch);
    let mut i: usize = 0;
    while i < n
        invariant
            n == original@.len(),
            i <= n,
            start + n <= before.len(),
            channel@.len() == before.len(),
            before.len() <= usize::MAX,
            forall|k: int| 0 <= k < start ==> #[trigger] channel@[k] == before[k],
            forall|k: int| start <= k < start + i ==> #[trigger] channel@[k] == original@[k - start],
            forall|k: int| start + i <= k < before.len() ==> #[trigger] channel@[k] == before[k],
        decreases n - i,
    {
        channel[start + i] = original[i];
        i = i + 1;
    }
    proof {
        assert(channel@ =~= after);
        assert(has_resolved(channel));
    }
}

/// The loudest magnitude over all channels is the largest absolute value of the range in any of them:
/// no number of any channel is further from zero, and one of some channel is as far unless it is zero.
pub proof fn law_the_loudest_is_that_of_all_channels(samples: Seq<Seq<u32>>, start: int, end: int, p: u32)
    requires
        0 <= start <= end,
        forall|ch: int| 0 <= ch < samples.len() ==> end <= (#[trigger] samples[ch]).len(),
        loudest(samples, start, end, p),
    ensures
        forall|ch: int, i: int|
            0 <= ch < samples.len() && start <= i < end && !is_nan(#[trigger] samples[ch][i]) ==> -value(p) <= value(
                samples[ch][i],
            ) <= value(p),
        p > 0 ==> exists|ch: int, i: int|
            {
                &&& 0 <= ch < samples.len()
                &&& start <= i < end
                &&& !is_nan(#[trigger] samples[ch][i])
                &&& value(samples[ch][i]) == value(p) || value(samples[ch][i]) == -value(p)
            },
{
    assert forall|ch: int, i: int|
        0 <= ch < samples.len() && start <= i < end && !is_nan(#[trigger] samples[ch][i]) implies -value(p) <= value(
        samples[ch][i],
    ) <= value(p) by {
        let part = samples[ch].subrange(start, end);
        let q = lemma_peak_exists(part);
        law_the_peak_is_the_loudest_number(part, q);
        assert(part[i - start] == samples[ch][i]);
        assert(q <= p);
        if p > 0 {
            let c = choose|c: int| 0 <= c < samples.len() && is_peak(#[trigger] samples[c].subrange(start, end), p);
            assert(p <= INFINITY);
        }
        law_order_is_numeric(p, q);
    }
    if p > 0 {
        let ch = choose|ch: int| 0 <= ch < samples.len() && is_peak(#[trigger] samples[ch].subrange(start, end), p);
        let part = samples[ch].subrange(start, end);
        law_the_peak_is_the_loudest_number(part, p);
        let j = choose|j: int|
            {
                &&& 0 <= j < part.len()
                &&& !is_nan(#[trigger] part[j])
                &&& value(part[j]) == value(p) || value(part[j]) == -value(p)
            };
        assert(part[j] == samples[ch][start + j]);
    }
}

/// An edit touches the selection alone, in every channel: the channels keep their number and lengths,
/// and a sample before `start` or from `end` on stays.
pub proof fn law_an_edit_touches_the_selection_alone<
    M: Fn(u32, u32) -> u32,
    D: Fn(u32, u32) -> u32,
    R: Fn(usize, usize) -> u32,
    F: Fn(usize, usize) -> u32,
>(
    op: EditOp,
    scale: Scale<M, D, R, F>,
    before: Seq<Seq<u32>>,
    start: int,
    end: int,
    after: Seq<Seq<u32>>,
    ch: int,
    i: int,
)
    requires
        edited(op, scale, before, start, end, after),
        0 <= ch < before.len(),
        0 <= start <= end <= before[ch].len(),
    ensures
        after.len() == before.len(),
        after[ch].len() == before[ch].len(),
        0 <= i < start || end <= i < before[ch].len() ==> after[ch][i] == before[ch][i],
{
    let (p, gain): (u32, u32) = choose|p: u32, gain: u32| #[trigger]
        edited_with(op, scale, before, start, end, after, p, gain);
    assert(channel_edited(op, scale, gain, before[ch], start, end, after[ch]));
    if 0 <= i < start {
        assert(after[ch].take(start)[i] == before[ch].take(start)[i]);
    }
    if end <= i < before[ch].len() {
        assert(after[ch].skip(end)[i - end] == before[ch].skip(end)[i - end]);
    }
}

/// Silencing a selection leaves zeros in it, in every channel.
pub proof fn law_a_silenced_selection_is_all_zeros<
    M: Fn(u32, u32) -> u32,
    D: Fn(u32, u32) -> u32,
    R: Fn(usize, usize) -> u32,
    F: Fn(usize, usize) -> u32,
>(
    scale: Scale<M, D, R, F>,
    before: Seq<Seq<u32>>,
    start: int,
    end: int,
    after: Seq<Seq<u32>>,
    ch: int,
    i: int,
)
    requires
        edited(EditOp::Silence, scale, before, start, end, after),
        0 <= ch < before.len(),
        0 <= start <= i < end <= before[ch].len(),
    ensures
        after[ch][i] == 0,
{
    let (p, gain): (u32, u32) = choose|p: u32, gain: u32| #[trigger]
        edited_with(EditOp::Silence, scale, before, start, end, after, p, gain);
    assert(channel_edited(EditOp::Silence, scale, gain, before[ch], start, end, after[ch]));
    assert(after[ch].subrange(start, end)[i - start] == after[ch][i]);
}

/// A faded selection is multiplied step by step, in every channel: sample `i` by the gain of step
/// `i - start` of as many steps as lie between the first and the last sample of the selection. A fade
/// in takes the rising ramp, a fade out the falling one. A selection of one sample stays.
pub proof fn law_a_faded_selection_takes_a_step_with_each_sample<
    M: Fn(u32, u32) -> u32,
    D: Fn(u32, u32) -> u32,
    R: Fn(usize, usize) -> u32,
    F: Fn(usize, usize) -> u32,
>(
    op: EditOp,
    scale: Scale<M, D, R, F>,
    before: Seq<Seq<u32>>,
    start: int,
    end: int,
    after: Seq<Seq<u32>>,
    ch: int,
    i: int,
)
    requires
        op == EditOp::FadeIn || op == EditOp::FadeOut,
        edited(op, scale, before, start, end, after),
        0 <= ch < before.len(),
        0 <= start <= i < end <= before[ch].len(),
        end <= usize::MAX,
    ensures
        end - start == 1 ==> after[ch][i] == before[ch][i],
        end - start > 1 && op == EditOp::FadeIn ==> exists|g: u32| #[trigger]
            call_ensures(scale.rise, ((i - start) as usize, (end - start - 1) as usize), g) && call_ensures(
                scale.times,
                (before[ch][i], g),
                after[ch][i],
            ),
        end - start > 1 && op == EditOp::FadeOut ==> exists|g: u32| #[trigger]
            call_ensures(scale.fall, ((i - start) as usize, (end - start - 1) as usize), g) && call_ensures(
                scale.times,
                (before[ch][i], g),
                after[ch][i],
            ),
{
    let (p, gain): (u32, u32) = choose|p: u32, gain: u32| #[trigger]
        edited_with(op, scale, before, start, end, after, p, gain);
    assert(channel_edited(op, scale, gain, before[ch], start, end, after[ch]));
    let from = before[ch].subrange(start, end);
    let to = after[ch].subrange(start, end);
    assert(from[i - start] == before[ch][i] && to[i - start] == after[ch][i]);
    if end - start > 1 {
        scale.law_a_fade_takes_a_step_with_each_sample(op == EditOp::FadeIn, from, to, i - start);
    } else {
        scale.law_a_fade_needs_two_samples(op == EditOp::FadeIn, from, to);
    }
}

/// Normalizing multiplies every sample of the selection in every channel by one and the same gain: the
/// quotient of full scale and the largest absolute value of the selection in any channel. So the
/// channels keep their balance. Silence, and a selection that is not finite, is multiplied by one, as
/// where the quotient is not finite. The law gives back that value and the gain.
pub proof fn law_normalizing_keeps_the_balance<
    M: Fn(u32, u32) -> u32,
    D: Fn(u32, u32) -> u32,
    R: Fn(usize, usize) -> u32,
    F: Fn(usize, usize) -> u32,
>(
    scale: Scale<M, D, R, F>,
    before: Seq<Seq<u32>>,
    start: int,
    end: int,
    after: Seq<Seq<u32>>,
) -> (r: (u32, u32))
    requires
        edited(EditOp::Normalize, scale, before, start, end, after),
        0 <= start <= end,
        forall|ch: int| 0 <= ch < before.len() ==> end <= (#[trigger] before[ch]).len(),
    ensures
        forall|ch: int, i: int|
            0 <= ch < before.len() && start <= i < end ==> call_ensures(
                scale.times,
                (before[ch][i], r.1),
                #[trigger] after[ch][i],
            ),
        forall|ch: int, i: int|
            0 <= ch < before.len() && start <= i < end && !is_nan(#[trigger] before[ch][i]) ==> -value(r.0) <= value(
                before[ch][i],
            ) <= value(r.0),
        r.0 > 0 ==> exists|ch: int, i: int|
            {
                &&& 0 <= ch < before.len()
                &&& start <= i < end
                &&& !is_nan(#[trigger] before[ch][i])
                &&& value(before[ch][i]) == value(r.0) || value(before[ch][i]) == -value(r.0)
            },
        r.0 == 0 || !finite(r.0) ==> r.1 == 0x3f80_0000,
        r.0 > 0 && finite(r.0) ==> exists|q: u32|
            {
                &&& #[trigger] call_ensures(scale.over, (0x3f80_0000u32, r.0), q)
                &&& finite(q) ==> r.1 == q
                &&& !finite(q) ==> r.1 == 0x3f80_0000
            },
{
    let (p, gain): (u32, u32) = choose|p: u32, gain: u32| #[trigger]
        edited_with(EditOp::Normalize, scale, before, start, end, after, p, gain);
    assert forall|ch: int, i: int| 0 <= ch < before.len() && start <= i < end implies call_ensures(
        scale.times,
        (before[ch][i], gain),
        #[trigger] after[ch][i],
    ) by {
        assert(channel_edited(EditOp::Normalize, scale, gain, before[ch], start, end, after[ch]));
        let from = before[ch].subrange(start, end);
        let to = after[ch].subrange(start, end);
        assert(from[i - start] == before[ch][i] && to[i - start] == after[ch][i]);
    }
    law_the_loudest_is_that_of_all_channels(before, start, end, p);
    scale.law_the_gain_is_the_quotient(p, ONE, gain);
    law_order_is_numeric(0, ONE);
    law_order_is_numeric(p, p);
    (p, gain)
}

/// A cut keeps every channel and, of each, the samples from `start` to before `end` in their order.
pub proof fn law_a_cut_is_the_range_of_every_channel(samples: Seq<Seq<u32>>, start: int, end: int, ch: int, i: int)
    requires
        0 <= ch < samples.len(),
        0 <= start <= end <= samples[ch].len(),
        0 <= i < end - start,
    ensures
        cut(samples, start, end).len() == samples.len(),
        cut(samples, start, end)[ch].len() == end - start,
        cut(samples, start, end)[ch][i] == samples[ch][start + i],
{
}

/// Putting samples back replaces those from `start` on by as many, and leaves the rest.
pub proof fn law_samples_are_put_back_where_they_were(
    samples: Seq<Seq<u32>>,
    start: int,
    originals: Seq<Seq<u32>>,
    ch: int,
    i: int,
)
    requires
        0 <= ch < samples.len(),
        0 <= start,
        start + originals[ch].len() <= samples[ch].len(),
        0 <= i < samples[ch].len(),
    ensures
        restored(samples, start, originals).len() == samples.len(),
        restored(samples, start, originals)[ch].len() == samples[ch].len(),
        start <= i < start + originals[ch].len() ==> restored(samples, start, originals)[ch][i] == originals[ch][i
            - start],
        i < start || i >= start + originals[ch].len() ==> restored(samples, start, originals)[ch][i] == samples[ch][i],
{
}

} // verus!
