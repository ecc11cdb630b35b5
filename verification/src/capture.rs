//! Writing live audio into a planar PCM cache.
//!
//! A recording has no known length while it runs and must not be held in memory. So each channel is
//! spilled to a file of its own as frames arrive, as a decode does it, and the spills are joined
//! into the cache when the recording stops. The files themselves are the caller's: a writer says what
//! to append to each spill, and is told what came of it.

use vstd::prelude::*;
use crate::decode::{
    concat_spills, contents, deinterleave, join_of, joined, lane, lanes, law_batches_are_contiguous,
    lemma_frame_bounds, spill_name, spill_path, DecodeError, Join, PcmCache,
};
use crate::map::map_words;

verus! {

/// Accumulates interleaved frames into per-channel spill files.
pub struct CaptureWriter {
    cache: String,
    channels: usize,
    sample_rate: u32,
    frames: usize,
    captured: Ghost<Seq<Seq<u32>>>,
}

impl View for CaptureWriter {
    type V = Seq<Seq<u32>>;

    /// The samples captured so far, by channel.
    closed spec fn view(&self) -> Seq<Seq<u32>> {
        self.captured@
    }
}

/// Each channel followed by the samples that a batch adds to it.
pub open spec fn extended(captured: Seq<Seq<u32>>, batch: Seq<Seq<u32>>) -> Seq<Seq<u32>> {
    Seq::new(captured.len(), |ch: int| captured[ch] + batch[ch])
}

impl CaptureWriter {
    /// Every channel has as many samples as there are frames.
    pub closed spec fn wf(self) -> bool {
        &&& self.channels > 0
        &&& self@.len() == self.channels
        &&& forall|ch: int| 0 <= ch < self.channels ==> (#[trigger] self@[ch]).len() == self.frames
    }

    /// The path of the cache.
    pub closed spec fn path(self) -> Seq<char> {
        self.cache@
    }

    /// The sampling rate in Hz.
    pub closed spec fn rate(self) -> u32 {
        self.sample_rate
    }

    /// The number of frames captured so far.
    pub closed spec fn n_frames(self) -> nat {
        self.frames as nat
    }

    /// The number of channels.
    pub closed spec fn n_channels(self) -> nat {
        self.channels as nat
    }

    /// Each channel has as many samples as there are frames.
    pub proof fn lemma_shape(self)
        requires
            self.wf(),
        ensures
            self.n_channels() > 0,
            self.n_frames() <= usize::MAX,
            self@.len() == self.n_channels(),
            forall|ch: int| 0 <= ch < self@.len() ==> (#[trigger] self@[ch]).len() == self.n_frames(),
    {
    }

    /// A writer that has captured nothing yet.
    pub fn new(cache: String, channels: usize, sample_rate: u32) -> (r: Self)
        requires
            channels > 0,
        ensures
            r.wf(),
            r.path() == cache@,
            r.rate() == sample_rate,
            r.n_channels() == channels,
            r.n_frames() == 0,
            r@ == Seq::new(channels as nat, |ch: int| Seq::<u32>::empty()),
    {
        CaptureWriter {
            cache,
            channels,
            sample_rate,
            frames: 0,
            captured: Ghost(Seq::new(channels as nat, |ch: int| Seq::<u32>::empty())),
        }
    }

    /// Number of channels that the recording captures.
    pub fn channels(&self) -> (r: usize)
        ensures
            r == self.n_channels(),
    {
        self.channels
    }

    /// Sampling rate in Hz.
    pub fn sample_rate(&self) -> (r: u32)
        ensures
            r == self.rate(),
    {
        self.sample_rate
    }

    /// Frames captured so far.
    pub fn frames(&self) -> (r: usize)
        ensures
            r == self.n_frames(),
    {
        self.frames
    }

    /// The paths of the spill files in channel order. They are made before the first batch and
    /// deleted however the recording ends.
    pub fn spill_paths(&self) -> (r: Vec<String>)
        ensures
            r@.len() == self.n_channels(),
            forall|ch: int| 0 <= ch < r@.len() ==> (#[trigger] r@[ch])@ == spill_name(self.path(), ch as nat),
    {
        let mut out: Vec<String> = Vec::new();
        let mut ch: usize = 0;
        while ch < self.channels
            invariant
                ch <= self.channels,
                out@.len() == ch,
                forall|c: int| 0 <= c < ch ==> (#[trigger] out@[c])@ == spill_name(self.path(), c as nat),
            decreases self.channels - ch,
        {
            out.push(spill_path(self.cache.as_str(), ch));
            ch = ch + 1;
        }
        out
    }

    /// What a batch of interleaved frames adds to each channel, in channel order. A partial frame at
    /// the end is ignored.
    ///
    /// The caller appends it to the spill files, channel by channel up to the first failure, and
    /// hands the outcome to [`CaptureWriter::pushed`].
    pub fn push_interleaved(&self, interleaved: &[u32]) -> (r: Vec<Vec<u32>>)
        requires
            self.wf(),
        ensures
            contents(r@) == lanes(interleaved@, self.n_channels()),
    {
        deinterleave(interleaved, self.channels)
    }

    /// Takes note of what appending `batch` came to, and returns how many frames it added. A batch
    /// counts only where every channel was appended.
    pub fn pushed(&mut self, batch: &Vec<Vec<u32>>, outcome: Result<(), DecodeError>) -> (r: Result<usize, DecodeError>)
        requires
            old(self).wf(),
            batch@.len() == old(self).n_channels(),
            forall|ch: int| 0 <= ch < batch@.len() ==> (#[trigger] batch@[ch])@.len() == batch@[0]@.len(),
            old(self).n_frames() + batch@[0]@.len() <= usize::MAX,
        ensures
            final(self).wf(),
            final(self).path() == old(self).path(),
            final(self).rate() == old(self).rate(),
            final(self).n_channels() == old(self).n_channels(),
            match outcome {
                Ok(_) => {
                    &&& r == Result::<usize, DecodeError>::Ok(batch@[0]@.len() as usize)
                    &&& final(self)@ == extended(old(self)@, contents(batch@))
                    &&& final(self).n_frames() == old(self).n_frames() + batch@[0]@.len()
                },
                Err(e) => r == Result::<usize, DecodeError>::Err(e) && *final(self) == *old(self),
            },
    {
        match outcome {
            Ok(_) => {},
            Err(e) => return Err(e),
        }
        let added: usize = batch[0].len();
        self.frames = self.frames + added;
        self.captured = Ghost(extended(self.captured@, contents(batch@)));
        proof {
            assert forall|ch: int| 0 <= ch < self.channels implies (#[trigger] self@[ch]).len() == self.frames by {
                assert(contents(batch@)[ch] == batch@[ch]@);
            }
        }
        Ok(added)
    }

    /// Ends the recording: how the spills become the cache. A recording that captured nothing is
    /// empty, and no cache is made.
    pub fn finish(&self) -> (r: Result<Join, DecodeError>)
        ensures
            self.n_frames() == 0 ==> r == Result::<Join, DecodeError>::Err(DecodeError::Empty),
            self.n_frames() > 0 ==> r == Result::<Join, DecodeError>::Ok(join_of(self.n_channels())),
    {
        if self.frames == 0 {
            return Err(DecodeError::Empty);
        }
        Ok(concat_spills(self.channels))
    }
}

/// The whole frames of a batch: without a partial frame at its end.
pub open spec fn whole_frames(batch: Seq<u32>, channels: nat) -> Seq<u32> {
    batch.take((batch.len() / channels * channels) as int)
}

/// The whole frames of all batches, one after the other.
pub open spec fn frames_of(batches: Seq<Seq<u32>>, channels: nat) -> Seq<u32>
    decreases batches.len(),
{
    if batches.len() == 0 {
        Seq::empty()
    } else {
        frames_of(batches.drop_last(), channels) + whole_frames(batches.last(), channels)
    }
}

/// `takes` is what a writer has captured before each of `batches` and after the last one.
pub open spec fn take_chain(takes: Seq<Seq<Seq<u32>>>, batches: Seq<Seq<u32>>, channels: nat) -> bool {
    &&& takes.len() == batches.len() + 1
    &&& takes[0] == Seq::new(channels, |ch: int| Seq::<u32>::empty())
    &&& forall|i: int|
        0 <= i < batches.len() ==> takes[i + 1] == extended(takes[i], lanes(#[trigger] batches[i], channels))
}

proof fn lemma_whole_frames(batch: Seq<u32>, channels: nat)
    requires
        channels > 0,
    ensures
        whole_frames(batch, channels).len() % channels == 0,
        whole_frames(batch, channels).len() <= batch.len(),
        lanes(whole_frames(batch, channels), channels) == lanes(batch, channels),
{
    let whole = whole_frames(batch, channels);
    let frames = (batch.len() / channels) as int;
    vstd::arithmetic::div_mod::lemma_fundamental_div_mod(batch.len() as int, channels as int);
    assert(frames * channels == channels * frames) by (nonlinear_arith);
    assert(frames * channels >= 0) by (nonlinear_arith)
        requires
            frames >= 0,
    ;
    assert(whole.len() == frames * channels);
    vstd::arithmetic::div_mod::lemma_fundamental_div_mod_converse(whole.len() as int, channels as int, frames, 0);
    assert forall|ch: int| 0 <= ch < channels implies #[trigger] lanes(whole, channels)[ch] == lanes(
        batch,
        channels,
    )[ch] by {
        assert forall|f: int| 0 <= f < frames implies #[trigger] lane(whole, channels, ch)[f] == lane(
            batch,
            channels,
            ch,
        )[f] by {
            lemma_frame_bounds(whole.len(), channels, f, ch);
        }
        assert(lane(whole, channels, ch) =~= lane(batch, channels, ch));
    }
    assert(lanes(whole, channels) =~= lanes(batch, channels));
}

/// A take is what its batches brought: whatever their number and their lengths, the channels that a
/// writer has captured are those of the whole frames of all batches, in order. A partial frame at the
/// end of a batch belongs to none of them.
pub proof fn law_a_take_is_its_batches(takes: Seq<Seq<Seq<u32>>>, batches: Seq<Seq<u32>>, channels: nat)
    requires
        channels > 0,
        take_chain(takes, batches, channels),
    ensures
        takes.last() == lanes(frames_of(batches, channels), channels),
        frames_of(batches, channels).len() % channels == 0,
    decreases batches.len(),
{
    if batches.len() == 0 {
        let none = Seq::<u32>::empty();
        vstd::arithmetic::div_mod::lemma_basic_div(0, channels as int);
        vstd::arithmetic::div_mod::lemma_small_mod(0, channels);
        assert forall|ch: int| 0 <= ch < channels implies #[trigger] lanes(none, channels)[ch] == none by {
            assert(lane(none, channels, ch) =~= none);
        }
        assert(takes.last() =~= lanes(none, channels));
    } else {
        let earlier = batches.drop_last();
        let batch = batches.last();
        let i = batches.len() - 1;
        assert forall|k: int| 0 <= k < earlier.len() implies takes.drop_last()[k + 1] == extended(
            takes.drop_last()[k],
            lanes(#[trigger] earlier[k], channels),
        ) by {
            assert(earlier[k] == batches[k]);
        }
        law_a_take_is_its_batches(takes.drop_last(), earlier, channels);
        lemma_whole_frames(batch, channels);
        let before = frames_of(earlier, channels);
        let whole = whole_frames(batch, channels);
        assert(takes.drop_last().last() == takes[i]);
        assert(takes[i + 1] == extended(takes[i], lanes(batches[i], channels)));
        assert forall|ch: int| 0 <= ch < channels implies #[trigger] extended(
            lanes(before, channels),
            lanes(whole, channels),
        )[ch] == lanes(before + whole, channels)[ch] by {
            law_batches_are_contiguous(before, whole, channels, ch);
        }
        assert(extended(lanes(before, channels), lanes(whole, channels)) =~= lanes(before + whole, channels));
        vstd::arithmetic::div_mod::lemma_mod_adds(before.len() as int, whole.len() as int, channels as int);
        vstd::arithmetic::div_mod::lemma_add_mod_noop(before.len() as int, whole.len() as int, channels as int);
        vstd::arithmetic::div_mod::lemma_small_mod(0, channels);
    }
}

/// The cache of a finished recording is the take: where it holds the spills one after the other, its
/// channel `ch` is that channel of the whole frames of all batches.
pub proof fn law_the_finished_cache_is_the_take(
    cache: &PcmCache,
    takes: Seq<Seq<Seq<u32>>>,
    batches: Seq<Seq<u32>>,
    channels: nat,
)
    requires
        channels > 0,
        take_chain(takes, batches, channels),
        cache.wf(),
        cache@.len() == channels,
        map_words(cache.map()) == joined(takes.last()),
    ensures
        cache@ == lanes(frames_of(batches, channels), channels),
        cache.n_frames() == frames_of(batches, channels).len() / channels,
{
    law_a_take_is_its_batches(takes, batches, channels);
    let frames = frames_of(batches, channels).len() / channels;
    assert forall|ch: int| 0 <= ch < takes.last().len() implies (#[trigger] takes.last()[ch]).len() == frames by {
        assert(takes.last()[ch] == lane(frames_of(batches, channels), channels, ch));
    }
    cache.law_joined_spills_are_the_channels(takes.last(), frames);
}

/// A batch is appended to what was captured, in every channel: what was there stays in its place, and the
/// samples of the batch follow in their order.
pub proof fn law_a_batch_is_appended(captured: Seq<Seq<u32>>, batch: Seq<Seq<u32>>, ch: int, i: int)
    requires
        captured.len() == batch.len(),
        0 <= ch < captured.len(),
        0 <= i < captured[ch].len() + batch[ch].len(),
    ensures
        extended(captured, batch).len() == captured.len(),
        extended(captured, batch)[ch].len() == captured[ch].len() + batch[ch].len(),
        i < captured[ch].len() ==> extended(captured, batch)[ch][i] == captured[ch][i],
        i >= captured[ch].len() ==> extended(captured, batch)[ch][i] == batch[ch][i - captured[ch].len()],
{
}

/// The frames of one batch more are those of the batches before it and then its own, without what is left
/// of it that is no whole frame.
pub proof fn law_the_frames_of_batches_follow_each_other(batches: Seq<Seq<u32>>, batch: Seq<u32>, channels: nat)
    requires
        channels > 0,
    ensures
        frames_of(Seq::empty(), channels) == Seq::<u32>::empty(),
        frames_of(batches.push(batch), channels) == frames_of(batches, channels) + batch.take(
            batch.len() - batch.len() % channels,
        ),
{
    assert(batches.push(batch).drop_last() =~= batches);
    vstd::arithmetic::div_mod::lemma_fundamental_div_mod(batch.len() as int, channels as int);
    let frames = batch.len() / channels;
    assert(frames * channels == channels * frames) by (nonlinear_arith);
}

} // verus!
