//! Playback: what is heard, and when.
//!
//! The samples are behind a memory map, and a page fault in the audio callback is a dropout. So the
//! callback only ever takes frames out of a ring that a feeder thread keeps full. This module has
//! both ends of that ring, the source that maps channels and rates, and the choice of the device
//! configuration. Streams, threads and clocks are the caller's.

use vstd::prelude::*;
use std::sync::Arc;
use rtrb::{Consumer, Producer};
use crate::decode::PcmCache;
use crate::edit::{silence, silent};
use crate::ring::{
    coming, filled_slots, free_slots, inflow, is_empty, left, lemma_coming, outflow, pop_slice, push_slice, read, ready,
    ring, room, size, spare, written,
};
use crate::stats::WIDE_ONE;
use crate::summary::clamp;

verus! {

/// What can stop playback from starting.
#[derive(Debug)]
pub enum PlayError {
    /// No file is open.
    NoDocument,
    /// There is no output device.
    NoDevice,
    /// The device has no configuration with float samples.
    NoF32Config,
    /// The range holds no samples.
    EmptyRange,
    /// The device rejected the stream.
    Device(String),
}

impl PlayError {
    /// What the error says.
    pub open spec fn text(self) -> Seq<char> {
        match self {
            PlayError::NoDocument => "no audio file is open"@,
            PlayError::NoDevice => "no audio output device available"@,
            PlayError::NoF32Config => "output device supports no 32-bit float configuration"@,
            PlayError::EmptyRange => "nothing to play: the range is empty"@,
            PlayError::Device(e) => "audio device error: "@ + e@,
        }
    }

    /// The error in words.
    pub fn message(&self) -> (r: String)
        ensures
            r@ == self.text(),
    {
        match self {
            PlayError::NoDocument => "no audio file is open".to_owned(),
            PlayError::NoDevice => "no audio output device available".to_owned(),
            PlayError::NoF32Config => "output device supports no 32-bit float configuration".to_owned(),
            PlayError::EmptyRange => "nothing to play: the range is empty".to_owned(),
            PlayError::Device(e) => "audio device error: ".to_owned().concat(e.as_str()),
        }
    }
}

/// What the transport is doing.
#[derive(Debug, Clone, Copy, PartialEq, Eq, Structural)]
pub enum PlayState {
    /// Nothing is playing.
    Stopped,
    /// The range is playing.
    Playing,
    /// Playback stands still.
    Paused,
    /// The range was played to its end.
    Finished,
}

impl PlayState {
    /// The number that stands for the state.
    pub open spec fn code(self) -> u8 {
        match self {
            PlayState::Stopped => 0,
            PlayState::Playing => 1,
            PlayState::Paused => 2,
            PlayState::Finished => 3,
        }
    }

    /// The number that stands for the state.
    pub fn as_u8(self) -> (r: u8)
        ensures
            r == self.code(),
    {
        match self {
            PlayState::Stopped => 0,
            PlayState::Playing => 1,
            PlayState::Paused => 2,
            PlayState::Finished => 3,
        }
    }

    /// The state that `v` stands for. A number that stands for none means stopped.
    pub fn from_u8(v: u8) -> (r: PlayState)
        ensures
            v <= 3 ==> r.code() == v,
            v > 3 ==> r == PlayState::Stopped,
    {
        match v {
            1 => PlayState::Playing,
            2 => PlayState::Paused,
            3 => PlayState::Finished,
            _ => PlayState::Stopped,
        }
    }

    /// Different states have different numbers, so a state survives the way through its number.
    pub proof fn law_codes_are_distinct(a: PlayState, b: PlayState)
        ensures
            a.code() == b.code() ==> a == b,
            a.code() <= 3,
    {
    }
}

/// What the transport shows.
#[derive(Debug, Clone, Copy, PartialEq, Eq, Structural)]
pub struct PlaybackDto {
    /// What the transport is doing.
    pub state: PlayState,
    /// The playhead in frames of the source.
    pub position_frames: u64,
    /// The playhead in seconds, as a double-precision pattern.
    pub position_s: u64,
    /// Start of the range.
    pub start_frame: u64,
    /// End of the range.
    pub end_frame: u64,
    /// Callbacks that found the ring short.
    pub underruns: u64,
}

/// What the callback, the feeder and the transport share.
#[derive(Debug, Clone, Copy, PartialEq, Eq, Structural)]
pub struct Shared {
    /// What the transport is doing.
    pub state: PlayState,
    /// Frames handed to the device so far. The playhead follows this and not the feeder, which runs
    /// ahead of the sound.
    pub played: u64,
    /// Whether the source is exhausted.
    pub feed_done: bool,
    /// Callbacks that found the ring short.
    pub underruns: u64,
    /// Channels of the device.
    pub dev_channels: usize,
    /// Start of the range.
    pub start_frame: u64,
    /// End of the range.
    pub end_frame: u64,
    /// Source frames per device frame, as a double-precision pattern.
    pub ratio: u64,
    /// Sampling rate of the source.
    pub sample_rate: u32,
}

/// The playhead where `advanced` frames of the source have been heard: it stops at the end.
pub open spec fn playhead(start: u64, advanced: u64, end: u64) -> u64 {
    clamp(start + advanced, end as int) as u64
}

impl Shared {
    /// The state of a playback of `start_frame..end_frame` that has not started.
    pub fn new(dev_channels: usize, start_frame: u64, end_frame: u64, ratio: u64, sample_rate: u32) -> (r: Self)
        ensures
            r == (Shared {
                state: PlayState::Stopped,
                played: 0,
                feed_done: false,
                underruns: 0,
                dev_channels,
                start_frame,
                end_frame,
                ratio,
                sample_rate,
            }),
    {
        Shared {
            state: PlayState::Stopped,
            played: 0,
            feed_done: false,
            underruns: 0,
            dev_channels,
            start_frame,
            end_frame,
            ratio,
            sample_rate,
        }
    }

    /// The playhead in frames of the source. `advanced` scales device frames by the ratio to whole
    /// source frames.
    pub fn position_frames<V: Fn(u64, u64) -> u64>(&self, advanced: &V) -> (r: u64)
        requires
            call_requires(*advanced, (self.played, self.ratio)),
        ensures
            exists|a: u64| #[trigger]
                call_ensures(*advanced, (self.played, self.ratio), a) && r == playhead(
                    self.start_frame,
                    a,
                    self.end_frame,
                ),
    {
        let a: u64 = advanced(self.played, self.ratio);
        let at: u64 = if a > u64::MAX - self.start_frame {
            u64::MAX
        } else {
            self.start_frame + a
        };
        if at < self.end_frame {
            at
        } else {
            self.end_frame
        }
    }

    /// What the transport shows. `seconds` divides frames by a rate.
    pub fn dto<V: Fn(u64, u64) -> u64, S: Fn(u64, u32) -> u64>(&self, advanced: &V, seconds: &S) -> (r: PlaybackDto)
        requires
            call_requires(*advanced, (self.played, self.ratio)),
            forall|n: u64| #[trigger] call_requires(*seconds, (n, self.sample_rate)),
        ensures
            r.state == self.state,
            r.start_frame == self.start_frame,
            r.end_frame == self.end_frame,
            r.underruns == self.underruns,
            exists|a: u64| #[trigger]
                call_ensures(*advanced, (self.played, self.ratio), a) && r.position_frames == playhead(
                    self.start_frame,
                    a,
                    self.end_frame,
                ),
            call_ensures(*seconds, (r.position_frames, self.sample_rate), r.position_s),
    {
        let position_frames: u64 = self.position_frames(advanced);
        PlaybackDto {
            state: self.state,
            position_frames,
            position_s: seconds(position_frames, self.sample_rate),
            start_frame: self.start_frame,
            end_frame: self.end_frame,
            underruns: self.underruns,
        }
    }

    /// Takes note of what the callback did. The counters wrap round.
    pub fn note(&mut self, done: Rendered)
        ensures
            *final(self) == old(self).noted(done),
    {
        self.played = wrapping_sum(self.played, done.frames);
        match done.ending {
            Ending::Full => {},
            Ending::Finished => {
                self.state = PlayState::Finished;
            },
            Ending::Starved => {
                self.underruns = wrapping_sum(self.underruns, 1);
            },
        }
    }

    /// The state after the callback did `done`.
    pub open spec fn noted(self, done: Rendered) -> Shared {
        let played = wrapped(self.played + done.frames);
        match done.ending {
            Ending::Full => Shared { played, ..self },
            Ending::Finished => Shared { played, state: PlayState::Finished, ..self },
            Ending::Starved => Shared { played, underruns: wrapped(self.underruns + 1), ..self },
        }
    }
}

/// How a callback ended.
#[derive(Debug, Clone, Copy, PartialEq, Eq, Structural)]
pub enum Ending {
    /// The whole buffer was filled.
    Full,
    /// The buffer could not be filled because the range is over.
    Finished,
    /// The buffer could not be filled although there is more to play.
    Starved,
}

/// What a callback did.
#[derive(Debug, Clone, Copy, PartialEq, Eq, Structural)]
pub struct Rendered {
    /// Frames that were taken from the ring.
    pub frames: u64,
    /// How the callback ended.
    pub ending: Ending,
}

/// `n` as a 64-bit counter shows it.
pub open spec fn wrapped(n: int) -> u64 {
    (n % 0x1_0000_0000_0000_0000) as u64
}

/// The sum of two counters, which wraps round.
pub fn wrapping_sum(a: u64, b: u64) -> (r: u64)
    ensures
        r == wrapped(a + b),
{
    if b > u64::MAX - a {
        b - (u64::MAX - a) - 1
    } else {
        a + b
    }
}

/// The playhead never leaves the range and never goes back while more is heard.
pub proof fn law_the_playhead_stays_in_the_range(start: u64, end: u64, a: u64, b: u64)
    requires
        start <= end,
        a <= b,
    ensures
        start <= playhead(start, a, end) <= playhead(start, b, end) <= end,
        playhead(start, 0, end) == start,
{
}

/// Where a source reads next.
#[derive(Debug, Clone, Copy, PartialEq, Eq, Structural)]
pub struct Cursor {
    /// The position in frames, as a double-precision pattern.
    pub pos: u64,
    /// The whole frame of the position.
    pub frame: usize,
    /// What is left of the position, as a single-precision pattern.
    pub frac: u32,
}

/// Single-precision arithmetic for mixing.
pub struct Mixer<B, S, H> {
    /// Between two samples, at a fraction of the way.
    pub blend: B,
    /// The sum of two samples.
    pub sum: S,
    /// A sample over a number of channels.
    pub share: H,
}

impl<B: Fn(u32, u32, u32) -> u32, S: Fn(u32, u32) -> u32, H: Fn(u32, usize) -> u32> Mixer<B, S, H> {
    /// Every operation is defined on every pattern.
    pub open spec fn total(self) -> bool {
        &&& forall|a: u32, b: u32, t: u32| #[trigger] call_requires(self.blend, (a, b, t))
        &&& forall|a: u32, b: u32| #[trigger] call_requires(self.sum, (a, b))
        &&& forall|a: u32, n: usize| #[trigger] call_requires(self.share, (a, n))
    }

    /// `v` is between `a` and `b` at the fraction `t` of the way.
    pub open spec fn blends(self, a: u32, b: u32, t: u32, v: u32) -> bool {
        call_ensures(self.blend, (a, b, t), v)
    }

    /// `acc` is the sum of the first `n` channels at cursor `at`, added one after the other.
    pub open spec fn sums(self, samples: Seq<Seq<u32>>, end: int, at: Cursor, n: nat, acc: u32) -> bool
        decreases n,
    {
        if n == 0 {
            acc == 0
        } else {
            exists|prev: u32, v: u32|
                {
                    &&& self.sums(samples, end, at, (n - 1) as nat, prev)
                    &&& #[trigger] self.adds(samples[n - 1], end, at, prev, v, acc)
                }
        }
    }

    /// `v` is the channel `s` at cursor `at`, and `acc` is `prev` with it.
    pub open spec fn adds(self, s: Seq<u32>, end: int, at: Cursor, prev: u32, v: u32, acc: u32) -> bool {
        self.taps(s, end, at, v) && call_ensures(self.sum, (prev, v), acc)
    }

    /// `acc` is the sum of the samples `s`, added one after the other.
    pub open spec fn totals(self, s: Seq<u32>, acc: u32) -> bool
        decreases s.len(),
    {
        if s.len() == 0 {
            acc == 0
        } else {
            exists|prev: u32|
                self.totals(s.drop_last(), prev) && #[trigger] call_ensures(self.sum, (prev, s.last()), acc)
        }
    }

    /// `v` is the mean of the samples `s`: their sum over their number.
    pub open spec fn averages(self, s: Seq<u32>, v: u32) -> bool {
        exists|acc: u32| #[trigger] self.totals(s, acc) && call_ensures(self.share, (acc, s.len() as usize), v)
    }

    /// Nothing of the way between two samples is the first of them.
    pub open spec fn starts_exactly(self) -> bool {
        forall|a: u32, b: u32, v: u32| #[trigger] self.blends(a, b, 0, v) ==> v == a
    }

    /// `v` is the channel `s` at cursor `at`: between the frame and the next one. The last frame
    /// before `end` is held, so nothing behind it is read.
    pub open spec fn taps(self, s: Seq<u32>, end: int, at: Cursor, v: u32) -> bool {
        let next = clamp(at.frame + 1, end - 1);
        self.blends(s[at.frame as int], s[next], at.frac, v)
    }

    /// `v` is what channel `c` of a device with `devs` channels hears at cursor `at`. A device with
    /// one channel hears the mean of all channels of the file; else the channels of the file go
    /// round.
    pub open spec fn hears(self, samples: Seq<Seq<u32>>, end: int, devs: nat, c: int, at: Cursor, v: u32) -> bool {
        if devs == 1 && samples.len() > 1 {
            exists|acc: u32| #[trigger]
                self.sums(samples, end, at, samples.len(), acc) && call_ensures(
                    self.share,
                    (acc, samples.len() as usize),
                    v,
                )
        } else {
            self.taps(samples[c % samples.len() as int], end, at, v)
        }
    }
}

/// Pulls interleaved device frames out of a PCM cache: all of what is heard.
pub struct Source {
    pcm: Arc<PcmCache>,
    end: usize,
    dev_channels: usize,
    dev_rate: u32,
    ratio: u64,
    cursor: Cursor,
}

/// `next` is where a source that moves `ratio` frames at a time reads after `at`.
pub open spec fn steps<P: Fn(u64, u64) -> Cursor>(step: P, ratio: u64, at: Cursor, next: Cursor) -> bool {
    call_ensures(step, (at.pos, ratio), next)
}

/// A source read along `trail`: each position follows from the one before, and all but the last lie
/// before `end`.
pub open spec fn walks<P: Fn(u64, u64) -> Cursor>(step: P, ratio: u64, end: nat, trail: Seq<Cursor>) -> bool {
    &&& trail.len() > 0
    &&& forall|k: int| 0 <= k < trail.len() - 1 ==> (#[trigger] trail[k]).frame < end
    &&& forall|k: int|
        0 <= k < trail.len() - 1 ==> #[trigger] steps(step, ratio, trail[k], trail[k + 1])
}

impl Source {
    /// The samples of the file.
    pub closed spec fn samples(self) -> Seq<Seq<u32>> {
        (*self.pcm)@
    }

    /// Exclusive end of the range.
    pub closed spec fn range_end(self) -> nat {
        self.end as nat
    }

    /// Channels of the device.
    pub closed spec fn devs(self) -> nat {
        self.dev_channels as nat
    }

    /// Sampling rates of the file and of the device.
    pub closed spec fn rates(self) -> (u32, u32) {
        (self.pcm.rate(), self.dev_rate)
    }

    /// Source frames per device frame, as a double-precision pattern.
    pub closed spec fn pace(self) -> u64 {
        self.ratio
    }

    /// Where the source reads next.
    pub closed spec fn at(self) -> Cursor {
        self.cursor
    }

    /// The range lies inside the file, and the device has a channel and a rate.
    pub closed spec fn wf(self) -> bool {
        &&& self.pcm.wf()
        &&& self.dev_channels > 0
        &&& self.dev_rate > 0
        &&& self.end <= self.pcm.n_frames()
    }

    /// The channels of the file are at least as long as the range.
    pub proof fn lemma_shape(&self)
        requires
            self.wf(),
        ensures
            self.devs() > 0,
            self.rates().1 > 0,
            0 < self.samples().len() <= usize::MAX,
            forall|c: int| 0 <= c < self.samples().len() ==> (#[trigger] self.samples()[c]).len() >= self.range_end(),
    {
        self.pcm.lemma_shape();
    }

    /// Plays `start..end` of `pcm` on a device with `dev_channels` channels at `dev_rate`. `origin`
    /// is `start` as a double-precision pattern, and `over` gives the quotient of two rates.
    pub fn new<Q: Fn(u32, u32) -> u64>(
        pcm: Arc<PcmCache>,
        start: usize,
        end: usize,
        dev_channels: usize,
        dev_rate: u32,
        origin: u64,
        over: &Q,
    ) -> (r: Source)
        requires
            pcm.wf(),
            start <= end <= pcm.n_frames(),
            dev_channels > 0,
            dev_rate > 0,
            call_requires(*over, (pcm.rate(), dev_rate)),
        ensures
            r.wf(),
            r.samples() == (*pcm)@,
            r.range_end() == end,
            r.devs() == dev_channels,
            r.rates() == (pcm.rate(), dev_rate),
            call_ensures(*over, (pcm.rate(), dev_rate), r.pace()),
            r.at() == (Cursor { pos: origin, frame: start, frac: 0 }),
    {
        let ratio: u64 = over(pcm.sample_rate(), dev_rate);
        Source { pcm, end, dev_channels, dev_rate, ratio, cursor: Cursor { pos: origin, frame: start, frac: 0 } }
    }

    /// Source frames per device frame: the quotient of the two rates, as a double-precision pattern.
    pub fn ratio(&self) -> (r: u64)
        ensures
            r == self.pace(),
    {
        self.ratio
    }

    /// Whether the range has been read to its end.
    pub fn finished(&self) -> (r: bool)
        ensures
            r == (self.at().frame >= self.range_end()),
    {
        self.cursor.frame >= self.end
    }

    /// Fills `out` with interleaved device frames and returns how many. Where the range runs out,
    /// the rest of `out` stays as it is; so does a partial frame at its end.
    ///
    /// `step` gives the position that follows one, so many frames on.
    pub fn fill<
        P: Fn(u64, u64) -> Cursor,
        B: Fn(u32, u32, u32) -> u32,
        S: Fn(u32, u32) -> u32,
        H: Fn(u32, usize) -> u32,
    >(&mut self, out: &mut [u32], step: &P, mixer: &Mixer<B, S, H>) -> (r: usize)
        requires
            old(self).wf(),
            mixer.total(),
            forall|p: u64| #[trigger] call_requires(*step, (p, old(self).pace())),
        ensures
            final(self).wf(),
            old(self).fills(*step, *mixer, *final(self), old(out)@, final(out)@, r as int),
    {
        let devs: usize = self.dev_channels;
        let n: usize = out.len();
        let frames: usize = n / devs;
        let ghost start = *self;
        let ghost before = out@;
        let ghost mut trail: Seq<Cursor> = seq![self.cursor];
        let mut k: usize = 0;
        proof {
            assert(0 * devs == 0) by (nonlinear_arith);
        }
        while k < frames && self.cursor.frame < self.end
            invariant
                self.wf(),
                self.same_range(start),
                start.devs() == devs,
                devs > 0,
                mixer.total(),
                forall|p: u64| #[trigger] call_requires(*step, (p, start.pace())),
                n == before.len(),
                out@.len() == n,
                frames == n / devs,
                k <= frames,
                trail.len() == k + 1,
                trail[0] == start.at(),
                trail[k as int] == self.at(),
                start.plays(*step, *mixer, trail, out@),
                forall|i: int| k * devs <= i < n ==> #[trigger] out@[i] == before[i],
            decreases frames - k,
        {
            proof {
                lemma_whole_frame(n as nat, devs as nat, k as int);
            }
            let ghost at = self.cursor;
            let ghost heard = out@;
            self.frame(out, k * devs, mixer);
            let next: Cursor = step(self.cursor.pos, self.ratio);
            self.cursor = next;
            proof {
                let longer = trail.push(next);
                start.lemma_plays_on(*step, *mixer, trail, heard, longer, out@);
                trail = longer;
                assert(k * devs + devs == (k + 1) * devs) by (nonlinear_arith);
            }
            k = k + 1;
        }
        proof {
            assert(k * devs <= n) by {
                if k > 0 {
                    lemma_whole_frame(n as nat, devs as nat, k - 1);
                    assert((k - 1) * devs + devs == k * devs) by (nonlinear_arith);
                }
            }
            assert(start.runs(*step, *mixer, *self, out@, k as int, trail));
        }
        k
    }

    /// A call of [`Source::fill`] on a buffer that held `before` leaves `after` of the source and
    /// `out` in the buffer, and returns `r`.
    pub open spec fn fills<
        P: Fn(u64, u64) -> Cursor,
        B: Fn(u32, u32, u32) -> u32,
        S: Fn(u32, u32) -> u32,
        H: Fn(u32, usize) -> u32,
    >(self, step: P, mixer: Mixer<B, S, H>, after: Source, before: Seq<u32>, out: Seq<u32>, r: int) -> bool {
        &&& after.same_range(self)
        &&& out.len() == before.len()
        &&& 0 <= r
        &&& r * self.devs() <= out.len()
        &&& forall|i: int| r * self.devs() <= i < out.len() ==> #[trigger] out[i] == before[i]
        &&& exists|trail: Seq<Cursor>| #[trigger] self.runs(step, mixer, after, out, r, trail)
    }

    /// The source reads `r` frames along `trail` up to where `after` stands: all that fit into `out`,
    /// or fewer where the range runs out.
    pub open spec fn runs<
        P: Fn(u64, u64) -> Cursor,
        B: Fn(u32, u32, u32) -> u32,
        S: Fn(u32, u32) -> u32,
        H: Fn(u32, usize) -> u32,
    >(self, step: P, mixer: Mixer<B, S, H>, after: Source, out: Seq<u32>, r: int, trail: Seq<Cursor>) -> bool {
        &&& trail.len() == r + 1
        &&& trail[0] == self.at()
        &&& trail[r] == after.at()
        &&& self.plays(step, mixer, trail, out)
        &&& r == out.len() / self.devs() || trail[r].frame >= self.range_end()
    }

    /// `self` plays the same range on the same device as `other`.
    pub open spec fn same_range(self, other: Source) -> bool {
        &&& self.samples() == other.samples()
        &&& self.range_end() == other.range_end()
        &&& self.devs() == other.devs()
        &&& self.rates() == other.rates()
        &&& self.pace() == other.pace()
    }

    /// `out` begins with what the device hears along `trail`: a frame for each position but the
    /// last.
    pub open spec fn plays<
        P: Fn(u64, u64) -> Cursor,
        B: Fn(u32, u32, u32) -> u32,
        S: Fn(u32, u32) -> u32,
        H: Fn(u32, usize) -> u32,
    >(self, step: P, mixer: Mixer<B, S, H>, trail: Seq<Cursor>, out: Seq<u32>) -> bool {
        &&& walks(step, self.pace(), self.range_end(), trail)
        &&& forall|k: int, c: int|
            #![trigger trail[k], out[k * self.devs() + c]]
            0 <= k < trail.len() - 1 && 0 <= c < self.devs() ==> mixer.hears(
                self.samples(),
                self.range_end() as int,
                self.devs(),
                c,
                trail[k],
                out[k * self.devs() + c],
            )
    }

    /// Playing one frame more.
    proof fn lemma_plays_on<
        P: Fn(u64, u64) -> Cursor,
        B: Fn(u32, u32, u32) -> u32,
        S: Fn(u32, u32) -> u32,
        H: Fn(u32, usize) -> u32,
    >(
        &self,
        step: P,
        mixer: Mixer<B, S, H>,
        trail: Seq<Cursor>,
        out: Seq<u32>,
        longer: Seq<Cursor>,
        after: Seq<u32>,
    )
        requires
            trail.len() > 0,
            self.plays(step, mixer, trail, out),
            longer == trail.push(longer.last()),
            trail.last().frame < self.range_end(),
            steps(step, self.pace(), trail.last(), longer.last()),
            forall|i: int| 0 <= i < (trail.len() - 1) * self.devs() ==> #[trigger] after[i] == out[i],
            forall|c: int|
                0 <= c < self.devs() ==> mixer.hears(
                    self.samples(),
                    self.range_end() as int,
                    self.devs(),
                    c,
                    trail.last(),
                    #[trigger] after[(trail.len() - 1) * self.devs() + c],
                ),
        ensures
            self.plays(step, mixer, longer, after),
    {
        let m = trail.len() - 1;
        let devs = self.devs() as int;
        assert forall|k: int| 0 <= k < longer.len() - 1 implies steps(step, self.pace(), #[trigger] longer[k], longer[k + 1]) by {
            if k < m {
                assert(trail[k] == longer[k] && trail[k + 1] == longer[k + 1]);
            }
        }
        assert forall|k: int, c: int|
            #![trigger longer[k], after[k * devs + c]]
            0 <= k < longer.len() - 1 && 0 <= c < devs implies mixer.hears(
            self.samples(),
            self.range_end() as int,
            self.devs(),
            c,
            longer[k],
            after[k * devs + c],
        ) by {
            assert(longer[k] == trail[k]);
            if k < m {
                assert(0 <= k * devs + c < m * devs) by (nonlinear_arith)
                    requires
                        0 <= k < m,
                        0 <= c < devs,
                ;
                assert(after[k * devs + c] == out[k * devs + c]);
            }
        }
    }

    /// Writes the frame at the cursor into `out` at `base`.
    fn frame<B: Fn(u32, u32, u32) -> u32, S: Fn(u32, u32) -> u32, H: Fn(u32, usize) -> u32>(
        &self,
        out: &mut [u32],
        base: usize,
        mixer: &Mixer<B, S, H>,
    )
        requires
            self.wf(),
            mixer.total(),
            self.at().frame < self.range_end(),
            base + self.devs() <= old(out)@.len() <= usize::MAX,
        ensures
            final(out)@.len() == old(out)@.len(),
            forall|c: int|
                0 <= c < self.devs() ==> mixer.hears(
                    self.samples(),
                    self.range_end() as int,
                    self.devs(),
                    c,
                    self.at(),
                    #[trigger] final(out)@[base + c],
                ),
            forall|i: int|
                0 <= i < base || base + self.devs() <= i < old(out)@.len() ==> #[trigger] final(out)@[i] == old(
                    out,
                )@[i],
    {
        let file_channels: usize = self.pcm.channels();
        let devs: usize = self.dev_channels;
        proof {
            self.lemma_shape();
        }
        if devs == 1 && file_channels > 1 {
            let mut acc: u32 = 0;
            let mut c: usize = 0;
            while c < file_channels
                invariant
                    self.wf(),
                    mixer.total(),
                    self.at().frame < self.range_end(),
                    file_channels == self.samples().len(),
                    c <= file_channels,
                    mixer.sums(self.samples(), self.range_end() as int, self.at(), c as nat, acc),
                decreases file_channels - c,
            {
                let v: u32 = self.tap(c, mixer);
                let ghost prev = acc;
                acc = (mixer.sum)(acc, v);
                proof {
                    let n = (c + 1) as nat;
                    assert(mixer.adds(self.samples()[n - 1], self.range_end() as int, self.at(), prev, v, acc));
                    assert(mixer.sums(self.samples(), self.range_end() as int, self.at(), n, acc));
                }
                c = c + 1;
            }
            out[base] = (mixer.share)(acc, file_channels);
            return;
        }
        let ghost before = out@;
        let mut c: usize = 0;
        while c < devs
            invariant
                self.wf(),
                mixer.total(),
                self.at().frame < self.range_end(),
                file_channels == self.samples().len(),
                file_channels > 0,
                devs == self.devs(),
                !(devs == 1 && file_channels > 1),
                base + devs <= out@.len() <= usize::MAX,
                out@.len() == before.len(),
                c <= devs,
                forall|k: int|
                    0 <= k < c ==> mixer.hears(
                        self.samples(),
                        self.range_end() as int,
                        self.devs(),
                        k,
                        self.at(),
                        #[trigger] out@[base + k],
                    ),
                forall|i: int| 0 <= i < base || base + c <= i < before.len() ==> #[trigger] out@[i] == before[i],
            decreases devs - c,
        {
            out[base + c] = self.tap(c % file_channels, mixer);
            c = c + 1;
        }
    }

    /// Channel `ch` of the file at the cursor.
    fn tap<B: Fn(u32, u32, u32) -> u32, S: Fn(u32, u32) -> u32, H: Fn(u32, usize) -> u32>(
        &self,
        ch: usize,
        mixer: &Mixer<B, S, H>,
    ) -> (v: u32)
        requires
            self.wf(),
            mixer.total(),
            self.at().frame < self.range_end(),
            ch < self.samples().len(),
        ensures
            mixer.taps(self.samples()[ch as int], self.range_end() as int, self.at(), v),
    {
        proof {
            self.lemma_shape();
        }
        let s: &[u32] = self.pcm.channel(ch);
        let i: usize = self.cursor.frame;
        // The last frame is held: the next one is outside the range.
        let j: usize = if i < self.end - 1 {
            i + 1
        } else {
            self.end - 1
        };
        (mixer.blend)(s[i], s[j], self.cursor.frac)
    }
}

/// Frame `k` of a buffer of `n` samples lies inside it.
proof fn lemma_whole_frame(n: nat, devs: nat, k: int)
    requires
        devs > 0,
        0 <= k < n / devs,
    ensures
        0 <= k * devs,
        k * devs + devs <= n,
{
    vstd::arithmetic::div_mod::lemma_fundamental_div_mod(n as int, devs as int);
    let q = (n / devs) as int;
    assert(k * devs + devs <= devs * q && 0 <= k * devs) by (nonlinear_arith)
        requires
            0 <= k < q,
            devs > 0,
    ;
}

/// Tops the ring up from `source` with whole frames, and tells whether the source is exhausted. A
/// ring without room for a frame is left alone.
pub fn pump<
    P: Fn(u64, u64) -> Cursor,
    B: Fn(u32, u32, u32) -> u32,
    S: Fn(u32, u32) -> u32,
    H: Fn(u32, usize) -> u32,
>(producer: &mut Producer<u32>, source: &mut Source, step: &P, mixer: &Mixer<B, S, H>) -> (r: bool)
    requires
        old(source).wf(),
        mixer.total(),
        forall|p: u64| #[trigger] call_requires(*step, (p, old(source).pace())),
    ensures
        final(source).wf(),
        final(source).same_range(*old(source)),
        inflow(*final(producer)) == inflow(*old(producer)),
        size(*final(producer)) == size(*old(producer)),
        written(*old(producer)).is_prefix_of(inflow(*old(producer))) ==> written(*final(producer)).is_prefix_of(
            inflow(*final(producer)),
        ),
        exists|free: usize, trail: Seq<Cursor>, heard: Seq<u32>|
            {
                &&& #[trigger] old(source).feeds(*step, *mixer, free as nat, trail, heard)
                &&& spare(*old(producer)) <= free <= room(*old(producer))
                &&& if free >= old(source).devs() {
                    spare(*final(producer)) == room(*old(producer)) - heard.len()
                } else {
                    *final(producer) == *old(producer)
                }
                &&& size(*old(producer)) <= free + written(*old(producer)).len()
                &&& trail.last() == final(source).at()
                &&& written(*final(producer)) == written(*old(producer)) + heard
                &&& r == (free >= old(source).devs() && final(source).at().frame >= old(source).range_end())
            },
{
    let free: usize = free_slots(producer);
    feed(producer, source, free, step, mixer)
}

/// Fills up to `free` slots of the ring from `source`, and tells whether the source is exhausted.
pub fn feed<
    P: Fn(u64, u64) -> Cursor,
    B: Fn(u32, u32, u32) -> u32,
    S: Fn(u32, u32) -> u32,
    H: Fn(u32, usize) -> u32,
>(producer: &mut Producer<u32>, source: &mut Source, free: usize, step: &P, mixer: &Mixer<B, S, H>) -> (r: bool)
    requires
        old(source).wf(),
        free <= room(*old(producer)),
        mixer.total(),
        forall|p: u64| #[trigger] call_requires(*step, (p, old(source).pace())),
    ensures
        final(source).wf(),
        final(source).same_range(*old(source)),
        inflow(*final(producer)) == inflow(*old(producer)),
        size(*final(producer)) == size(*old(producer)),
        written(*old(producer)).is_prefix_of(inflow(*old(producer))) ==> written(*final(producer)).is_prefix_of(
            inflow(*final(producer)),
        ),
        exists|trail: Seq<Cursor>, heard: Seq<u32>|
            {
                &&& #[trigger] old(source).feeds(*step, *mixer, free as nat, trail, heard)
                &&& trail.last() == final(source).at()
                &&& written(*final(producer)) == written(*old(producer)) + heard
                &&& if free >= old(source).devs() {
                    spare(*final(producer)) == room(*old(producer)) - heard.len()
                } else {
                    *final(producer) == *old(producer)
                }
            },
        r == (free >= old(source).devs() && final(source).at().frame >= old(source).range_end()),
{
    let devs: usize = source.dev_channels;
    let frames: usize = free / devs;
    let ghost start = *source;
    if frames == 0 {
        proof {
            let trail = seq![start.at()];
            let heard = Seq::<u32>::empty();
            assert(free < devs) by {
                if free >= devs {
                    vstd::arithmetic::div_mod::lemma_div_non_zero(free as int, devs as int);
                }
            }
            assert(start.feeds(*step, *mixer, free as nat, trail, heard));
            assert(written(*producer) =~= written(*producer) + heard);
        }
        return false;
    }
    proof {
        lemma_whole_frame(free as nat, devs as nat, frames - 1);
        assert((frames - 1) * devs + devs == frames * devs) by (nonlinear_arith);
        assert(free >= devs) by {
            if free < devs {
                vstd::arithmetic::div_mod::lemma_basic_div(free as int, devs as int);
            }
        }
    }
    let size: usize = frames * devs;
    let mut buffer: Vec<u32> = vec![0; size];
    let filled: usize = source.fill(buffer.as_mut_slice(), step, mixer);
    let ghost full = buffer@;
    proof {
        assert(size / devs == frames) by {
            vstd::arithmetic::div_mod::lemma_div_by_multiple(frames as int, devs as int);
        }
    }
    let ghost trail = choose|trail: Seq<Cursor>| #[trigger]
        start.runs(*step, *mixer, *source, full, filled as int, trail);
    let n: usize = filled * devs;
    let heard: &[u32] = vstd::slice::slice_subrange(buffer.as_slice(), 0, n);
    proof {
        assert(start.plays(*step, *mixer, trail, heard@)) by {
            start.lemma_plays_prefix(*step, *mixer, trail, full, heard@);
        }
        assert(start.feeds(*step, *mixer, free as nat, trail, heard@));
    }
    let _fits: bool = push_slice(producer, heard);
    source.finished()
}

impl Source {
    /// With `free` free slots in the ring, the source reads along `trail` and `heard` goes into the
    /// ring: as many whole frames as there is room for, or fewer where the range runs out.
    pub open spec fn feeds<
        P: Fn(u64, u64) -> Cursor,
        B: Fn(u32, u32, u32) -> u32,
        S: Fn(u32, u32) -> u32,
        H: Fn(u32, usize) -> u32,
    >(self, step: P, mixer: Mixer<B, S, H>, free: nat, trail: Seq<Cursor>, heard: Seq<u32>) -> bool {
        &&& self.plays(step, mixer, trail, heard)
        &&& trail[0] == self.at()
        &&& heard.len() == (trail.len() - 1) * self.devs()
        &&& heard.len() <= free
        &&& trail.len() - 1 == free / self.devs() || trail.last().frame >= self.range_end()
    }

    /// What is heard of a buffer is in its first frames.
    proof fn lemma_plays_prefix<
        P: Fn(u64, u64) -> Cursor,
        B: Fn(u32, u32, u32) -> u32,
        S: Fn(u32, u32) -> u32,
        H: Fn(u32, usize) -> u32,
    >(&self, step: P, mixer: Mixer<B, S, H>, trail: Seq<Cursor>, full: Seq<u32>, heard: Seq<u32>)
        requires
            trail.len() > 0,
            self.plays(step, mixer, trail, full),
            (trail.len() - 1) * self.devs() <= full.len(),
            heard == full.take((trail.len() - 1) * self.devs()),
        ensures
            self.plays(step, mixer, trail, heard),
    {
        let m = trail.len() - 1;
        let devs = self.devs() as int;
        assert forall|k: int, c: int|
            #![trigger trail[k], heard[k * devs + c]]
            0 <= k < m && 0 <= c < devs implies mixer.hears(
            self.samples(),
            self.range_end() as int,
            self.devs(),
            c,
            trail[k],
            heard[k * devs + c],
        ) by {
            assert(0 <= k * devs + c < m * devs) by (nonlinear_arith)
                requires
                    0 <= k < m,
                    0 <= c < devs,
            ;
            assert(heard[k * devs + c] == full[k * devs + c]);
        }
    }
}

/// How many samples a callback takes where `slots` are filled and it wants `want`: whole frames.
pub open spec fn takes(slots: nat, want: nat, channels: nat) -> nat {
    (clamp(slots as int, want as int) as nat / channels) * channels
}

/// How many samples a callback takes where `slots` are filled and it wants `want`.
pub fn take_count(slots: usize, want: usize, channels: usize) -> (r: usize)
    requires
        channels > 0,
    ensures
        r == takes(slots as nat, want as nat, channels as nat),
        r <= slots,
        r <= want,
        r % channels == 0,
{
    let most: usize = if slots < want {
        slots
    } else {
        want
    };
    let frames: usize = most / channels;
    proof {
        vstd::arithmetic::div_mod::lemma_fundamental_div_mod(most as int, channels as int);
        assert(frames * channels == channels * frames) by (nonlinear_arith);
        vstd::arithmetic::div_mod::lemma_fundamental_div_mod_converse(
            frames * channels,
            channels as int,
            frames as int,
            0,
        );
    }
    frames * channels
}

/// How a callback ended: a buffer that is not filled is a dropout, unless the source is exhausted
/// and the ring is drained.
pub fn ending_of(filled: bool, feed_done: bool, drained: bool) -> (r: Ending)
    ensures
        r == (if filled {
            Ending::Full
        } else if feed_done && drained {
            Ending::Finished
        } else {
            Ending::Starved
        }),
{
    if filled {
        Ending::Full
    } else if feed_done && drained {
        Ending::Finished
    } else {
        Ending::Starved
    }
}

/// `out` begins with `got` samples that were read from the ring, and the rest is silence.
pub open spec fn delivers(old_read: Seq<u32>, new_read: Seq<u32>, got: int, out: Seq<u32>) -> bool {
    &&& 0 <= got <= out.len()
    &&& new_read == old_read + out.take(got)
    &&& out.skip(got) == silent((out.len() - got) as nat)
}

/// Moves whole frames out of the `slots` filled slots of the ring into the device buffer and silences
/// the rest of it. Returns how many samples were moved.
pub fn deliver(consumer: &mut Consumer<u32>, out: &mut [u32], channels: usize, slots: usize) -> (got: usize)
    requires
        channels > 0,
        slots <= ready(*old(consumer)),
    ensures
        got == takes(slots as nat, old(out)@.len(), channels as nat),
        final(out)@.len() == old(out)@.len(),
        outflow(*final(consumer)) == outflow(*old(consumer)),
        read(*old(consumer)).is_prefix_of(outflow(*old(consumer))) ==> read(*final(consumer)).is_prefix_of(
            outflow(*final(consumer)),
        ),
        delivers(read(*old(consumer)), read(*final(consumer)), got as int, final(out)@),
        got > 0 ==> final(out)@.take(got as int) == coming(*old(consumer), got as nat),
        got > 0 ==> left(*final(consumer)) == ready(*old(consumer)) - got,
        got == 0 ==> *final(consumer) == *old(consumer),
{
    let want: usize = out.len();
    let got: usize = take_count(slots, want, channels);
    let ghost before = read(*consumer);
    let (head, tail): (&mut [u32], &mut [u32]) = out.split_at_mut(got);
    let _taken: bool = if got > 0 {
        pop_slice(consumer, head)
    } else {
        proof {
            assert(before =~= before + head@);
        }
        true
    };
    silence(tail);
    proof {
        assert(has_resolved(head) && has_resolved(tail));
        assert(out@.take(got as int) =~= head@);
        assert(out@.skip(got as int) =~= tail@);
        if got > 0 {
            lemma_coming(*old(consumer), *consumer, out@.take(got as int));
        }
    }
    got
}

/// The body of the output callback: moves whole frames from the ring into the device buffer. What it
/// cannot fill becomes silence.
///
/// `feed_done` tells whether the source is exhausted; it is asked after the ring was read.
pub fn render<D: Fn() -> bool>(consumer: &mut Consumer<u32>, out: &mut [u32], channels: usize, feed_done: &D) -> (r:
    Rendered)
    requires
        channels > 0,
        call_requires(*feed_done, ()),
    ensures
        final(out)@.len() == old(out)@.len(),
        outflow(*final(consumer)) == outflow(*old(consumer)),
        read(*old(consumer)).is_prefix_of(outflow(*old(consumer))) ==> read(*final(consumer)).is_prefix_of(
            outflow(*final(consumer)),
        ),
        exists|slots: usize| #![trigger takes(slots as nat, old(out)@.len(), channels as nat)]
            {
                let got = takes(slots as nat, old(out)@.len(), channels as nat) as int;
                &&& left(*old(consumer)) <= slots <= ready(*old(consumer))
                &&& got > 0 ==> final(out)@.take(got) == coming(*old(consumer), got as nat)
                &&& got > 0 ==> left(*final(consumer)) == ready(*old(consumer)) - got
                &&& got == 0 ==> *final(consumer) == *old(consumer)
                &&& delivers(read(*old(consumer)), read(*final(consumer)), got, final(out)@)
                &&& r.frames == got / channels as int
                &&& match r.ending {
                    Ending::Full => got == old(out)@.len(),
                    Ending::Finished => {
                        &&& got < old(out)@.len()
                        &&& call_ensures(*feed_done, (), true)
                        &&& left(*final(consumer)) == 0
                    },
                    Ending::Starved => got < old(out)@.len() && (call_ensures(*feed_done, (), false) || ready(
                        *final(consumer),
                    ) > 0),
                }
            },
{
    let want: usize = out.len();
    let slots: usize = filled_slots(consumer);
    let got: usize = deliver(consumer, out, channels, slots);
    let frames: u64 = (got / channels) as u64;
    proof {
        assert(takes(slots as nat, want as nat, channels as nat) == got);
    }
    if got == want {
        return Rendered { frames, ending: Ending::Full };
    }
    let done: bool = feed_done();
    let drained: bool = done && is_empty(consumer);
    Rendered { frames, ending: ending_of(false, done, drained) }
}

/// A quarter of a second of audio in frames, at least one.
pub open spec fn ring_frames(rate: u32) -> nat {
    if rate == 0 {
        1
    } else {
        ((rate + 3) / 4) as nat
    }
}

/// Ring size in samples for a device: a quarter of a second of audio in whole frames.
///
/// The size has to be a whole number of frames: a ring splits at its end, and together with ends that
/// move whole frames alone this lets the split fall between two frames. Else the channels would
/// change places with every turn of the ring.
pub fn ring_capacity(dev_rate: u32, dev_channels: usize) -> (r: usize)
    requires
        ring_frames(dev_rate) * dev_channels <= usize::MAX,
    ensures
        r == ring_frames(dev_rate) * dev_channels,
{
    let frames: usize = if dev_rate == 0 {
        1
    } else {
        (dev_rate / 4) as usize + (if dev_rate % 4 == 0 {
            0
        } else {
            1
        })
    };
    proof {
        assert(frames == ring_frames(dev_rate));
        assert(frames * dev_channels == ring_frames(dev_rate) * dev_channels);
    }
    frames * dev_channels
}

/// The ring for a device, empty and with room for all of its capacity.
pub fn playback_ring(dev_rate: u32, dev_channels: usize) -> (r: (Producer<u32>, Consumer<u32>))
    requires
        ring_frames(dev_rate) * dev_channels * 4 <= isize::MAX,
    ensures
        written(r.0) == Seq::<u32>::empty(),
        read(r.1) == Seq::<u32>::empty(),
        inflow(r.0) == outflow(r.1),
        size(r.0) == ring_frames(dev_rate) * dev_channels,
        room(r.0) == ring_frames(dev_rate) * dev_channels,
        spare(r.0) == ring_frames(dev_rate) * dev_channels,
        left(r.1) == 0,
{
    ring(ring_capacity(dev_rate, dev_channels))
}

/// The capacity of a ring is a whole number of frames, and at least one.
pub proof fn law_ring_capacity_is_whole_frames(frames: nat, channels: nat)
    requires
        frames >= 1,
        channels >= 1,
    ensures
        (frames * channels) % channels == 0,
        frames * channels >= channels,
{
    vstd::arithmetic::div_mod::lemma_mod_multiples_basic(frames as int, channels as int);
    assert(frames * channels >= channels) by (nonlinear_arith)
        requires
            frames >= 1,
    ;
}

/// A range of configurations that a device supports.
#[derive(Debug, Clone, Copy, PartialEq, Eq, Structural)]
pub struct ConfigRange {
    /// Number of channels.
    pub channels: u16,
    /// Lowest sampling rate.
    pub min_rate: u32,
    /// Highest sampling rate.
    pub max_rate: u32,
    /// Whether the samples are floats.
    pub is_f32: bool,
}

/// A chosen configuration.
#[derive(Debug, Clone, Copy, PartialEq, Eq, Structural)]
pub struct Chosen {
    /// Number of channels.
    pub channels: u16,
    /// Sampling rate.
    pub sample_rate: u32,
}

impl ConfigRange {
    /// The range has float samples, a channel and a rate.
    pub open spec fn usable(self) -> bool {
        self.is_f32 && self.channels >= 1 && self.min_rate <= self.max_rate
    }

    /// The rate of the range nearest to `rate`.
    pub open spec fn nearest(self, rate: u32) -> u32 {
        if rate < self.min_rate {
            self.min_rate
        } else if rate > self.max_rate {
            self.max_rate
        } else {
            rate
        }
    }

    /// What is chosen of the range for `rate`.
    pub open spec fn choice(self, rate: u32) -> Chosen {
        Chosen { channels: self.channels, sample_rate: self.nearest(rate) }
    }

    /// By what the range is judged: whether it misses the rate, how far its channel count is from
    /// the preferred one, its channel count, and how far its nearest rate is from the rate.
    pub open spec fn key(self, rate: u32, preferred: u16) -> (int, int, int, int) {
        (
            if self.nearest(rate) != rate {
                1
            } else {
                0
            },
            distance(self.channels as int, preferred as int),
            self.channels as int,
            distance(self.nearest(rate) as int, rate as int),
        )
    }

    /// Whether the range has float samples, a channel and a rate.
    fn is_usable(&self) -> (r: bool)
        ensures
            r == self.usable(),
    {
        self.is_f32 && self.channels >= 1 && self.min_rate <= self.max_rate
    }

    /// What is chosen of the range for `rate`.
    fn choose_for(&self, rate: u32) -> (r: Chosen)
        ensures
            r == self.choice(rate),
    {
        let sample_rate: u32 = if rate < self.min_rate {
            self.min_rate
        } else if rate > self.max_rate {
            self.max_rate
        } else {
            rate
        };
        Chosen { channels: self.channels, sample_rate }
    }

    /// Whether the range is judged better than `other`.
    fn beats(&self, other: &ConfigRange, rate: u32, preferred: u16) -> (r: bool)
        ensures
            r == precedes(self.key(rate, preferred), other.key(rate, preferred)),
    {
        let off: u32 = apart(self.choose_for(rate).sample_rate, rate);
        let other_off: u32 = apart(other.choose_for(rate).sample_rate, rate);
        let far: u32 = apart(self.channels as u32, preferred as u32);
        let other_far: u32 = apart(other.channels as u32, preferred as u32);
        if (off != 0) != (other_off != 0) {
            other_off != 0
        } else if far != other_far {
            far < other_far
        } else if self.channels != other.channels {
            self.channels < other.channels
        } else {
            off < other_off
        }
    }
}

/// How far two numbers are apart.
pub open spec fn distance(a: int, b: int) -> int {
    if a >= b {
        a - b
    } else {
        b - a
    }
}

/// How far two channel counts or two rates are apart.
fn apart(a: u32, b: u32) -> (r: u32)
    ensures
        r == distance(a as int, b as int),
{
    if a >= b {
        a - b
    } else {
        b - a
    }
}

/// The order of keys: by the first entry, then the second, then the third, then the fourth.
pub open spec fn precedes(a: (int, int, int, int), b: (int, int, int, int)) -> bool {
    a.0 < b.0 || (a.0 == b.0 && (a.1 < b.1 || (a.1 == b.1 && (a.2 < b.2 || (a.2 == b.2 && a.3 < b.3)))))
}

/// Range `i` is the first of the best usable ones.
pub open spec fn best_range(ranges: Seq<ConfigRange>, rate: u32, preferred: u16, i: int) -> bool {
    &&& 0 <= i < ranges.len()
    &&& ranges[i].usable()
    &&& forall|j: int|
        0 <= j < ranges.len() && (#[trigger] ranges[j]).usable() ==> !precedes(
            ranges[j].key(rate, preferred),
            ranges[i].key(rate, preferred),
        )
    &&& forall|j: int|
        0 <= j < i && (#[trigger] ranges[j]).usable() ==> precedes(
            ranges[i].key(rate, preferred),
            ranges[j].key(rate, preferred),
        )
}

/// `r` is what is chosen among `ranges`: the first of the best usable ones, if there is any.
pub open spec fn picks(ranges: Seq<ConfigRange>, rate: u32, preferred: u16, r: Option<Chosen>) -> bool {
    match r {
        Some(c) => exists|i: int| #[trigger] best_range(ranges, rate, preferred, i) && c == ranges[i].choice(rate),
        None => forall|j: int| 0 <= j < ranges.len() ==> !(#[trigger] ranges[j]).usable(),
    }
}

/// Chooses among `ranges` for a rate and a preferred channel count.
pub fn pick_nearest(ranges: &[ConfigRange], rate: u32, preferred: u16) -> (r: Option<Chosen>)
    ensures
        picks(ranges@, rate, preferred, r),
{
    let mut best: Option<usize> = None;
    let mut j: usize = 0;
    while j < ranges.len()
        invariant
            j <= ranges@.len(),
            match best {
                Some(i) => i < j && best_range(ranges@.take(j as int), rate, preferred, i as int),
                None => forall|k: int| 0 <= k < j ==> !(#[trigger] ranges@[k]).usable(),
            },
        decreases ranges@.len() - j,
    {
        let ghost front = ranges@.take(j as int);
        let ghost longer = ranges@.take(j + 1);
        proof {
            assert forall|k: int| 0 <= k < j implies #[trigger] longer[k] == front[k] by {}
            assert forall|k: int| 0 <= k < j implies #[trigger] longer[k] == ranges@[k] by {}
            assert(longer[j as int] == ranges@[j as int]);
        }
        if ranges[j].is_usable() {
            match best {
                Some(i) => {
                    if ranges[j].beats(&ranges[i], rate, preferred) {
                        best = Some(j);
                        proof {
                            assert forall|k: int| 0 <= k < j && (#[trigger] longer[k]).usable() implies precedes(
                                longer[j as int].key(rate, preferred),
                                longer[k].key(rate, preferred),
                            ) by {
                                assert(front[k].usable());
                                assert(front[i as int] == ranges@[i as int]);
                            }
                            assert(best_range(longer, rate, preferred, j as int));
                        }
                    } else {
                        proof {
                            assert(front[i as int] == longer[i as int]);
                            assert(best_range(longer, rate, preferred, i as int));
                        }
                    }
                },
                None => {
                    best = Some(j);
                    proof {
                        assert(best_range(longer, rate, preferred, j as int));
                    }
                },
            }
        } else {
            proof {
                if best is Some {
                    assert(best_range(longer, rate, preferred, best->0 as int));
                }
            }
        }
        j = j + 1;
    }
    proof {
        assert(ranges@.take(ranges@.len() as int) =~= ranges@);
    }
    match best {
        Some(i) => Some(ranges[i].choose_for(rate)),
        None => None,
    }
}

/// Chooses an output configuration for a source at `src_rate`: one that plays the rate of the file
/// itself, then a channel count closest to stereo, then fewer channels. Where no range has the rate,
/// the nearest rate that is supported with that channel count is taken.
pub fn pick_config(ranges: &[ConfigRange], src_rate: u32) -> (r: Option<Chosen>)
    ensures
        picks(ranges@, src_rate, 2, r),
{
    pick_nearest(ranges, src_rate, 2)
}

/// A configuration with the preferred rate wins over every one without it: where any usable range
/// has the rate, it is chosen exactly.
pub proof fn law_the_own_rate_is_preferred(ranges: Seq<ConfigRange>, rate: u32, preferred: u16, r: Option<Chosen>, j: int)
    requires
        picks(ranges, rate, preferred, r),
        0 <= j < ranges.len(),
        ranges[j].usable(),
        ranges[j].min_rate <= rate <= ranges[j].max_rate,
    ensures
        r matches Some(c) && c.sample_rate == rate,
{
    let i = choose|i: int| #[trigger] best_range(ranges, rate, preferred, i) && r->0 == ranges[i].choice(rate);
    assert(!precedes(ranges[j].key(rate, preferred), ranges[i].key(rate, preferred)));
}

/// The nearest supported rate is used: of all usable ranges with the chosen channel count, none has a
/// rate that is closer to the preferred one.
pub proof fn law_the_nearest_rate_is_used(
    ranges: Seq<ConfigRange>,
    rate: u32,
    preferred: u16,
    c: Chosen,
    j: int,
    other: u32,
)
    requires
        picks(ranges, rate, preferred, Some(c)),
        0 <= j < ranges.len(),
        ranges[j].usable(),
        ranges[j].channels == c.channels,
        ranges[j].min_rate <= other <= ranges[j].max_rate,
    ensures
        distance(c.sample_rate as int, rate as int) <= distance(other as int, rate as int),
{
    let i = choose|i: int| #[trigger] best_range(ranges, rate, preferred, i) && c == ranges[i].choice(rate);
    assert(!precedes(ranges[j].key(rate, preferred), ranges[i].key(rate, preferred)));
}

/// What is chosen is supported: a usable range has the channel count and the rate.
pub proof fn law_the_choice_is_supported(ranges: Seq<ConfigRange>, rate: u32, preferred: u16, c: Chosen)
    requires
        picks(ranges, rate, preferred, Some(c)),
    ensures
        exists|i: int|
            {
                &&& 0 <= i < ranges.len()
                &&& (#[trigger] ranges[i]).usable()
                &&& ranges[i].channels == c.channels
                &&& ranges[i].min_rate <= c.sample_rate <= ranges[i].max_rate
            },
        c.channels >= 1,
{
    let i = choose|i: int| #[trigger] best_range(ranges, rate, preferred, i) && c == ranges[i].choice(rate);
    assert(ranges[i].usable());
}

/// The range that playback of `start..end` of a file with `frames` frames covers. Both ends are
/// clamped to the file; an empty range is an error.
pub fn play_range(frames: usize, start: usize, end: usize) -> (r: Result<(usize, usize), PlayError>)
    ensures
        ({
            let lo = clamp(start as int, frames as int);
            let hi = clamp(end as int, frames as int);
            if lo < hi {
                r == Result::<(usize, usize), PlayError>::Ok((lo as usize, hi as usize))
            } else {
                r == Result::<(usize, usize), PlayError>::Err(PlayError::EmptyRange)
            }
        }),
{
    let lo: usize = if start < frames {
        start
    } else {
        frames
    };
    let hi: usize = if end < frames {
        end
    } else {
        frames
    };
    if lo >= hi {
        return Err(PlayError::EmptyRange);
    }
    Ok((lo, hi))
}

/// The configuration that a device plays a source at `src_rate` with.
pub fn choose_output(ranges: &[ConfigRange], src_rate: u32) -> (r: Result<Chosen, PlayError>)
    ensures
        match r {
            Ok(c) => picks(ranges@, src_rate, 2, Some(c)),
            Err(e) => e == PlayError::NoF32Config && picks(ranges@, src_rate, 2, None),
        },
{
    match pick_config(ranges, src_rate) {
        Some(c) => Ok(c),
        None => Err(PlayError::NoF32Config),
    }
}

/// A command to the playback thread.
#[derive(Debug, Clone, Copy, PartialEq, Eq, Structural)]
pub enum Cmd {
    /// Stand still.
    Pause,
    /// Go on.
    Resume,
    /// Release the device.
    Stop,
}

/// What waiting for a command gave.
#[derive(Debug, Clone, Copy, PartialEq, Eq, Structural)]
pub enum Heard {
    /// A command.
    Command(Cmd),
    /// Nothing for a while.
    Nothing,
    /// Nobody can send any more.
    Closed,
}

/// What happened to the playback thread.
#[derive(Debug, Clone, Copy, PartialEq, Eq, Structural)]
pub enum Event {
    /// It waited for a command.
    Heard(Heard),
    /// It did as it was told. `feed_done` tells whether the whole range is in the ring.
    Obeyed { feed_done: bool },
    /// It looked at the ring. `state` is what the transport is doing by now.
    Fed { state: PlayState },
}

/// What the playback thread does next.
#[derive(Debug, Clone, Copy, PartialEq, Eq, Structural)]
pub enum Action {
    /// Leave and release the device.
    Leave,
    /// Pause the stream and show it.
    Pause,
    /// Resume the stream and show it.
    Resume,
    /// Look whether the ring wants feeding.
    Look,
    /// Top the ring up.
    Feed,
    /// See what the transport is doing.
    See,
    /// Wait for a command.
    Wait,
}

/// Decides what the playback thread does. It obeys a command, tops the ring up while there is more
/// to play, and leaves when the range was heard in full. Where nobody can send any more, it leaves.
pub fn next_action(event: Event) -> (r: Action)
    ensures
        r == (match event {
            Event::Heard(Heard::Command(Cmd::Stop)) => Action::Leave,
            Event::Heard(Heard::Command(Cmd::Pause)) => Action::Pause,
            Event::Heard(Heard::Command(Cmd::Resume)) => Action::Resume,
            Event::Heard(Heard::Nothing) => Action::Look,
            Event::Heard(Heard::Closed) => Action::Leave,
            Event::Obeyed { feed_done } => if feed_done {
                Action::See
            } else {
                Action::Feed
            },
            Event::Fed { state } => if state == PlayState::Finished {
                Action::Leave
            } else {
                Action::Wait
            },
        }),
{
    match event {
        Event::Heard(heard) => match heard {
            Heard::Command(Cmd::Stop) => Action::Leave,
            Heard::Command(Cmd::Pause) => Action::Pause,
            Heard::Command(Cmd::Resume) => Action::Resume,
            Heard::Nothing => Action::Look,
            Heard::Closed => Action::Leave,
        },
        Event::Obeyed { feed_done } => {
            if feed_done {
                Action::See
            } else {
                Action::Feed
            }
        },
        Event::Fed { state } => match state {
            PlayState::Finished => Action::Leave,
            _ => Action::Wait,
        },
    }
}

/// What happened to the playback thread while it started.
#[derive(Debug)]
pub enum Launch {
    /// It has a ring.
    Begun,
    /// It filled the ring.
    Filled,
    /// It asked the device for a stream, which was built or refused.
    Built(Result<(), String>),
    /// It started the stream, or could not.
    Started(Result<(), String>),
    /// It told its caller that it plays. `heard` tells whether the caller was still there.
    Told { heard: bool },
}

/// What the playback thread does next while it starts.
#[derive(Debug)]
pub enum Step {
    /// Fill the ring.
    Fill,
    /// Build the stream.
    Build,
    /// Start the stream.
    Start,
    /// Show the state and tell the caller that it plays.
    Show(PlayState),
    /// Tell the caller the error, show nothing, and leave.
    Fail(PlayError),
    /// Wait for commands.
    Serve,
    /// Leave: the caller gave up, and there is nobody to play for.
    Leave,
}

/// Decides how the playback thread starts. The ring is full before the stream is built, or the first
/// callbacks would starve. The transport plays only when the stream runs, and what the device refuses
/// is told to the caller.
pub fn next_step(event: Launch) -> (r: Step)
    ensures
        match event {
            Launch::Begun => r == Step::Fill,
            Launch::Filled => r == Step::Build,
            Launch::Built(Ok(_)) => r == Step::Start,
            Launch::Built(Err(text)) => r == Step::Fail(PlayError::Device(text)),
            Launch::Started(Ok(_)) => r == Step::Show(PlayState::Playing),
            Launch::Started(Err(text)) => r == Step::Fail(PlayError::Device(text)),
            Launch::Told { heard } => r == (if heard {
                Step::Serve
            } else {
                Step::Leave
            }),
        },
{
    match event {
        Launch::Begun => Step::Fill,
        Launch::Filled => Step::Build,
        Launch::Built(Ok(_)) => Step::Start,
        Launch::Built(Err(text)) => Step::Fail(PlayError::Device(text)),
        Launch::Started(Ok(_)) => Step::Show(PlayState::Playing),
        Launch::Started(Err(text)) => Step::Fail(PlayError::Device(text)),
        Launch::Told { heard } => {
            if heard {
                Step::Serve
            } else {
                Step::Leave
            }
        },
    }
}

/// The state that a transport shows after a command for `wanted`: a command that could not be sent
/// changes nothing, and a playback that ran to its end stays finished.
pub fn commanded(state: PlayState, sent: bool, wanted: PlayState) -> (r: PlayState)
    ensures
        r == (if sent && state != PlayState::Finished {
            wanted
        } else {
            state
        }),
{
    if !sent {
        return state;
    }
    match state {
        PlayState::Finished => state,
        _ => wanted,
    }
}

/// What the start of a playback thread came to: its own word, or an error where it died without one.
pub fn started(word: Option<Result<(), PlayError>>) -> (r: Result<(), PlayError>)
    ensures
        match word {
            Some(w) => r == w,
            None => r matches Err(PlayError::Device(e)) && e@ == "playback thread died on startup"@,
        },
{
    match word {
        Some(w) => w,
        None => Err(PlayError::Device("playback thread died on startup".to_owned())),
    }
}

/// What the transport shows when nothing is playing.
pub fn idle_dto() -> (r: PlaybackDto)
    ensures
        r == (PlaybackDto {
            state: PlayState::Stopped,
            position_frames: 0,
            position_s: 0,
            start_frame: 0,
            end_frame: 0,
            underruns: 0,
        }),
{
    PlaybackDto {
        state: PlayState::Stopped,
        position_frames: 0,
        position_s: 0,
        start_frame: 0,
        end_frame: 0,
        underruns: 0,
    }
}

/// A source whose positions never go back reads nothing outside its range.
pub proof fn law_playback_stays_in_the_range<P: Fn(u64, u64) -> Cursor>(
    step: P,
    ratio: u64,
    end: nat,
    trail: Seq<Cursor>,
    k: int,
)
    requires
        walks(step, ratio, end, trail),
        forall|a: Cursor, b: Cursor| #[trigger] steps(step, ratio, a, b) ==> a.frame <= b.frame,
        0 <= k < trail.len() - 1,
    ensures
        trail[0].frame <= trail[k].frame < end,
    decreases k,
{
    if k > 0 {
        law_playback_stays_in_the_range(step, ratio, end, trail, k - 1);
        assert(steps(step, ratio, trail[k - 1], trail[k - 1 + 1]));
    }
}

/// Where no step goes back, each position lies on the whole frame of where it is, from where the source stood
/// on and before the end of the range. `whole` gives the whole frame of a position.
pub proof fn law_steps_forward_stay_in_the_range<P: Fn(u64, u64) -> Cursor>(
    step: P,
    ratio: u64,
    end: nat,
    trail: Seq<Cursor>,
    whole: spec_fn(u64) -> int,
    k: int,
)
    requires
        walks(step, ratio, end, trail),
        trail[0].frame == whole(trail[0].pos),
        forall|pos: u64, next: Cursor| #[trigger]
            call_ensures(step, (pos, ratio), next) ==> whole(pos) <= whole(next.pos) == next.frame,
        0 <= k < trail.len() - 1,
    ensures
        trail[0].frame <= trail[k].frame < end,
        trail[k].frame == whole(trail[k].pos),
    decreases k,
{
    if k > 0 {
        law_steps_forward_stay_in_the_range(step, ratio, end, trail, whole, k - 1);
        assert(steps(step, ratio, trail[k - 1], trail[k - 1 + 1]));
        assert(call_ensures(step, (trail[k - 1].pos, ratio), trail[k]));
    }
}

/// Frame `f` of the channels `samples`: a sample of each.
pub open spec fn frame_of(samples: Seq<Seq<u32>>, f: int) -> Seq<u32> {
    Seq::new(samples.len(), |c: int| samples[c][f])
}

/// One frame on, `step` goes from each frame before `end` to the next one with nothing left over,
/// where `place` gives the position of a frame.
pub open spec fn unit_steps<P: Fn(u64, u64) -> Cursor>(step: P, end: nat, place: spec_fn(int) -> u64) -> bool {
    forall|f: usize, next: Cursor|
        f < end && #[trigger] call_ensures(step, (place(f as int), WIDE_ONE), next) ==> next == exactly_at(
            f + 1,
            place,
        )
}

/// A position on frame `f`, with nothing left over.
pub open spec fn exactly_at(f: int, place: spec_fn(int) -> u64) -> Cursor {
    Cursor { pos: place(f), frame: f as usize, frac: 0 }
}

/// Along unit steps the positions are those of consecutive frames.
proof fn lemma_unit_trail<P: Fn(u64, u64) -> Cursor>(
    step: P,
    ratio: u64,
    end: nat,
    trail: Seq<Cursor>,
    first: int,
    place: spec_fn(int) -> u64,
    k: int,
)
    requires
        walks(step, ratio, end, trail),
        unit_steps(step, end, place),
        ratio == WIDE_ONE,
        0 <= first <= end <= usize::MAX,
        trail[0] == exactly_at(first, place),
        0 <= k < trail.len(),
    ensures
        first + k <= end,
        trail[k] == exactly_at(first + k, place),
    decreases k,
{
    if k > 0 {
        lemma_unit_trail(step, ratio, end, trail, first, place, k - 1);
        let f = (first + k - 1) as usize;
        assert(trail[k - 1].frame < end);
        assert(steps(step, ratio, trail[k - 1], trail[k - 1 + 1]));
        assert(call_ensures(step, (place(f as int), WIDE_ONE), trail[k]));
    }
}

/// On a frame with nothing left over, the sum of the first channels is that of their samples.
proof fn lemma_exact_sums<B: Fn(u32, u32, u32) -> u32, S: Fn(u32, u32) -> u32, H: Fn(u32, usize) -> u32>(
    mixer: Mixer<B, S, H>,
    samples: Seq<Seq<u32>>,
    end: int,
    at: Cursor,
    n: nat,
    acc: u32,
)
    requires
        mixer.starts_exactly(),
        at.frac == 0,
        n <= samples.len(),
        mixer.sums(samples, end, at, n, acc),
    ensures
        mixer.totals(frame_of(samples, at.frame as int).take(n as int), acc),
    decreases n,
{
    let frame = frame_of(samples, at.frame as int);
    if n > 0 {
        let (prev, v): (u32, u32) = choose|prev: u32, v: u32|
            {
                &&& mixer.sums(samples, end, at, (n - 1) as nat, prev)
                &&& #[trigger] mixer.adds(samples[n - 1], end, at, prev, v, acc)
            };
        lemma_exact_sums(mixer, samples, end, at, (n - 1) as nat, prev);
        assert(frame.take(n as int).drop_last() =~= frame.take(n - 1));
        assert(frame.take(n as int).last() == samples[n - 1][at.frame as int]);
        assert(v == samples[n - 1][at.frame as int]) by {
            let next = clamp(at.frame + 1, end - 1);
            assert(mixer.blends(samples[n - 1][at.frame as int], samples[n - 1][next], 0, v));
        }
        assert(mixer.totals(frame.take(n as int).drop_last(), prev));
        assert(call_ensures(mixer.sum, (prev, frame.take(n as int).last()), acc));
    }
}

/// At a matched rate playback is exact. Where the quotient of two equal rates is one, a step of one
/// goes to the next frame with nothing left over, and nothing of the way between two samples is the
/// first of them, [`Source::fill`] puts out as many frames as fit or are left. Each device channel hears the samples of its channel one after
/// the other; a device with one channel hears the mean of every frame. The rest of the buffer stays,
/// and the source is finished when the last frame of the range is out.
///
/// `after`, `out` and `r` stand for what the call leaves of the source and in the buffer and what it
/// returns.
pub proof fn law_a_matched_rate_is_exact<
    Q: Fn(u32, u32) -> u64,
    P: Fn(u64, u64) -> Cursor,
    B: Fn(u32, u32, u32) -> u32,
    S: Fn(u32, u32) -> u32,
    H: Fn(u32, usize) -> u32,
>(
    source: &Source,
    over: Q,
    step: P,
    mixer: Mixer<B, S, H>,
    place: spec_fn(int) -> u64,
    after: &Source,
    before: Seq<u32>,
    out: Seq<u32>,
    r: int,
)
    requires
        source.wf(),
        source.fills(step, mixer, *after, before, out, r),
        source.at() == exactly_at(source.at().frame as int, place),
        source.at().frame <= source.range_end(),
        source.rates().0 == source.rates().1,
        call_ensures(over, source.rates(), source.pace()),
        forall|rate: u32, q: u64| rate > 0 && #[trigger] call_ensures(over, (rate, rate), q) ==> q == WIDE_ONE,
        unit_steps(step, source.range_end(), place),
        mixer.starts_exactly(),
    ensures
        r == clamp((out.len() / source.devs()) as int, source.range_end() - source.at().frame),
        after.at() == exactly_at(source.at().frame + r, place),
        after.at().frame >= source.range_end() <==> source.at().frame + r == source.range_end(),
        out.len() == before.len(),
        forall|i: int| r * source.devs() <= i < out.len() ==> #[trigger] out[i] == before[i],
        forall|k: int, c: int|
            0 <= k < r && 0 <= c < source.devs() ==> if source.devs() == 1 && source.samples().len() > 1 {
                mixer.averages(
                    frame_of(source.samples(), source.at().frame + k),
                    #[trigger] out[k * source.devs() + c],
                )
            } else {
                out[k * source.devs() + c] == source.samples()[c % source.samples().len() as int][source.at().frame
                    + k]
            },
{
    source.lemma_shape();
    let first = source.at().frame as int;
    let end = source.range_end();
    let devs = source.devs();
    let samples = source.samples();
    let ratio = source.pace();
    assert(call_ensures(over, (source.rates().0, source.rates().0), ratio));
    let trail = choose|trail: Seq<Cursor>| #[trigger] source.runs(step, mixer, *after, out, r, trail);
    lemma_unit_trail(step, ratio, end, trail, first, place, r);
    assert(r <= out.len() / devs) by {
        vstd::arithmetic::div_mod::lemma_div_is_ordered((r * devs) as int, out.len() as int, devs as int);
        vstd::arithmetic::div_mod::lemma_div_by_multiple(r, devs as int);
    }
    assert forall|k: int, c: int| 0 <= k < r && 0 <= c < devs implies if devs == 1 && samples.len() > 1 {
        mixer.averages(frame_of(samples, first + k), #[trigger] out[k * devs + c])
    } else {
        out[k * devs + c] == samples[c % samples.len() as int][first + k]
    } by {
        lemma_unit_trail(step, ratio, end, trail, first, place, k);
        let at = trail[k];
        let v = out[k * devs + c];
        assert(mixer.hears(samples, end as int, devs, c, at, v));
        if devs == 1 && samples.len() > 1 {
            let acc = choose|acc: u32| #[trigger]
                mixer.sums(samples, end as int, at, samples.len(), acc) && call_ensures(
                    mixer.share,
                    (acc, samples.len() as usize),
                    v,
                );
            lemma_exact_sums(mixer, samples, end as int, at, samples.len(), acc);
            let frame = frame_of(samples, first + k);
            assert(frame.take(samples.len() as int) =~= frame);
            assert(mixer.totals(frame, acc));
        }
    }
}

/// Two walks of which the second starts where the first ends are one.
proof fn lemma_one_walk<P: Fn(u64, u64) -> Cursor>(
    step: P,
    ratio: u64,
    end: nat,
    one: Seq<Cursor>,
    two: Seq<Cursor>,
)
    requires
        walks(step, ratio, end, one),
        walks(step, ratio, end, two),
        one.last() == two[0],
    ensures
        walks(step, ratio, end, one + two.skip(1)),
        (one + two.skip(1)).len() == one.len() + two.len() - 1,
        forall|k: int| 0 <= k < one.len() ==> #[trigger] (one + two.skip(1))[k] == one[k],
        forall|k: int|
            one.len() - 1 <= k < one.len() + two.len() - 1 ==> #[trigger] (one + two.skip(1))[k] == two[k - (one.len()
                - 1)],
{
    let a = one.len() - 1;
    let trail = one + two.skip(1);
    assert forall|k: int| 0 <= k <= a implies #[trigger] trail[k] == one[k] by {}
    assert forall|k: int| a <= k < trail.len() implies #[trigger] trail[k] == two[k - a] by {}
    assert forall|k: int| 0 <= k < trail.len() - 1 implies (#[trigger] trail[k]).frame < end && steps(
        step,
        ratio,
        trail[k],
        trail[k + 1],
    ) by {
        if k < a {
            assert(one[k].frame < end);
            assert(steps(step, ratio, one[k], one[k + 1]));
        } else {
            assert(two[k - a].frame < end);
            assert(steps(step, ratio, two[k - a], two[k - a + 1]));
        }
    }
    assert forall|k: int| 0 <= k < trail.len() - 1 implies #[trigger] steps(step, ratio, trail[k], trail[k + 1]) by {
        assert(trail[k].frame < end);
    }
}

/// Where a buffer is cut in two between frames, filling it in two calls is filling it in one: what
/// two calls leave of the source and in the two parts, one call on the whole leaves too.
pub proof fn law_a_buffer_may_be_filled_in_parts<
    P: Fn(u64, u64) -> Cursor,
    B: Fn(u32, u32, u32) -> u32,
    S: Fn(u32, u32) -> u32,
    H: Fn(u32, usize) -> u32,
>(
    source: &Source,
    step: P,
    mixer: Mixer<B, S, H>,
    middle: &Source,
    after: &Source,
    before: (Seq<u32>, Seq<u32>),
    out: (Seq<u32>, Seq<u32>),
    r: (int, int),
)
    requires
        source.wf(),
        source.fills(step, mixer, *middle, before.0, out.0, r.0),
        middle.fills(step, mixer, *after, before.1, out.1, r.1),
        out.0.len() % source.devs() == 0,
    ensures
        source.fills(step, mixer, *after, before.0 + before.1, out.0 + out.1, r.0 + r.1),
{
    source.lemma_shape();
    let devs = source.devs() as int;
    let all = out.0 + out.1;
    let old_all = before.0 + before.1;
    let (a, b) = (r.0, r.1);
    let frames = out.0.len() / source.devs();
    let one = choose|trail: Seq<Cursor>| #[trigger] source.runs(step, mixer, *middle, out.0, a, trail);
    let two = choose|trail: Seq<Cursor>| #[trigger] middle.runs(step, mixer, *after, out.1, b, trail);
    let trail = one + two.skip(1);
    vstd::arithmetic::div_mod::lemma_fundamental_div_mod(out.0.len() as int, devs);
    assert(devs * frames == frames * devs) by (nonlinear_arith);
    assert((a + b) * devs == a * devs + b * devs) by (nonlinear_arith);
    if b > 0 {
        assert(two[0].frame < source.range_end());
        assert(a == frames);
    }
    assert(b * devs == 0 || a * devs == out.0.len()) by {
        if b == 0 {
            assert(b * devs == 0) by (nonlinear_arith)
                requires
                    b == 0,
            ;
        }
    }
    assert forall|i: int| (a + b) * devs <= i < all.len() implies #[trigger] all[i] == old_all[i] by {
        if i < out.0.len() {
            assert(out.0[i] == before.0[i]);
        } else {
            assert(out.1[i - out.0.len()] == before.1[i - out.0.len()]);
        }
    }
    lemma_one_walk(step, source.pace(), source.range_end(), one, two);
    assert forall|k: int, c: int|
        #![trigger trail[k], all[k * devs + c]]
        0 <= k < trail.len() - 1 && 0 <= c < devs implies mixer.hears(
        source.samples(),
        source.range_end() as int,
        source.devs(),
        c,
        trail[k],
        all[k * devs + c],
    ) by {
        if k < a {
            assert(0 <= k * devs + c < a * devs) by (nonlinear_arith)
                requires
                    0 <= k < a,
                    0 <= c < devs,
            ;
            assert(trail[k] == one[k]);
            assert(all[k * devs + c] == out.0[k * devs + c]);
        } else {
            let j = k - a;
            assert(k * devs + c == a * devs + (j * devs + c)) by (nonlinear_arith)
                requires
                    k == a + j,
            ;
            assert(0 <= j * devs + c < b * devs) by (nonlinear_arith)
                requires
                    0 <= j < b,
                    0 <= c < devs,
            ;
            assert(trail[k] == two[j]);
            assert(all[k * devs + c] == out.1[j * devs + c]);
        }
    }
    assert(a + b == all.len() / source.devs() || trail[a + b].frame >= source.range_end()) by {
        if a == frames && b == out.1.len() / source.devs() {
            vstd::arithmetic::div_mod::lemma_fundamental_div_mod(out.1.len() as int, devs);
            let rest = out.1.len() as int % devs;
            let (m, n) = (out.0.len() as int, out.1.len() as int);
            assert(m == devs * a);
            assert(n == devs * b + rest);
            assert(0 <= rest < devs) by {
                vstd::arithmetic::div_mod::lemma_mod_bound(n, devs);
            }
            assert(all.len() == m + n);
            assert(m + n == (a + b) * devs + rest) by (nonlinear_arith)
                requires
                    m == devs * a,
                    n == devs * b + rest,
            ;
            vstd::arithmetic::div_mod::lemma_fundamental_div_mod_converse(all.len() as int, devs, a + b, rest);
        }
    }
    assert(source.runs(step, mixer, *after, all, a + b, trail));
}

/// The partial sums of the channels at a cursor: each adds what lies between two neighbouring frames
/// of the next channel.
proof fn lemma_partial_sums<B: Fn(u32, u32, u32) -> u32, S: Fn(u32, u32) -> u32, H: Fn(u32, usize) -> u32>(
    mixer: Mixer<B, S, H>,
    samples: Seq<Seq<u32>>,
    end: int,
    at: Cursor,
    n: nat,
    acc: u32,
) -> (r: (Seq<u32>, Seq<u32>))
    requires
        at.frame < end,
        mixer.sums(samples, end, at, n, acc),
    ensures
        r.0.len() == n + 1,
        r.1.len() == n,
        r.0[0] == 0,
        r.0[n as int] == acc,
        forall|c: int|
            0 <= c < n ==> {
                &&& call_ensures(
                    mixer.blend,
                    (
                        samples[c][at.frame as int],
                        samples[c][if at.frame + 1 < end {
                            at.frame + 1
                        } else {
                            end - 1
                        }],
                        at.frac,
                    ),
                    #[trigger] r.1[c],
                )
                &&& call_ensures(mixer.sum, (r.0[c], r.1[c]), r.0[c + 1])
            },
    decreases n,
{
    if n == 0 {
        (seq![acc], Seq::empty())
    } else {
        let (prev, v): (u32, u32) = choose|prev: u32, v: u32|
            {
                &&& mixer.sums(samples, end, at, (n - 1) as nat, prev)
                &&& #[trigger] mixer.adds(samples[n - 1], end, at, prev, v, acc)
            };
        let shorter = lemma_partial_sums(mixer, samples, end, at, (n - 1) as nat, prev);
        let run = shorter.0.push(acc);
        let parts = shorter.1.push(v);
        assert forall|c: int| 0 <= c < n implies {
            &&& call_ensures(
                mixer.blend,
                (
                    samples[c][at.frame as int],
                    samples[c][if at.frame + 1 < end {
                        at.frame + 1
                    } else {
                        end - 1
                    }],
                    at.frac,
                ),
                #[trigger] parts[c],
            )
            &&& call_ensures(mixer.sum, (run[c], parts[c]), run[c + 1])
        } by {
            if c < n - 1 {
                assert(parts[c] == shorter.1[c]);
                assert(run[c] == shorter.0[c] && run[c + 1] == shorter.0[c + 1]);
            } else {
                assert(parts[c] == v && run[c] == prev && run[c + 1] == acc);
            }
        }
        (run, parts)
    }
}

/// The partial sums of every frame that a device with one channel hears along `trail`, up to frame `m`.
proof fn lemma_frame_sums<
    P: Fn(u64, u64) -> Cursor,
    B: Fn(u32, u32, u32) -> u32,
    S: Fn(u32, u32) -> u32,
    H: Fn(u32, usize) -> u32,
>(
    source: &Source,
    step: P,
    mixer: Mixer<B, S, H>,
    trail: Seq<Cursor>,
    out: Seq<u32>,
    m: int,
) -> (r: (Seq<Seq<u32>>, Seq<Seq<u32>>))
    requires
        0 <= m < trail.len(),
        source.devs() == 1,
        source.samples().len() > 1,
        source.plays(step, mixer, trail, out),
    ensures
        r.0.len() == m,
        r.1.len() == m,
        forall|k: int|
            0 <= k < m ==> {
                &&& (#[trigger] r.0[k]).len() == source.samples().len() + 1
                &&& r.0[k][0] == 0
                &&& call_ensures(
                    mixer.share,
                    (r.0[k][source.samples().len() as int], source.samples().len() as usize),
                    out[k],
                )
            },
        forall|k: int, c: int|
            0 <= k < m && 0 <= c < source.samples().len() ==> {
                &&& call_ensures(
                    mixer.blend,
                    (
                        source.samples()[c][trail[k].frame as int],
                        source.samples()[c][if trail[k].frame + 1 < source.range_end() {
                            trail[k].frame + 1
                        } else {
                            source.range_end() - 1
                        }],
                        trail[k].frac,
                    ),
                    #[trigger] r.1[k][c],
                )
                &&& call_ensures(mixer.sum, (r.0[k][c], r.1[k][c]), r.0[k][c + 1])
            },
    decreases m,
{
    if m == 0 {
        (Seq::empty(), Seq::empty())
    } else {
        let end = source.range_end() as int;
        let samples = source.samples();
        let n = samples.len();
        let k = m - 1;
        let at = trail[k];
        assert(at.frame < end);
        let devs = source.devs() as int;
        assert(k * devs + 0 == k) by (nonlinear_arith)
            requires
                devs == 1,
        ;
        assert(mixer.hears(samples, end, source.devs(), 0, at, out[k * devs + 0]));
        let acc = choose|acc: u32| #[trigger]
            mixer.sums(samples, end, at, n, acc) && call_ensures(mixer.share, (acc, n as usize), out[k]);
        let (run, part): (Seq<u32>, Seq<u32>) = lemma_partial_sums(mixer, samples, end, at, n, acc);
        let (runs, parts): (Seq<Seq<u32>>, Seq<Seq<u32>>) = lemma_frame_sums(source, step, mixer, trail, out, k);
        (runs.push(run), parts.push(part))
    }
}

/// What a device hears, at any pace. [`Source::fill`] reads at positions of which the first is where
/// the source stood, and each later one is a step on from the one before by the pace of the source.
/// At each, device channel `c` gets the blend of two neighbouring frames of the file's channel `c`
/// modulo the number of its channels, the later of them held at the end of the range; on a device
/// with one channel, the sum of these blends over all channels of the file, shared by their number.
/// The law gives back the positions, the partial sums and the blends.
/// Frames come as long as one fits and the range lasts, and the rest of the buffer stays; so do the range,
/// the device and the pace.
pub proof fn law_a_device_hears_blends_of_neighbouring_frames<
    P: Fn(u64, u64) -> Cursor,
    B: Fn(u32, u32, u32) -> u32,
    S: Fn(u32, u32) -> u32,
    H: Fn(u32, usize) -> u32,
>(
    source: &Source,
    step: P,
    mixer: Mixer<B, S, H>,
    after: &Source,
    before: Seq<u32>,
    out: Seq<u32>,
    n: int,
) -> (r: (Seq<Cursor>, Seq<Seq<u32>>, Seq<Seq<u32>>))
    requires
        source.wf(),
        source.fills(step, mixer, *after, before, out, n),
    ensures
        after.samples() == source.samples(),
        after.range_end() == source.range_end(),
        after.devs() == source.devs(),
        after.rates() == source.rates(),
        after.pace() == source.pace(),
        out.len() == before.len(),
        0 <= n * source.devs() <= out.len(),
        forall|i: int| n * source.devs() <= i < out.len() ==> #[trigger] out[i] == before[i],
        r.0.len() == n + 1,
        r.0[0] == source.at(),
        r.0[n] == after.at(),
        out.len() < (n + 1) * source.devs() || r.0[n].frame >= source.range_end(),
        forall|k: int| 0 <= k < n ==> (#[trigger] r.0[k]).frame < source.range_end(),
        forall|k: int| 0 <= k < n ==> call_ensures(step, ((#[trigger] r.0[k]).pos, source.pace()), r.0[k + 1]),
        source.devs() > 1 || source.samples().len() == 1 ==> forall|k: int, c: int|
            0 <= k < n && 0 <= c < source.devs() ==> call_ensures(
                mixer.blend,
                (
                    source.samples()[c % source.samples().len() as int][r.0[k].frame as int],
                    source.samples()[c % source.samples().len() as int][if r.0[k].frame + 1 < source.range_end() {
                        r.0[k].frame + 1
                    } else {
                        source.range_end() - 1
                    }],
                    r.0[k].frac,
                ),
                #[trigger] out[k * source.devs() + c],
            ),
        source.devs() == 1 && source.samples().len() > 1 ==> r.1.len() == n && r.2.len() == n,
        source.devs() == 1 && source.samples().len() > 1 ==> forall|k: int|
            0 <= k < n ==> {
                &&& (#[trigger] r.1[k]).len() == source.samples().len() + 1
                &&& r.1[k][0] == 0
                &&& call_ensures(
                    mixer.share,
                    (r.1[k][source.samples().len() as int], source.samples().len() as usize),
                    out[k],
                )
            },
        source.devs() == 1 && source.samples().len() > 1 ==> forall|k: int, c: int|
            0 <= k < n && 0 <= c < source.samples().len() ==> {
                &&& call_ensures(
                    mixer.blend,
                    (
                        source.samples()[c][r.0[k].frame as int],
                        source.samples()[c][if r.0[k].frame + 1 < source.range_end() {
                            r.0[k].frame + 1
                        } else {
                            source.range_end() - 1
                        }],
                        r.0[k].frac,
                    ),
                    #[trigger] r.2[k][c],
                )
                &&& call_ensures(mixer.sum, (r.1[k][c], r.2[k][c]), r.1[k][c + 1])
            },
{
    source.lemma_shape();
    let end = source.range_end() as int;
    let devs = source.devs() as int;
    let samples = source.samples();
    let count = samples.len() as int;
    let trail = choose|trail: Seq<Cursor>| #[trigger] source.runs(step, mixer, *after, out, n, trail);
    assert(0 <= n * devs) by (nonlinear_arith)
        requires
            0 <= n,
            0 <= devs,
    ;
    if trail[n].frame < end {
        let total = out.len() as int;
        assert(total < (n + 1) * devs) by (nonlinear_arith)
            requires
                n == total / devs,
                devs > 0,
                0 <= total,
        ;
    }
    assert forall|k: int| 0 <= k < n implies call_ensures(step, ((#[trigger] trail[k]).pos, source.pace()), trail[k
        + 1]) by {
        assert(steps(step, source.pace(), trail[k], trail[k + 1]));
    }
    if devs > 1 || count == 1 {
        assert forall|k: int, c: int| 0 <= k < n && 0 <= c < devs implies call_ensures(
            mixer.blend,
            (
                samples[c % count][trail[k].frame as int],
                samples[c % count][if trail[k].frame + 1 < end {
                    trail[k].frame + 1
                } else {
                    end - 1
                }],
                trail[k].frac,
            ),
            #[trigger] out[k * devs + c],
        ) by {
            assert(trail[k].frame < end);
            assert(mixer.hears(samples, end, source.devs(), c, trail[k], out[k * devs + c]));
        }
        (trail, Seq::empty(), Seq::empty())
    } else {
        let (runs, parts): (Seq<Seq<u32>>, Seq<Seq<u32>>) = lemma_frame_sums(source, step, mixer, trail, out, n);
        (trail, runs, parts)
    }
}

/// A constant channel is heard as it is, at any pace. Where between a sample and itself there is only
/// that sample, and no step goes back, each device channel of a device with more than one hears the
/// value that its channel of the file holds from where the source stands to the end of the range. `whole`
/// gives the whole frame of a position.
pub proof fn law_a_constant_channel_is_heard_as_it_is<
    P: Fn(u64, u64) -> Cursor,
    B: Fn(u32, u32, u32) -> u32,
    S: Fn(u32, u32) -> u32,
    H: Fn(u32, usize) -> u32,
>(
    source: &Source,
    step: P,
    mixer: Mixer<B, S, H>,
    after: &Source,
    before: Seq<u32>,
    out: Seq<u32>,
    r: int,
    whole: spec_fn(u64) -> int,
    c: int,
    held: u32,
)
    requires
        source.wf(),
        source.fills(step, mixer, *after, before, out, r),
        source.devs() > 1 || source.samples().len() == 1,
        forall|t: u32, v: u32| #[trigger] call_ensures(mixer.blend, (held, held, t), v) ==> v == held,
        source.at().frame == whole(source.at().pos),
        forall|pos: u64, next: Cursor| #[trigger]
            call_ensures(step, (pos, source.pace()), next) ==> whole(pos) <= whole(next.pos) == next.frame,
        0 <= c < source.devs(),
        forall|f: int|
            source.at().frame <= f < source.range_end() ==> #[trigger] source.samples()[c
                % source.samples().len() as int][f] == held,
    ensures
        forall|k: int| 0 <= k < r ==> #[trigger] out[k * source.devs() + c] == held,
{
    source.lemma_shape();
    let end = source.range_end() as int;
    let devs = source.devs() as int;
    let samples = source.samples();
    let trail = choose|trail: Seq<Cursor>| #[trigger] source.runs(step, mixer, *after, out, r, trail);
    assert forall|k: int| 0 <= k < r implies #[trigger] out[k * devs + c] == held by {
        law_steps_forward_stay_in_the_range(step, source.pace(), source.range_end(), trail, whole, k);
        let s = samples[c % samples.len() as int];
        let f = trail[k].frame as int;
        assert(mixer.hears(samples, end, source.devs(), c, trail[k], out[k * devs + c]));
        let next = if f + 1 < end {
            f + 1
        } else {
            end - 1
        };
        assert(s[f] == held && s[next] == held);
        assert(call_ensures(mixer.blend, (held, held, trail[k].frac), out[k * devs + c]));
    }
}

/// Feeding a ring hears what filling a buffer does: with `free` free slots, what goes into the ring is
/// what [`Source::fill`] puts into a buffer of as many whole frames as `free` holds, up to where it
/// stops.
pub proof fn law_feeding_is_filling<
    P: Fn(u64, u64) -> Cursor,
    B: Fn(u32, u32, u32) -> u32,
    S: Fn(u32, u32) -> u32,
    H: Fn(u32, usize) -> u32,
>(
    source: &Source,
    step: P,
    mixer: Mixer<B, S, H>,
    after: &Source,
    free: nat,
    trail: Seq<Cursor>,
    heard: Seq<u32>,
    before: Seq<u32>,
)
    requires
        source.wf(),
        source.feeds(step, mixer, free, trail, heard),
        after.same_range(*source),
        after.at() == trail.last(),
        before.len() == free,
    ensures
        heard.len() == (trail.len() - 1) * source.devs(),
        heard.len() <= free,
        source.fills(step, mixer, *after, before, heard + before.skip(heard.len() as int), trail.len() - 1),
{
    source.lemma_shape();
    let devs = source.devs() as int;
    let r = trail.len() - 1;
    let out = heard + before.skip(heard.len() as int);
    assert(out.len() == free);
    assert forall|k: int, c: int|
        #![trigger trail[k], out[k * devs + c]]
        0 <= k < r && 0 <= c < devs implies mixer.hears(
        source.samples(),
        source.range_end() as int,
        source.devs(),
        c,
        trail[k],
        out[k * devs + c],
    ) by {
        assert(0 <= k * devs + c < r * devs) by (nonlinear_arith)
            requires
                0 <= k < r,
                0 <= c < devs,
        ;
        assert(heard[k * devs + c] == out[k * devs + c]);
    }
    assert(source.plays(step, mixer, trail, out));
    assert(source.runs(step, mixer, *after, out, r, trail));
    assert forall|i: int| r * source.devs() <= i < out.len() implies #[trigger] out[i] == before[i] by {}
}

/// The playhead moves on with what was heard, frame by frame, and waits at the end of the range: until
/// then it is as far from the start as frames were heard.
pub proof fn law_the_playhead_counts_the_frames_heard(start: u64, end: u64, a: u64)
    requires
        start <= end,
    ensures
        a <= end - start ==> playhead(start, a, end) - start == a,
        a >= end - start ==> playhead(start, a, end) == end,
{
}

/// A callback moves the count of frames on by what it played. It counts a dropout exactly where it
/// starved, ends playback exactly where the range is over, and leaves everything else as it is. The
/// counters wrap round where they would not fit.
pub proof fn law_a_callback_is_counted_once(shared: Shared, done: Rendered)
    ensures
        shared.played + done.frames <= u64::MAX ==> shared.noted(done).played == shared.played + done.frames,
        shared.played + done.frames > u64::MAX ==> shared.noted(done).played == shared.played + done.frames - u64::MAX
            - 1,
        done.ending == Ending::Starved && shared.underruns < u64::MAX ==> shared.noted(done).underruns
            == shared.underruns + 1,
        done.ending == Ending::Starved && shared.underruns == u64::MAX ==> shared.noted(done).underruns == 0,
        done.ending != Ending::Starved ==> shared.noted(done).underruns == shared.underruns,
        done.ending == Ending::Finished ==> shared.noted(done).state == PlayState::Finished,
        done.ending != Ending::Finished ==> shared.noted(done).state == shared.state,
        shared.noted(done).feed_done == shared.feed_done,
        shared.noted(done).dev_channels == shared.dev_channels,
        shared.noted(done).start_frame == shared.start_frame,
        shared.noted(done).end_frame == shared.end_frame,
        shared.noted(done).ratio == shared.ratio,
        shared.noted(done).sample_rate == shared.sample_rate,
{
}

/// A callback takes whole frames, and all that it can: one frame more would be more than is there or
/// more than is wanted.
pub proof fn law_a_callback_takes_all_it_can(slots: nat, want: nat, channels: nat)
    requires
        channels > 0,
    ensures
        takes(slots, want, channels) % channels == 0,
        takes(slots, want, channels) <= slots,
        takes(slots, want, channels) <= want,
        takes(slots, want, channels) + channels > slots || takes(slots, want, channels) + channels > want,
{
    let most = clamp(slots as int, want as int);
    let frames = most / channels as int;
    vstd::arithmetic::div_mod::lemma_fundamental_div_mod(most, channels as int);
    vstd::arithmetic::div_mod::lemma_mod_multiples_basic(frames, channels as int);
    assert(frames * channels == channels * frames) by (nonlinear_arith);
}

/// A device buffer holds the samples that left the ring, in their order, and silence behind them.
pub proof fn law_what_leaves_the_ring_is_heard(old_read: Seq<u32>, new_read: Seq<u32>, got: int, out: Seq<u32>)
    requires
        delivers(old_read, new_read, got, out),
    ensures
        new_read.len() == old_read.len() + got,
        forall|i: int| 0 <= i < old_read.len() ==> #[trigger] new_read[i] == old_read[i],
        forall|i: int| 0 <= i < got ==> #[trigger] out[i] == new_read[old_read.len() + i],
        forall|i: int| got <= i < out.len() ==> #[trigger] out[i] == 0,
{
    assert forall|i: int| 0 <= i < got implies #[trigger] out[i] == new_read[old_read.len() + i] by {
        assert(out.take(got)[i] == out[i]);
    }
    assert forall|i: int| got <= i < out.len() implies #[trigger] out[i] == 0 by {
        assert(out.skip(got)[i - got] == out[i]);
    }
}

/// The ring holds a quarter of a second: the fewest frames that last as long, and at least one.
pub proof fn law_a_ring_holds_a_quarter_of_a_second(rate: u32)
    ensures
        ring_frames(rate) >= 1,
        4 * ring_frames(rate) >= rate,
        ring_frames(rate) > 1 ==> 4 * (ring_frames(rate) - 1) < rate,
{
}

/// Of the ranges with float samples, a channel and a rate, the choice is the first of those that do
/// best. Having the rate comes first, a channel count close to the preferred one second, few channels
/// third and a close rate last. Nothing is chosen exactly where there is no such range.
pub proof fn law_no_range_does_better_than_the_choice(
    ranges: Seq<ConfigRange>,
    rate: u32,
    preferred: u16,
    r: Option<Chosen>,
    j: int,
    other: u32,
)
    requires
        picks(ranges, rate, preferred, r),
        0 <= j < ranges.len(),
        ranges[j].is_f32,
        ranges[j].channels >= 1,
        ranges[j].min_rate <= other <= ranges[j].max_rate,
    ensures
        r is Some,
        other == rate ==> r->0.sample_rate == rate,
        (r->0.sample_rate == rate) == (ranges[j].min_rate <= rate <= ranges[j].max_rate) ==> {
            let mine = if r->0.channels >= preferred {
                r->0.channels - preferred
            } else {
                preferred - r->0.channels
            };
            let theirs = if ranges[j].channels >= preferred {
                ranges[j].channels - preferred
            } else {
                preferred - ranges[j].channels
            };
            &&& mine <= theirs
            &&& mine == theirs ==> r->0.channels <= ranges[j].channels
        },
        r->0.channels == ranges[j].channels ==> {
            let mine = if r->0.sample_rate >= rate {
                r->0.sample_rate - rate
            } else {
                rate - r->0.sample_rate
            };
            let theirs = if other >= rate {
                other - rate
            } else {
                rate - other
            };
            mine <= theirs
        },
{
    assert(ranges[j].usable());
    let i = choose|i: int| #[trigger] best_range(ranges, rate, preferred, i) && r->0 == ranges[i].choice(rate);
    assert(!precedes(ranges[j].key(rate, preferred), ranges[i].key(rate, preferred)));
}

/// What is chosen is one of the ranges: it has float samples and the channel count, and its rates hold
/// the rate. It is the first such: every usable range before it with as many channels is further from the
/// preferred rate.
pub proof fn law_the_choice_is_one_of_the_ranges(
    ranges: Seq<ConfigRange>,
    rate: u32,
    preferred: u16,
    c: Chosen,
)
    requires
        picks(ranges, rate, preferred, Some(c)),
    ensures
        c.channels >= 1,
        exists|i: int|
            {
                &&& 0 <= i < ranges.len()
                &&& (#[trigger] ranges[i]).is_f32
                &&& ranges[i].channels == c.channels
                &&& ranges[i].min_rate <= c.sample_rate <= ranges[i].max_rate
                &&& forall|j: int, x: u32|
                    #![trigger ranges[j].max_rate, distance(x as int, rate as int)]
                    {
                        &&& 0 <= j < i
                        &&& ranges[j].is_f32
                        &&& ranges[j].channels == c.channels
                        &&& ranges[j].min_rate <= x <= ranges[j].max_rate
                    } ==> distance(x as int, rate as int) > distance(c.sample_rate as int, rate as int)
            },
{
    let i = choose|i: int| #[trigger] best_range(ranges, rate, preferred, i) && c == ranges[i].choice(rate);
    assert(ranges[i].usable());
    assert(ranges[i].is_f32);
    assert forall|j: int, x: u32|
        #![trigger ranges[j].max_rate, distance(x as int, rate as int)]
        {
            &&& 0 <= j < i
            &&& ranges[j].is_f32
            &&& ranges[j].channels == c.channels
            &&& ranges[j].min_rate <= x <= ranges[j].max_rate
        } implies distance(x as int, rate as int) > distance(c.sample_rate as int, rate as int) by {
        assert(ranges[j].usable());
        assert(precedes(ranges[i].key(rate, preferred), ranges[j].key(rate, preferred)));
    }
}

/// How far two numbers are apart is the larger of their two differences.
pub proof fn law_distance_is_the_absolute_difference(a: int, b: int)
    ensures
        distance(a, b) == distance(b, a),
        distance(a, b) >= a - b,
        distance(a, b) >= b - a,
        distance(a, b) == a - b || distance(a, b) == b - a,
{
}

} // verus!
