//! Decoding a source file into a planar PCM cache.
//!
//! The cache is planar: all samples of channel 0, then all of channel 1, and so on. So each channel
//! is one contiguous slice of the map. Decoding streams: each channel is spilled to a file of its
//! own as packets arrive, and the spills are joined into the cache at the end.

use vstd::prelude::*;
use memmap2::MmapMut;
use crate::agg::Arith;
use crate::map::{byte_len, bytes, castable, map_size, map_words, serialized, try_words, words, words_mut};
use crate::summary::Analyzer;
use crate::text::{decimal, digits, law_digits_are_injective, lemma_digits_shape};
use vstd::arithmetic::div_mod::{lemma_fundamental_div_mod, lemma_fundamental_div_mod_converse};

verus! {

/// What can go wrong turning a source file into a [`PcmCache`].
#[derive(Debug)]
pub enum DecodeError {
    /// Reading the source or writing the cache failed.
    Io(String),
    /// The container or codec could not be probed or decoded.
    Symphonia(String),
    /// The container has no audio track to decode.
    NoAudioTrack,
    /// The source decoded to nothing.
    Empty,
    /// The size of a cache file does not fit the channel count.
    Malformed(String),
}

impl DecodeError {
    /// What the error says.
    pub open spec fn text(self) -> Seq<char> {
        match self {
            DecodeError::Io(e) => "i/o error: "@ + e@,
            DecodeError::Symphonia(e) => "decode error: "@ + e@,
            DecodeError::NoAudioTrack => "no audio track in source"@,
            DecodeError::Empty => "source decoded to zero frames"@,
            DecodeError::Malformed(m) => "malformed cache: "@ + m@,
        }
    }

    /// The error in words.
    pub fn message(&self) -> (r: String)
        ensures
            r@ == self.text(),
    {
        match self {
            DecodeError::Io(e) => "i/o error: ".to_owned().concat(e.as_str()),
            DecodeError::Symphonia(e) => "decode error: ".to_owned().concat(e.as_str()),
            DecodeError::NoAudioTrack => "no audio track in source".to_owned(),
            DecodeError::Empty => "source decoded to zero frames".to_owned(),
            DecodeError::Malformed(m) => "malformed cache: ".to_owned().concat(m.as_str()),
        }
    }
}

/// The complaint that `len` bytes are no whole number of samples.
pub open spec fn ragged_text(len: nat) -> Seq<char> {
    "length "@ + digits(len) + " bytes is not a whole number of 4-byte f32 samples"@
}

/// The complaint that `total` samples do not divide into `channels`.
pub open spec fn uneven_text(total: nat, channels: nat) -> Seq<char> {
    digits(total) + " samples is not divisible by "@ + digits(channels) + " channels"@
}

/// The number of frames in a cache file of `len` bytes with `channels` channels.
pub fn check_geometry(len: usize, channels: usize) -> (r: Result<usize, DecodeError>)
    requires
        channels > 0,
    ensures
        match r {
            Ok(frames) => frames > 0 && frames * channels * 4 == len,
            Err(DecodeError::Empty) => len == 0,
            Err(DecodeError::Malformed(m)) => len > 0 && if len % 4 != 0 {
                m@ == ragged_text(len as nat)
            } else {
                len / 4 % channels != 0 && m@ == uneven_text((len / 4) as nat, channels as nat)
            },
            Err(_) => false,
        },
        r is Ok <==> len > 0 && len % 4 == 0 && len / 4 % channels == 0,
{
    if len == 0 {
        return Err(DecodeError::Empty);
    }
    if len % 4 != 0 {
        let mut m: String = "length ".to_owned();
        m.append(decimal(len as u64).as_str());
        m.append(" bytes is not a whole number of 4-byte f32 samples");
        return Err(DecodeError::Malformed(m));
    }
    let total: usize = len / 4;
    if total % channels != 0 {
        let mut m: String = decimal(total as u64);
        m.append(" samples is not divisible by ");
        m.append(decimal(channels as u64).as_str());
        m.append(" channels");
        return Err(DecodeError::Malformed(m));
    }
    let frames: usize = total / channels;
    proof {
        lemma_fundamental_div_mod(total as int, channels as int);
        assert(frames * channels == total) by (nonlinear_arith)
            requires
                total == channels * frames + 0,
        ;
        if frames == 0 {
            assert(false) by (nonlinear_arith)
                requires
                    frames * channels == total,
                    frames == 0,
                    total > 0,
            ;
        }
    }
    Ok(frames)
}

/// The map can be read as a planar cache of `channels` channels.
pub open spec fn opens(m: MmapMut, channels: nat) -> bool {
    &&& map_size(m) > 0
    &&& map_size(m) % 4 == 0
    &&& map_size(m) / 4 % channels == 0
    &&& castable(m)
}

/// The map cannot be read as a planar cache of `channels` channels, and `e` says why.
pub open spec fn refuses(m: MmapMut, channels: nat, e: DecodeError) -> bool {
    &&& !opens(m, channels)
    &&& if map_size(m) == 0 {
        e == DecodeError::Empty
    } else {
        &&& e matches DecodeError::Malformed(text)
        &&& text@ == (if map_size(m) % 4 != 0 {
            ragged_text(map_size(m))
        } else if map_size(m) / 4 % channels != 0 {
            uneven_text(map_size(m) / 4, channels)
        } else {
            "the map is not aligned"@
        })
    }
}

/// A memory-mapped PCM cache: one contiguous run of samples per channel.
pub struct PcmCache {
    mmap: MmapMut,
    channels: usize,
    sample_rate: u32,
    frames: usize,
}

/// Channel `ch` of planar samples with `frames` samples per channel.
pub open spec fn plane(samples: Seq<u32>, frames: nat, ch: int) -> Seq<u32> {
    samples.subrange(ch * frames, (ch + 1) * frames)
}

impl View for PcmCache {
    type V = Seq<Seq<u32>>;

    /// The samples of each channel.
    closed spec fn view(&self) -> Seq<Seq<u32>> {
        Seq::new(self.channels as nat, |ch: int| plane(map_words(self.mmap), self.frames as nat, ch))
    }
}

impl PcmCache {
    /// The map holds `frames` samples of each channel and nothing else.
    pub closed spec fn wf(self) -> bool {
        &&& castable(self.mmap)
        &&& self.channels > 0
        &&& self.frames > 0
        &&& map_words(self.mmap).len() == self.channels * self.frames
        &&& map_size(self.mmap) == map_words(self.mmap).len() * 4
        &&& map_size(self.mmap) <= usize::MAX
    }

    /// The sampling rate in Hz.
    pub closed spec fn rate(self) -> u32 {
        self.sample_rate
    }

    /// The number of samples in each channel.
    pub closed spec fn n_frames(self) -> nat {
        self.frames as nat
    }

    /// The memory map behind the samples.
    pub closed spec fn map(self) -> MmapMut {
        self.mmap
    }

    /// A cache has a channel and a frame, all its channels are equally long, and its size in bytes
    /// can be counted.
    pub proof fn lemma_shape(&self)
        requires
            self.wf(),
        ensures
            0 < self@.len() <= usize::MAX,
            0 < self.n_frames() <= usize::MAX,
            self@.len() * self.n_frames() * 4 <= usize::MAX,
            forall|ch: int| 0 <= ch < self@.len() ==> (#[trigger] self@[ch]).len() == self.n_frames(),
    {
        assert forall|ch: int| 0 <= ch < self@.len() implies (#[trigger] self@[ch]).len() == self.n_frames() by {
            lemma_plane_bounds(self.channels as nat, self.frames as nat, ch);
        }
    }

    /// The map of a cache is its channels one after the other.
    pub proof fn law_map_is_planar(&self, ch: int, i: int)
        requires
            self.wf(),
            0 <= ch < self@.len(),
            0 <= i < self.n_frames(),
        ensures
            map_words(self.map()).len() == self@.len() * self.n_frames(),
            0 <= ch * self.n_frames() + i < map_words(self.map()).len(),
            self@[ch][i] == map_words(self.map())[ch * self.n_frames() + i],
    {
        lemma_plane_bounds(self.channels as nat, self.frames as nat, ch);
    }

    /// The words of the map and the channel count fix the samples.
    pub proof fn law_map_fixes_the_samples(&self, other: &PcmCache)
        requires
            self.wf(),
            other.wf(),
            self@.len() == other@.len(),
            map_words(self.map()) == map_words(other.map()),
        ensures
            self@ == other@,
            self.n_frames() == other.n_frames(),
    {
        assert(self.frames == other.frames) by (nonlinear_arith)
            requires
                self.channels * self.frames == self.channels * other.frames,
                self.channels > 0,
        ;
        assert(self@ =~= other@);
    }

    /// A cache over joined spills has the spills for its channels.
    pub proof fn law_joined_spills_are_the_channels(&self, spills: Seq<Seq<u32>>, frames: nat)
        requires
            self.wf(),
            self@.len() == spills.len(),
            forall|c: int| 0 <= c < spills.len() ==> (#[trigger] spills[c]).len() == frames,
            map_words(self.map()) == joined(spills),
        ensures
            self@ == spills,
            self.n_frames() == frames,
    {
        law_joined_spills_are_planar(spills, frames, 0);
        assert(self.frames == frames) by (nonlinear_arith)
            requires
                self.channels * self.frames == self.channels * frames,
                self.channels > 0,
        ;
        assert forall|c: int| 0 <= c < spills.len() implies #[trigger] self@[c] == spills[c] by {
            law_joined_spills_are_planar(spills, frames, c);
        }
        assert(self@ =~= spills);
    }

    /// Takes a map as a planar cache of `channels` channels. The format has no header, so the
    /// caller supplies the channel count and the rate that it was written with.
    pub fn open_planar(mmap: MmapMut, channels: usize, sample_rate: u32) -> (r: Result<PcmCache, DecodeError>)
        requires
            channels > 0,
        ensures
            match r {
                Ok(c) => {
                    &&& opens(mmap, channels as nat)
                    &&& c.wf()
                    &&& c.map() == mmap
                    &&& c@.len() == channels
                    &&& c.rate() == sample_rate
                    &&& c.n_frames() * channels * 4 == map_size(mmap)
                },
                Err(e) => refuses(mmap, channels as nat, e),
            },
    {
        let len: usize = byte_len(&mmap);
        let frames: usize = match check_geometry(len, channels) {
            Ok(frames) => frames,
            Err(e) => return Err(e),
        };
        match try_words(&mmap) {
            Some(_) => {},
            None => return Err(DecodeError::Malformed("the map is not aligned".to_owned())),
        }
        proof {
            assert(frames * channels == channels * frames) by (nonlinear_arith);
        }
        Ok(PcmCache { mmap, channels, sample_rate, frames })
    }

    /// Number of audio channels.
    pub fn channels(&self) -> (r: usize)
        ensures
            r == self@.len(),
    {
        self.channels
    }

    /// Sampling rate in Hz.
    pub fn sample_rate(&self) -> (r: u32)
        ensures
            r == self.rate(),
    {
        self.sample_rate
    }

    /// Number of samples per channel.
    pub fn frames(&self) -> (r: usize)
        ensures
            r == self.n_frames(),
    {
        self.frames
    }

    /// Whether the cache holds no samples.
    pub fn is_empty(&self) -> (r: bool)
        ensures
            r == (self.n_frames() == 0),
    {
        self.frames == 0
    }

    /// The memory map, for flushing it to the file.
    pub fn backing(&self) -> (r: &MmapMut)
        ensures
            *r == self.map(),
    {
        &self.mmap
    }

    /// The samples of channel `ch`.
    pub fn channel(&self, ch: usize) -> (r: &[u32])
        requires
            self.wf(),
            ch < self@.len(),
        ensures
            r@ == self@[ch as int],
    {
        proof {
            lemma_plane_bounds(self.channels as nat, self.frames as nat, ch as int);
        }
        let all: &[u32] = words(&self.mmap);
        let n: usize = all.len();
        let start: usize = ch * self.frames;
        vstd::slice::slice_subrange(all, start, start + self.frames)
    }

    /// The samples of channel `ch` for editing: what the slice, which keeps its length, holds at the
    /// end is what the channel holds then. The other channels stay as they are.
    ///
    /// A pyramid over the channel goes stale with the first write.
    pub fn channel_mut(&mut self, ch: usize) -> (r: &mut [u32])
        requires
            old(self).wf(),
            ch < old(self)@.len(),
        ensures
            r@ == old(self)@[ch as int],
            final(r)@.len() == r@.len() ==> final(self).wf() && final(self)@ == old(self)@.update(
                ch as int,
                final(r)@,
            ),
            final(self).rate() == old(self).rate(),
            final(self).n_frames() == old(self).n_frames(),
    {
        proof {
            lemma_plane_bounds(self.channels as nat, self.frames as nat, ch as int);
        }
        let frames: usize = self.frames;
        let ghost channels = self.channels as nat;
        let ghost before = map_words(self.mmap);
        let all: &mut [u32] = words_mut(&mut self.mmap);
        let n: usize = all.len();
        let start: usize = ch * frames;
        let (head, rest): (&mut [u32], &mut [u32]) = all.split_at_mut(start);
        let (mid, tail): (&mut [u32], &mut [u32]) = rest.split_at_mut(frames);
        proof {
            assert(has_resolved(head) && has_resolved(tail));
            assert(final(head)@ =~= before.take(ch * frames));
            assert(final(tail)@ =~= before.skip((ch + 1) * frames));
            let after = final(head)@ + (final(mid)@ + final(tail)@);
            lemma_plane_update(before, after, channels, frames as nat, ch as int, final(mid)@);
        }
        mid
    }

    /// An analyzer over channel `ch`.
    pub fn analyzer<A: Fn(u64, u64) -> u64, L: Fn(u32) -> (u64, u64)>(
        &self,
        ch: usize,
        ops: &Arith<A, L>,
    ) -> (r: Analyzer<'_>)
        requires
            self.wf(),
            ch < self@.len(),
            ops.total(),
        ensures
            r.wf(),
            r.samples() == self@[ch as int],
            r.tree()@ == self@[ch as int],
            r.tree().summed(*ops),
    {
        Analyzer::new(self.channel(ch), ops)
    }
}

/// Channel `ch` lies inside planar samples.
proof fn lemma_plane_bounds(channels: nat, frames: nat, ch: int)
    requires
        0 <= ch < channels,
    ensures
        0 <= ch * frames <= (ch + 1) * frames <= channels * frames,
        (ch + 1) * frames == ch * frames + frames,
{
    assert(0 <= ch * frames <= (ch + 1) * frames <= channels * frames && (ch + 1) * frames == ch * frames + frames)
        by (nonlinear_arith)
        requires
            0 <= ch < channels,
            frames >= 0,
    ;
}

/// Replacing the samples of channel `ch` by as many leaves the other channels as they were.
proof fn lemma_plane_update(before: Seq<u32>, after: Seq<u32>, channels: nat, frames: nat, ch: int, new: Seq<u32>)
    requires
        0 <= ch < channels,
        before.len() == channels * frames,
        after == before.take(ch * frames) + (new + before.skip((ch + 1) * frames)),
    ensures
        new.len() == frames ==> after.len() == before.len() && Seq::new(
            channels,
            |c: int| plane(after, frames, c),
        ) == Seq::new(channels, |c: int| plane(before, frames, c)).update(ch, new),
{
    lemma_plane_bounds(channels, frames, ch);
    if new.len() == frames {
        let a = Seq::new(channels, |c: int| plane(after, frames, c));
        let b = Seq::new(channels, |c: int| plane(before, frames, c)).update(ch, new);
        assert forall|c: int| 0 <= c < channels implies #[trigger] a[c] == b[c] by {
            lemma_plane_bounds(channels, frames, c);
            if c < ch {
                assert((c + 1) * frames <= ch * frames) by (nonlinear_arith)
                    requires
                        c < ch,
                        frames >= 0,
                ;
            } else if c > ch {
                assert((ch + 1) * frames <= c * frames) by (nonlinear_arith)
                    requires
                        c > ch,
                        frames >= 0,
                ;
            }
            assert(a[c] =~= b[c]);
        }
        assert(a =~= b);
    }
}

/// The path of the spill file of channel `ch` next to the cache.
pub open spec fn spill_name(cache: Seq<char>, ch: nat) -> Seq<char> {
    cache + ".ch"@ + digits(ch) + ".tmp"@
}

/// The path of the spill file of channel `ch`: the path of the cache with `.ch<ch>.tmp` behind it.
pub fn spill_path(cache: &str, ch: usize) -> (r: String)
    ensures
        r@ == spill_name(cache@, ch as nat),
{
    let mut s: String = cache.to_owned();
    s.append(".ch");
    s.append(decimal(ch as u64).as_str());
    s.append(".tmp");
    s
}

/// The spill files of different channels have different paths, and none of them is the cache.
pub proof fn law_spill_paths_are_distinct(cache: Seq<char>, a: nat, b: nat)
    ensures
        a != b ==> spill_name(cache, a) != spill_name(cache, b),
        spill_name(cache, a) != cache,
{
    let n = cache.len() + ".ch"@.len();
    let t = ".tmp"@.len();
    let x = spill_name(cache, a);
    let y = spill_name(cache, b);
    lemma_digits_shape(a);
    assert(x.subrange(n as int, x.len() - t) =~= digits(a));
    assert(y.subrange(n as int, y.len() - t) =~= digits(b));
    if x == y {
        law_digits_are_injective(a, b);
    }
}

/// Channel `ch` of interleaved samples of `channels` channels: one sample of each whole frame.
pub open spec fn lane(interleaved: Seq<u32>, channels: nat, ch: int) -> Seq<u32> {
    Seq::new(interleaved.len() / channels, |f: int| interleaved[f * channels + ch])
}

/// The channels of interleaved samples.
pub open spec fn lanes(interleaved: Seq<u32>, channels: nat) -> Seq<Seq<u32>> {
    Seq::new(channels, |ch: int| lane(interleaved, channels, ch))
}

/// The contents of each buffer.
pub open spec fn contents(buffers: Seq<Vec<u32>>) -> Seq<Seq<u32>> {
    Seq::new(buffers.len(), |ch: int| buffers[ch]@)
}

/// Sample `ch` of frame `f` lies inside interleaved samples.
pub proof fn lemma_frame_bounds(len: nat, channels: nat, f: int, ch: int)
    requires
        0 <= ch < channels,
        0 <= f < len / channels,
    ensures
        0 <= f * channels + ch < len,
{
    lemma_fundamental_div_mod(len as int, channels as int);
    let frames = (len / channels) as int;
    assert(f * channels + ch < channels * frames) by (nonlinear_arith)
        requires
            0 <= ch < channels,
            0 <= f < frames,
    ;
    assert(0 <= f * channels) by (nonlinear_arith)
        requires
            0 <= f,
            0 <= channels,
    ;
}

/// Splits interleaved samples into one buffer per channel. A partial frame at the end is left out.
pub fn deinterleave(interleaved: &[u32], channels: usize) -> (r: Vec<Vec<u32>>)
    requires
        channels > 0,
    ensures
        contents(r@) == lanes(interleaved@, channels as nat),
{
    let frames: usize = interleaved.len() / channels;
    let mut out: Vec<Vec<u32>> = Vec::new();
    let mut ch: usize = 0;
    while ch < channels
        invariant
            channels > 0,
            frames == interleaved@.len() / channels as nat,
            ch <= channels,
            out@.len() == ch,
            forall|c: int| 0 <= c < ch ==> (#[trigger] out@[c])@ == lane(interleaved@, channels as nat, c),
        decreases channels - ch,
    {
        let mut s: Vec<u32> = Vec::new();
        let mut f: usize = 0;
        while f < frames
            invariant
                ch < channels,
                frames == interleaved@.len() / channels as nat,
                f <= frames,
                s@ == lane(interleaved@, channels as nat, ch as int).take(f as int),
            decreases frames - f,
        {
            let n: usize = interleaved.len();
            proof {
                lemma_frame_bounds(interleaved@.len(), channels as nat, f as int, ch as int);
                assert(0 <= f * channels) by (nonlinear_arith)
                    requires
                        0 <= f,
                        0 <= channels,
                ;
            }
            s.push(interleaved[f * channels + ch]);
            f = f + 1;
            proof {
                assert(s@ =~= lane(interleaved@, channels as nat, ch as int).take(f as int));
            }
        }
        proof {
            assert(s@ =~= lane(interleaved@, channels as nat, ch as int));
        }
        out.push(s);
        ch = ch + 1;
    }
    proof {
        assert(contents(out@) =~= lanes(interleaved@, channels as nat));
    }
    out
}

/// The samples as the bytes that a cache file holds.
pub fn sample_bytes(samples: &[u32]) -> (r: &[u8])
    ensures
        serialized(samples@, r@),
{
    bytes(samples)
}

/// Batches of whole frames come out of the split one behind the other: the channels of two batches
/// together are the channels of the first followed by those of the second.
pub proof fn law_batches_are_contiguous(a: Seq<u32>, b: Seq<u32>, channels: nat, ch: int)
    requires
        channels > 0,
        a.len() % channels == 0,
        0 <= ch < channels,
    ensures
        lane(a + b, channels, ch) == lane(a, channels, ch) + lane(b, channels, ch),
{
    let x = (a.len() / channels) as int;
    let y = (b.len() / channels) as int;
    lemma_fundamental_div_mod(a.len() as int, channels as int);
    lemma_fundamental_div_mod(b.len() as int, channels as int);
    assert(a.len() == x * channels) by (nonlinear_arith)
        requires
            a.len() == channels * x + 0,
    ;
    assert(a.len() + b.len() == (x + y) * channels + b.len() % channels) by (nonlinear_arith)
        requires
            a.len() == x * channels,
            b.len() == channels * y + b.len() % channels,
    ;
    lemma_fundamental_div_mod_converse((a + b).len() as int, channels as int, x + y, (b.len() % channels) as int);
    let l = lane(a + b, channels, ch);
    let r = lane(a, channels, ch) + lane(b, channels, ch);
    assert forall|f: int| 0 <= f < l.len() implies #[trigger] l[f] == r[f] by {
        if f < x {
            lemma_frame_bounds(a.len(), channels, f, ch);
        } else {
            assert(f * channels + ch - a.len() == (f - x) * channels + ch) by (nonlinear_arith)
                requires
                    a.len() == x * channels,
            ;
            lemma_frame_bounds(b.len(), channels, f - x, ch);
        }
    }
    assert(l =~= r);
}

/// What the spill files hold, one after the other.
pub open spec fn joined(spills: Seq<Seq<u32>>) -> Seq<u32>
    decreases spills.len(),
{
    if spills.len() == 0 {
        Seq::empty()
    } else {
        joined(spills.drop_last()) + spills.last()
    }
}

/// Joining spills of equal length gives a planar cache whose channels are the spills.
pub proof fn law_joined_spills_are_planar(spills: Seq<Seq<u32>>, frames: nat, ch: int)
    requires
        0 <= ch < spills.len(),
        forall|c: int| 0 <= c < spills.len() ==> (#[trigger] spills[c]).len() == frames,
    ensures
        joined(spills).len() == spills.len() * frames,
        plane(joined(spills), frames, ch) == spills[ch],
    decreases spills.len(),
{
    let rest = spills.drop_last();
    let n = spills.len() as int;
    assert forall|c: int| 0 <= c < rest.len() implies (#[trigger] rest[c]).len() == frames by {
        assert(rest[c] == spills[c]);
    }
    assert((n - 1) * frames + frames == n * frames) by (nonlinear_arith);
    if rest.len() == 0 {
        assert(joined(rest) =~= Seq::<u32>::empty());
        assert(0 * frames == 0) by (nonlinear_arith);
    } else {
        law_joined_spills_are_planar(rest, frames, if ch < n - 1 {
            ch
        } else {
            0
        });
    }
    lemma_plane_bounds(spills.len(), frames, ch);
    if ch < n - 1 {
        lemma_plane_bounds(rest.len(), frames, ch);
        assert(plane(joined(spills), frames, ch) =~= plane(joined(rest), frames, ch));
    } else {
        assert(plane(joined(spills), frames, ch) =~= spills[ch]);
    }
}

/// A track of a container.
#[derive(Debug, Clone, Copy, PartialEq, Eq, Structural)]
pub struct Track {
    /// The number by which packets name the track.
    pub id: u32,
    /// Whether the track has a codec.
    pub decodable: bool,
}

/// The first track that can be decoded.
pub fn pick_track(tracks: &[Track]) -> (r: Result<u32, DecodeError>)
    ensures
        match r {
            Ok(id) => exists|i: int|
                {
                    &&& 0 <= i < tracks@.len()
                    &&& #[trigger] tracks@[i] == (Track { id, decodable: true })
                    &&& forall|j: int| 0 <= j < i ==> !(#[trigger] tracks@[j]).decodable
                },
            Err(e) => e == DecodeError::NoAudioTrack && forall|j: int|
                0 <= j < tracks@.len() ==> !(#[trigger] tracks@[j]).decodable,
        },
{
    let mut i: usize = 0;
    while i < tracks.len()
        invariant
            i <= tracks@.len(),
            forall|j: int| 0 <= j < i ==> !(#[trigger] tracks@[j]).decodable,
        decreases tracks@.len() - i,
    {
        if tracks[i].decodable {
            proof {
                assert(tracks@[i as int] == (Track { id: tracks@[i as int].id, decodable: true }));
            }
            return Ok(tracks[i].id);
        }
        i = i + 1;
    }
    Err(DecodeError::NoAudioTrack)
}

/// What asking for the next packet gave.
#[derive(Debug)]
pub enum PacketEvent {
    /// A packet of this track.
    Packet(u32),
    /// The end of the stream.
    End,
    /// Another logical stream begins.
    Reset,
    /// Reading failed.
    Failed(String),
}

/// What to do about a packet.
#[derive(Debug)]
pub enum PacketAction {
    /// Decode the packet.
    Decode,
    /// Ask for the next one.
    Skip,
    /// The stream is over.
    Stop,
    /// Give up.
    Fail(DecodeError),
}

/// What decoding a packet gave.
#[derive(Debug)]
pub enum DecodedEvent {
    /// Samples, with this many channels at this rate.
    Samples { channels: usize, sample_rate: u32 },
    /// The packet is corrupt.
    Corrupt,
    /// Decoding failed.
    Failed(String),
}

/// What to do about a decoded packet.
#[derive(Debug)]
pub enum DecodedAction {
    /// Make this many spill files, then append the samples.
    OpenSpills(usize),
    /// Append the samples to the spill files.
    Append,
    /// Ask for the next packet.
    Skip,
    /// Give up.
    Fail(DecodeError),
}

/// How the spills become the cache.
#[derive(Debug, Clone, Copy, PartialEq, Eq, Structural)]
pub enum Join {
    /// The only spill is renamed: it is the planar layout already.
    Rename,
    /// The spills are copied behind each other in channel order.
    Copy,
}

/// How the spills of `channels` channels become the cache.
pub open spec fn join_of(channels: nat) -> Join {
    if channels == 1 {
        Join::Rename
    } else {
        Join::Copy
    }
}

/// How the spills of `channels` channels become the cache.
pub fn concat_spills(channels: usize) -> (r: Join)
    ensures
        r == join_of(channels as nat),
{
    if channels == 1 {
        Join::Rename
    } else {
        Join::Copy
    }
}

/// Where a decode stands. The channel count and the rate are those of the first decoded packet.
#[derive(Debug, Clone, Copy, PartialEq, Eq, Structural)]
pub struct DecodeLoop {
    /// The track that is decoded.
    pub track: u32,
    /// Number of channels; zero until a packet was decoded.
    pub channels: usize,
    /// Sampling rate; zero until a packet was decoded.
    pub sample_rate: u32,
    /// Number of spill files.
    pub spills: usize,
}

impl DecodeLoop {
    /// The start of a decode of `track`.
    pub fn new(track: u32) -> (r: Self)
        ensures
            r == (DecodeLoop { track, channels: 0, sample_rate: 0, spills: 0 }),
    {
        DecodeLoop { track, channels: 0, sample_rate: 0, spills: 0 }
    }

    /// Decides on the next packet. The end of the stream and a chained stream both end the decode;
    /// packets of other tracks are passed over.
    pub fn on_packet(&self, event: PacketEvent) -> (r: PacketAction)
        ensures
            match event {
                PacketEvent::Packet(id) => r == (if id == self.track {
                    PacketAction::Decode
                } else {
                    PacketAction::Skip
                }),
                PacketEvent::End => r == PacketAction::Stop,
                PacketEvent::Reset => r == PacketAction::Stop,
                PacketEvent::Failed(e) => r == PacketAction::Fail(DecodeError::Symphonia(e)),
            },
    {
        match event {
            PacketEvent::Packet(id) => {
                if id == self.track {
                    PacketAction::Decode
                } else {
                    PacketAction::Skip
                }
            },
            PacketEvent::End => PacketAction::Stop,
            PacketEvent::Reset => PacketAction::Stop,
            PacketEvent::Failed(e) => PacketAction::Fail(DecodeError::Symphonia(e)),
        }
    }

    /// Decides on a decoded packet. The first one with samples fixes the channel count and the rate
    /// and has the spill files made; one corrupt packet is passed over.
    pub fn on_decoded(&mut self, event: DecodedEvent) -> (r: DecodedAction)
        ensures
            match event {
                DecodedEvent::Samples { channels, sample_rate } => if old(self).spills > 0 {
                    r == DecodedAction::Append && *final(self) == *old(self)
                } else if channels == 0 {
                    r == DecodedAction::Fail(DecodeError::NoAudioTrack) && *final(self) == (DecodeLoop {
                        channels,
                        sample_rate,
                        ..*old(self)
                    })
                } else {
                    r == DecodedAction::OpenSpills(channels) && *final(self) == (DecodeLoop {
                        channels,
                        sample_rate,
                        spills: channels,
                        ..*old(self)
                    })
                },
                DecodedEvent::Corrupt => r == DecodedAction::Skip && *final(self) == *old(self),
                DecodedEvent::Failed(e) => r == DecodedAction::Fail(DecodeError::Symphonia(e)) && *final(self) == *old(
                    self,
                ),
            },
    {
        match event {
            DecodedEvent::Samples { channels, sample_rate } => {
                if self.spills > 0 {
                    return DecodedAction::Append;
                }
                self.channels = channels;
                self.sample_rate = sample_rate;
                if channels == 0 {
                    return DecodedAction::Fail(DecodeError::NoAudioTrack);
                }
                self.spills = channels;
                DecodedAction::OpenSpills(channels)
            },
            DecodedEvent::Corrupt => DecodedAction::Skip,
            DecodedEvent::Failed(e) => DecodedAction::Fail(DecodeError::Symphonia(e)),
        }
    }

    /// Ends the decode: the first of the two errors wins, and a decode that saw no samples or no
    /// rate is empty.
    pub fn finish(&self, decoded: Result<(), DecodeError>, flushed: Result<(), DecodeError>) -> (r: Result<
        Join,
        DecodeError,
    >)
        ensures
            match (decoded, flushed) {
                (Err(e), _) => r == Result::<Join, DecodeError>::Err(e),
                (Ok(_), Err(e)) => r == Result::<Join, DecodeError>::Err(e),
                (Ok(_), Ok(_)) => if self.channels == 0 || self.sample_rate == 0 {
                    r == Result::<Join, DecodeError>::Err(DecodeError::Empty)
                } else {
                    r == Result::<Join, DecodeError>::Ok(join_of(self.channels as nat))
                },
            },
    {
        match decoded {
            Ok(_) => {},
            Err(e) => return Err(e),
        }
        match flushed {
            Ok(_) => {},
            Err(e) => return Err(e),
        }
        if self.channels == 0 || self.sample_rate == 0 {
            return Err(DecodeError::Empty);
        }
        Ok(concat_spills(self.channels))
    }
}

/// Interleaved samples are dealt out in turn: of whole frames, sample `k` goes to channel `k` modulo the
/// number of channels, at frame `k` over it. A frame that is not whole goes nowhere.
pub proof fn law_samples_are_dealt_out_in_turn(interleaved: Seq<u32>, channels: nat, k: int)
    requires
        channels > 0,
        0 <= k < interleaved.len() - interleaved.len() % channels,
    ensures
        lanes(interleaved, channels).len() == channels,
        lanes(interleaved, channels)[k % channels as int].len() == interleaved.len() / channels,
        0 <= k / channels as int,
        k / (channels as int) < interleaved.len() / channels,
        lanes(interleaved, channels)[k % channels as int][k / channels as int] == interleaved[k],
{
    let n = channels as int;
    let total = interleaved.len() as int;
    lemma_fundamental_div_mod(k, n);
    lemma_fundamental_div_mod(total, n);
    let f = k / n;
    let frames = total / n;
    assert(0 <= f < frames) by (nonlinear_arith)
        requires
            k == n * f + k % n,
            0 <= k % n < n,
            0 <= k < n * frames,
    ;
    assert(f * n == n * f) by (nonlinear_arith);
}

/// A map that opens as a cache can be read as samples and holds a whole number of frames, at least one, of
/// four bytes for each channel. The law gives back how many.
pub proof fn law_a_map_that_opens_holds_whole_frames(m: MmapMut, channels: nat) -> (frames: nat)
    requires
        channels > 0,
        opens(m, channels),
    ensures
        castable(m),
        frames > 0,
        map_size(m) == frames * channels * 4,
{
    let words = map_size(m) / 4;
    let frames = words / channels;
    lemma_fundamental_div_mod(words as int, channels as int);
    assert(frames * channels == channels * frames) by (nonlinear_arith);
    assert(frames > 0) by (nonlinear_arith)
        requires
            channels * frames > 0,
    ;
    frames
}

/// A map that can be read as samples and holds a whole number of frames, at least one, opens as a cache.
pub proof fn law_whole_frames_open(m: MmapMut, channels: nat, frames: nat)
    requires
        channels > 0,
        castable(m),
        frames > 0,
        map_size(m) == frames * channels * 4,
    ensures
        opens(m, channels),
{
    assert(frames * channels > 0) by (nonlinear_arith)
        requires
            frames > 0,
            channels > 0,
    ;
    assert(map_size(m) / 4 == frames * channels);
    vstd::arithmetic::div_mod::lemma_mod_multiples_basic(frames as int, channels as int);
}

/// Renaming a spill to the cache is right where it is done: one spill is all that the cache holds.
pub proof fn law_a_single_spill_is_the_cache(spills: Seq<Seq<u32>>)
    ensures
        join_of(spills.len()) == Join::Rename <==> spills.len() == 1,
        join_of(spills.len()) == Join::Rename ==> joined(spills) == spills[0],
{
    if spills.len() == 1 {
        reveal_with_fuel(joined, 2);
        assert(joined(spills) =~= spills[0]);
    }
}

/// What the spill files hold stands in the cache one after the other: sample `i` of spill `ch` behind all
/// samples of the spills before it.
pub proof fn law_a_cache_holds_one_spill_after_the_other(spills: Seq<Seq<u32>>, frames: nat, ch: int, i: int)
    requires
        0 <= ch < spills.len(),
        forall|c: int| 0 <= c < spills.len() ==> (#[trigger] spills[c]).len() == frames,
        0 <= i < frames,
    ensures
        joined(spills).len() == spills.len() * frames,
        joined(spills)[ch * frames + i] == spills[ch][i],
{
    law_joined_spills_are_planar(spills, frames, ch);
    let n = spills.len() as int;
    assert(0 <= ch * frames + i < (ch + 1) * frames && (ch + 1) * frames <= n * frames) by (nonlinear_arith)
        requires
            0 <= ch < n,
            0 <= i < frames,
    ;
    assert(ch * frames >= 0) by (nonlinear_arith)
        requires
            ch >= 0,
    ;
    assert((ch + 1) * frames - ch * frames == frames) by (nonlinear_arith);
    assert(plane(joined(spills), frames, ch)[i] == joined(spills)[ch * frames + i]);
}

/// The contents of buffers are those of each, in the same order.
pub proof fn law_contents_keep_their_order(buffers: Seq<Vec<u32>>, ch: int)
    requires
        0 <= ch < buffers.len(),
    ensures
        contents(buffers).len() == buffers.len(),
        contents(buffers)[ch] == buffers[ch]@,
{
}

/// A map that is refused does not open, and the reason is that it is empty exactly where it is.
pub proof fn law_a_refusal_has_its_reason(m: MmapMut, channels: nat, e: DecodeError)
    requires
        refuses(m, channels, e),
    ensures
        !opens(m, channels),
        e is Empty <==> map_size(m) == 0,
        e is Malformed <==> map_size(m) > 0,
{
}

/// The spill file of a channel stands next to the cache: its path is that of the cache, `.ch`, the number
/// of the channel in decimal digits, and `.tmp`.
pub proof fn law_a_spill_stands_next_to_the_cache(cache: Seq<char>, ch: nat)
    ensures
        spill_name(cache, ch) == cache + seq!['.', 'c', 'h'] + digits(ch) + seq!['.', 't', 'm', 'p'],
{
    reveal_strlit(".ch");
    reveal_strlit(".tmp");
    assert(".ch"@ =~= seq!['.', 'c', 'h']);
    assert(".tmp"@ =~= seq!['.', 't', 'm', 'p']);
}

} // verus!
