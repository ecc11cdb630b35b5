//! The open document: a PCM cache with a summary pyramid per channel, its edits and their undo.
//!
//! Every path that changes samples builds the pyramids of the channels it touched anew: a pyramid
//! of the right length over other samples would answer later queries without anybody noticing. That
//! is the invariant of [`Document`].

use vstd::prelude::*;
use std::sync::Arc;
use vstd::multiset::Multiset;
use vstd::seq_lib::lemma_multiset_commutative;
use memmap2::MmapMut;
use crate::agg::{
    law_a_bracketed_sum_is_one_of_its_samples, law_exact_sums_are_those_of_the_samples, law_extremes_are_the_numeric_ones, Agg,
    Arith, Sum,
};
use crate::apply::{apply_edit, confined, cut, edited, edited_with, restore, restored, snapshot};
use crate::decode::{contents, joined, opens, refuses, sample_bytes, DecodeError, PcmCache};
use crate::edit::Scale;
use crate::map::{law_bytes_hold_the_words, map_words, serialized};
use crate::sample::{is_nan, value};
use crate::stats::{
    law_statistics_are_those_of_the_samples, law_the_maximum_is_shown_at_its_time, law_the_minimum_is_shown_at_its_time,
    RangeStats, Units,
};
use crate::summary::{clamp, envelope_bin, law_a_range_adds_its_samples, range_sum, spliced, Analyzer, Pyramid};
use crate::text::{decimal, digits};
use crate::undo::{
    clear, dropped, entries, files_of, law_a_push_loses_no_file, law_stack_stays_under_its_cap,
    law_the_oldest_entries_make_room, lemma_kept_is_a_suffix, lemma_weight, push, pushed, texts, total, Undo,
    UndoEntry,
};

verus! {

/// The most waveform bins that one request may ask for.
pub const MAX_BINS: usize = 8192;

/// The most sample data that the undo stack holds, in bytes.
pub const MAX_UNDO_BYTES: usize = 268435456;

/// What an audio command can reject.
#[derive(Debug)]
pub enum AudioError {
    /// No file is open.
    NoDocument,
    /// The document has no such channel.
    BadChannel { ch: usize, channels: usize },
    /// More waveform bins were requested than there may be.
    TooManyBins { bins: usize, max: usize },
    /// The source file could not be decoded.
    Decode(DecodeError),
    /// The samples are in use elsewhere.
    Busy,
    /// The edit needs a selection and was given an empty one.
    EmptyRange,
    /// There is nothing to undo.
    NothingToUndo,
    /// Writing the trimmed cache failed.
    Io(String),
}

impl AudioError {
    /// What the error says.
    pub open spec fn text(self) -> Seq<char> {
        match self {
            AudioError::NoDocument => "no audio file is open"@,
            AudioError::BadChannel { ch, channels } => "channel "@ + digits(ch as nat) + " out of range (document has "@
                + digits(channels as nat) + ")"@,
            AudioError::TooManyBins { bins, max } => "requested "@ + digits(bins as nat)
                + " waveform bins, maximum is "@ + digits(max as nat),
            AudioError::Decode(e) => e.text(),
            AudioError::Busy => "the audio is in use (stop playback first)"@,
            AudioError::EmptyRange => "select a range first"@,
            AudioError::NothingToUndo => "nothing to undo"@,
            AudioError::Io(e) => e@,
        }
    }

    /// The error in words.
    pub fn message(&self) -> (r: String)
        ensures
            r@ == self.text(),
    {
        match self {
            AudioError::NoDocument => "no audio file is open".to_owned(),
            AudioError::BadChannel { ch, channels } => {
                let mut s: String = "channel ".to_owned();
                s.append(decimal(*ch as u64).as_str());
                s.append(" out of range (document has ");
                s.append(decimal(*channels as u64).as_str());
                s.append(")");
                s
            },
            AudioError::TooManyBins { bins, max } => {
                let mut s: String = "requested ".to_owned();
                s.append(decimal(*bins as u64).as_str());
                s.append(" waveform bins, maximum is ");
                s.append(decimal(*max as u64).as_str());
                s
            },
            AudioError::Decode(e) => e.message(),
            AudioError::Busy => "the audio is in use (stop playback first)".to_owned(),
            AudioError::EmptyRange => "select a range first".to_owned(),
            AudioError::NothingToUndo => "nothing to undo".to_owned(),
            AudioError::Io(e) => e.clone(),
        }
    }
}

/// An edit that changes samples and not their number.
#[derive(Debug, Clone, Copy, PartialEq, Eq, Structural)]
pub enum EditOp {
    /// Scale so that the loudest sample of the selection reaches full scale.
    Normalize,
    /// Fade in over the selection.
    FadeIn,
    /// Fade out over the selection.
    FadeOut,
    /// Silence the selection.
    Silence,
}

impl EditOp {
    /// What the edit is called.
    pub open spec fn label(self) -> Seq<char> {
        match self {
            EditOp::Normalize => "normalize"@,
            EditOp::FadeIn => "fade in"@,
            EditOp::FadeOut => "fade out"@,
            EditOp::Silence => "silence"@,
        }
    }

    /// What the edit is called.
    pub fn name(self) -> (r: &'static str)
        ensures
            r@ == self.label(),
    {
        match self {
            EditOp::Normalize => "normalize",
            EditOp::FadeIn => "fade in",
            EditOp::FadeOut => "fade out",
            EditOp::Silence => "silence",
        }
    }
}

/// Geometry of the open document.
#[derive(Debug)]
pub struct AudioInfo {
    /// Path of the source file as opened.
    pub path: String,
    /// Number of channels.
    pub channels: usize,
    /// Sampling rate in Hz.
    pub sample_rate: u32,
    /// Samples per channel.
    pub frames: usize,
    /// Duration in seconds, as a double-precision pattern.
    pub duration_s: u64,
}

impl Clone for AudioInfo {
    fn clone(&self) -> (r: Self)
        ensures
            r == *self,
    {
        AudioInfo {
            path: self.path.clone(),
            channels: self.channels,
            sample_rate: self.sample_rate,
            frames: self.frames,
            duration_s: self.duration_s,
        }
    }
}

/// Statistics of a selection of one channel.
#[derive(Debug, Clone, Copy, PartialEq, Eq, Structural)]
pub struct StatsDto {
    /// The channel.
    pub channel: usize,
    /// Samples in the selection.
    pub n: u64,
    /// Start time in seconds.
    pub start_s: u64,
    /// Duration in seconds.
    pub duration_s: u64,
    /// Largest absolute sample.
    pub peak: u32,
    /// Minimum sample.
    pub min: u32,
    /// Time of the minimum in seconds.
    pub min_pos_s: u64,
    /// Maximum sample.
    pub max: u32,
    /// Time of the maximum in seconds.
    pub max_pos_s: u64,
    /// RMS level.
    pub rms: u64,
    /// DC offset.
    pub dc: u64,
    /// Number of zero crossings.
    pub zero_crossings: u64,
    /// Zero-crossing frequency estimate in Hz.
    pub freq_hz: u64,
}

impl StatsDto {
    /// The statistics `s` of `channel`.
    pub open spec fn of(channel: usize, s: RangeStats) -> StatsDto {
        StatsDto {
            channel,
            n: s.n,
            start_s: s.start_s,
            duration_s: s.duration_s,
            peak: s.peak,
            min: s.min,
            min_pos_s: s.min_pos_s,
            max: s.max,
            max_pos_s: s.max_pos_s,
            rms: s.rms,
            dc: s.dc,
            zero_crossings: s.zero_crossings,
            freq_hz: s.freq_hz,
        }
    }

    /// The statistics `s` of `channel`.
    pub fn new(channel: usize, s: RangeStats) -> (r: Self)
        ensures
            r == StatsDto::of(channel, s),
    {
        StatsDto {
            channel,
            n: s.n,
            start_s: s.start_s,
            duration_s: s.duration_s,
            peak: s.peak,
            min: s.min,
            min_pos_s: s.min_pos_s,
            max: s.max,
            max_pos_s: s.max_pos_s,
            rms: s.rms,
            dc: s.dc,
            zero_crossings: s.zero_crossings,
            freq_hz: s.freq_hz,
        }
    }
}

/// The envelope of a range: the extremes of each bin, as parallel arrays.
#[derive(Debug)]
pub struct WaveformDto {
    /// The channel.
    pub channel: usize,
    /// Start of the range, clamped to the document.
    pub start: usize,
    /// End of the range, clamped to the document.
    pub end: usize,
    /// Number of bins.
    pub bins: usize,
    /// Minimum of each bin.
    pub min: Vec<u32>,
    /// Maximum of each bin.
    pub max: Vec<u32>,
}

/// The document after an edit, and what can be undone.
#[derive(Debug)]
pub struct EditDto {
    /// Geometry after the edit.
    pub info: AudioInfo,
    /// Whether the undo stack holds anything.
    pub can_undo: bool,
    /// Whether this edit was recorded. One whose snapshot is too large is not.
    pub last_undoable: bool,
}

/// An open document, in the mathematical sense.
pub struct Doc {
    /// Its geometry.
    pub info: AudioInfo,
    /// The samples of each channel.
    pub samples: Seq<Seq<u32>>,
    /// The path of its cache file.
    pub cache_path: Seq<char>,
    /// What can be undone, oldest first.
    pub undo: Seq<Undo>,
}

impl Doc {
    /// The geometry is that of the samples, every undo entry can be applied, a trim is the oldest
    /// one, and the undo stack is under its cap.
    pub open spec fn wf(self) -> bool {
        &&& 0 < self.info.channels == self.samples.len()
        &&& 0 < self.info.frames
        &&& self.info.channels * self.info.frames * 4 <= usize::MAX
        &&& forall|ch: int| 0 <= ch < self.samples.len() ==> (#[trigger] self.samples[ch]).len() == self.info.frames
        &&& forall|i: int|
            0 <= i < self.undo.len() ==> (#[trigger] self.undo[i]).fits(
                self.info.channels as nat,
                self.info.frames as nat,
            )
        &&& forall|i: int| 0 < i < self.undo.len() ==> #[trigger] self.undo[i] is Samples
        &&& total(self.undo) <= crate::audio::MAX_UNDO_BYTES
    }

    /// The cache files that the document owns.
    pub open spec fn files(self) -> Seq<Seq<char>> {
        seq![self.cache_path] + files_of(self.undo)
    }

    /// The samples of channel `ch` between two positions, both clamped to the document.
    pub open spec fn selection(self, ch: int, start: int, end: int) -> Seq<u32> {
        let lo = clamp(start, self.info.frames as int);
        let hi = clamp(end, self.info.frames as int);
        if lo < hi {
            self.samples[ch].subrange(lo, hi)
        } else {
            Seq::empty()
        }
    }

    /// How the statistics of `start..end` of channel `ch` add the samples.
    pub open spec fn bracketing(self, ch: int, start: int, end: int) -> Sum {
        let frames = self.info.frames as int;
        range_sum(self.samples[ch], self.samples[ch], clamp(start, frames), clamp(end, frames))
    }
}

/// `d2` is `d` with `op` applied to `lo..hi`: the original samples go onto the undo stack.
pub open spec fn edit_outcome<
    M: Fn(u32, u32) -> u32,
    D: Fn(u32, u32) -> u32,
    R: Fn(usize, usize) -> u32,
    F: Fn(usize, usize) -> u32,
>(op: EditOp, scale: Scale<M, D, R, F>, d: Doc, lo: int, hi: int, d2: Doc) -> bool {
    &&& d2.info == d.info
    &&& d2.cache_path == d.cache_path
    &&& edited(op, scale, d.samples, lo, hi, d2.samples)
    &&& d2.undo == pushed(d.undo, edit_entry(d, lo, hi))
}

/// The undo entry of an edit of `lo..hi`.
pub open spec fn edit_entry(d: Doc, lo: int, hi: int) -> Undo {
    Undo::Samples { start: lo, channels: cut(d.samples, lo, hi) }
}

/// Editing keeps a document well-formed.
proof fn lemma_edit_keeps_wf<
    M: Fn(u32, u32) -> u32,
    D: Fn(u32, u32) -> u32,
    R: Fn(usize, usize) -> u32,
    F: Fn(usize, usize) -> u32,
>(op: EditOp, scale: Scale<M, D, R, F>, d: Doc, lo: int, hi: int, d2: Doc)
    requires
        d.wf(),
        0 <= lo <= hi <= d.info.frames,
        edit_outcome(op, scale, d, lo, hi, d2),
        forall|ch: int| 0 <= ch < d2.samples.len() ==> (#[trigger] d2.samples[ch]).len() == d.info.frames,
        d2.samples.len() == d.samples.len(),
    ensures
        d2.wf(),
{
    let entry = edit_entry(d, lo, hi);
    let all = d.undo.push(entry);
    lemma_kept_is_a_suffix(all);
    law_stack_stays_under_its_cap(d.undo, entry);
    assert forall|ch: int| 0 <= ch < d.samples.len() implies (#[trigger] cut(d.samples, lo, hi)[ch]).len() == hi - lo by {}
    assert(entry.fits(d.info.channels as nat, d.info.frames as nat));
    assert forall|i: int| 0 <= i < all.len() implies (#[trigger] all[i]).fits(
        d.info.channels as nat,
        d.info.frames as nat,
    ) by {
        if i < d.undo.len() {
            assert(all[i] == d.undo[i]);
        }
    }
    assert forall|i: int| 0 < i < all.len() implies #[trigger] all[i] is Samples by {
        if i < d.undo.len() {
            assert(all[i] == d.undo[i]);
        }
    }
    let skipped = all.len() - d2.undo.len();
    if entry.bytes() <= MAX_UNDO_BYTES {
        assert forall|i: int| 0 <= i < d2.undo.len() implies #[trigger] d2.undo[i] == all[i + skipped] by {}
    }
}

/// A stack without its newest entry holds no more than the whole.
proof fn lemma_total_of_rest(stack: Seq<Undo>)
    requires
        stack.len() > 0,
    ensures
        total(stack.drop_last()) <= total(stack),
{
}

/// The bytes of a copy of `lo..hi` can be counted.
proof fn lemma_entry_weight(d: Doc, lo: int, hi: int)
    requires
        d.wf(),
        0 <= lo <= hi <= d.info.frames,
    ensures
        edit_entry(d, lo, hi).bytes() <= usize::MAX,
{
    let c = cut(d.samples, lo, hi);
    assert forall|ch: int| 0 <= ch < c.len() implies (#[trigger] c[ch]).len() == (hi - lo) as nat by {
        assert(d.samples[ch].len() == d.info.frames);
    }
    lemma_weight(c, (hi - lo) as nat);
    assert(c.len() * (hi - lo) * 4 <= d.info.channels * d.info.frames * 4) by (nonlinear_arith)
        requires
            c.len() == d.info.channels,
            0 <= hi - lo <= d.info.frames,
    ;
}

/// `store` was handed the bytes of `samples`, channel by channel, and came to `outcome`.
pub open spec fn stored<W: Fn(&[&[u8]]) -> Result<MmapMut, AudioError>>(
    store: W,
    samples: Seq<Seq<u32>>,
    outcome: Result<MmapMut, AudioError>,
) -> bool {
    exists|parts: &[&[u8]]| is_bytes_of(parts, samples) && #[trigger] store_came_to(store, parts, outcome)
}

/// `parts` are the bytes of `samples`, channel by channel.
pub open spec fn is_bytes_of(parts: &[&[u8]], samples: Seq<Seq<u32>>) -> bool {
    &&& parts@.len() == samples.len()
    &&& forall|ch: int| 0 <= ch < samples.len() ==> serialized(samples[ch], (#[trigger] parts@[ch])@)
}

/// `store` on `parts` came to `outcome`.
pub open spec fn store_came_to<W: Fn(&[&[u8]]) -> Result<MmapMut, AudioError>>(
    store: W,
    parts: &[&[u8]],
    outcome: Result<MmapMut, AudioError>,
) -> bool {
    call_ensures(store, (parts,), outcome)
}

/// `d2` is `d` trimmed to what the cache `c` at `path` holds. Its undo stack holds the trim alone:
/// older entries speak of positions in the untrimmed document.
pub open spec fn trim_outcome(d: Doc, c: PcmCache, path: Seq<char>, d2: Doc) -> bool {
    &&& d2.samples == c@
    &&& d2.info.path == d.info.path
    &&& d2.info.channels == d.info.channels
    &&& d2.info.sample_rate == d.info.sample_rate
    &&& d2.info.frames == c.n_frames()
    &&& d2.cache_path == path
    &&& d2.undo == seq![Undo::Trim { cache_path: d.cache_path, info: d.info }]
}

/// `d2` is `d` trimmed to `lo..hi`, which `store` put into the cache file at `path`.
pub open spec fn trimmed<W: Fn(&[&[u8]]) -> Result<MmapMut, AudioError>>(
    store: W,
    d: Doc,
    lo: int,
    hi: int,
    path: Seq<char>,
    d2: Doc,
) -> bool {
    exists|c: PcmCache|
        {
            &&& #[trigger] trim_outcome(d, c, path, d2)
            &&& c.wf()
            &&& stored(store, cut(d.samples, lo, hi), Ok(c.map()))
        }
}

/// `e` says why a trim that keeps `samples` failed: storing them failed, or what was stored is no
/// cache.
pub open spec fn trim_fails<W: Fn(&[&[u8]]) -> Result<MmapMut, AudioError>>(
    store: W,
    samples: Seq<Seq<u32>>,
    e: AudioError,
) -> bool {
    ||| stored(store, samples, Err(e))
    ||| exists|m: MmapMut|
        {
            &&& #[trigger] stored(store, samples, Ok(m))
            &&& e matches AudioError::Decode(x)
            &&& refuses(m, samples.len(), x)
        }
}

/// `load` on the cache file at `path` came to `outcome`.
pub open spec fn loaded<G: Fn(&str) -> Result<MmapMut, DecodeError>>(
    load: G,
    path: Seq<char>,
    outcome: Result<MmapMut, DecodeError>,
) -> bool {
    exists|p: &str| p@ == path && #[trigger] load_came_to(load, p, outcome)
}

/// `load` on `path` came to `outcome`.
pub open spec fn load_came_to<G: Fn(&str) -> Result<MmapMut, DecodeError>>(
    load: G,
    path: &str,
    outcome: Result<MmapMut, DecodeError>,
) -> bool {
    call_ensures(load, (path,), outcome)
}

/// `d2` is `d` with the newest entry, an edit in place, undone.
pub open spec fn unedit_outcome(d: Doc, d2: Doc) -> bool {
    &&& d.undo.len() > 0
    &&& d.undo.last() matches Undo::Samples { start, channels }
    &&& d2 == (Doc { samples: restored(d.samples, start, channels), undo: d.undo.drop_last(), ..d })
}

/// `d2` is `d` with the newest entry, a trim, undone: the document is what the cache `c` holds. Its
/// geometry is the recorded one, unless the file has another length by now.
pub open spec fn untrim_outcome<S: Fn(u64, u32) -> u64>(seconds: S, d: Doc, c: PcmCache, d2: Doc) -> bool {
    &&& d.undo.len() > 0
    &&& d.undo.last() matches Undo::Trim { cache_path, info }
    &&& d2 == (Doc { info: d2.info, samples: c@, cache_path, undo: d.undo.drop_last() })
    &&& if c.n_frames() == info.frames {
        d2.info == info
    } else {
        &&& d2.info == (AudioInfo { frames: c.n_frames() as usize, duration_s: d2.info.duration_s, ..info })
        &&& call_ensures(seconds, (d2.info.frames as u64, info.sample_rate), d2.info.duration_s)
    }
}

/// `d2` is `d` with the newest entry, a trim, undone from the cache file that `load` mapped at `path`.
pub open spec fn untrimmed<S: Fn(u64, u32) -> u64, G: Fn(&str) -> Result<MmapMut, DecodeError>>(
    load: G,
    seconds: S,
    d: Doc,
    path: Seq<char>,
    d2: Doc,
) -> bool {
    exists|c: PcmCache|
        {
            &&& #[trigger] untrim_outcome(seconds, d, c, d2)
            &&& c.wf()
            &&& loaded(load, path, Ok(c.map()))
        }
}

/// `e` says why a trim could not be undone: the cache file at `path` could not be loaded, or it is
/// no cache of the channels of `info`.
pub open spec fn untrim_fails<G: Fn(&str) -> Result<MmapMut, DecodeError>>(
    load: G,
    path: Seq<char>,
    info: AudioInfo,
    e: DecodeError,
) -> bool {
    ||| loaded(load, path, Err(e))
    ||| exists|m: MmapMut|
        {
            &&& #[trigger] loaded(load, path, Ok(m))
            &&& refuses(m, info.channels as nat, e)
        }
}

/// An open audio file: the samples and a pyramid for each channel.
pub struct Document {
    info: AudioInfo,
    cache: Arc<PcmCache>,
    pyramids: Vec<Pyramid>,
    cache_path: String,
    undo: Vec<UndoEntry>,
}

impl View for Document {
    type V = Doc;

    closed spec fn view(&self) -> Doc {
        Doc {
            info: self.info,
            samples: (*self.cache)@,
            cache_path: self.cache_path@,
            undo: entries(self.undo@),
        }
    }
}

impl Document {
    /// The document is well-formed, and the pyramid of each channel is over its samples.
    pub closed spec fn wf(self) -> bool {
        &&& self@.wf()
        &&& self.cache.wf()
        &&& self.cache.n_frames() == self.info.frames
        &&& self.cache.rate() == self.info.sample_rate
        &&& self.pyramids@.len() == self.info.channels
        &&& forall|ch: int|
            0 <= ch < self.pyramids@.len() ==> (#[trigger] self.pyramids@[ch]).wf() && self.pyramids@[ch]@
                == (*self.cache)@[ch]
    }

    /// The sums in the pyramids were added with `ops`.
    pub closed spec fn summed<A: Fn(u64, u64) -> u64, L: Fn(u32) -> (u64, u64)>(self, ops: Arith<A, L>) -> bool {
        forall|ch: int| 0 <= ch < self.pyramids@.len() ==> (#[trigger] self.pyramids@[ch]).summed(ops)
    }

    /// An analyzer over channel `ch`.
    fn analyzer(&self, ch: usize) -> (r: Analyzer<'_>)
        requires
            self.wf(),
            ch < self@.samples.len(),
        ensures
            r.wf(),
            r.samples() == self@.samples[ch as int],
            r.tree()@ == self@.samples[ch as int],
            forall|k: int| k == ch ==> r.tree() == #[trigger] self.pyramids@[k],
    {
        Analyzer::with_pyramid(self.cache.channel(ch), &self.pyramids[ch])
    }

    /// Rejects a channel that the document does not have.
    fn check_channel(&self, ch: usize) -> (r: Result<(), AudioError>)
        ensures
            ch < self@.info.channels ==> r is Ok,
            ch >= self@.info.channels ==> r == Result::<(), AudioError>::Err(
                AudioError::BadChannel { ch, channels: self@.info.channels },
            ),
    {
        if ch >= self.info.channels {
            return Err(AudioError::BadChannel { ch, channels: self.info.channels });
        }
        Ok(())
    }

    /// Moves the document onto a new cache file that holds `lo..hi` alone.
    pub fn trim_to<
        A: Fn(u64, u64) -> u64,
        L: Fn(u32) -> (u64, u64),
        S: Fn(u64, u32) -> u64,
        W: Fn(&[&[u8]]) -> Result<MmapMut, AudioError>,
    >(
        &mut self,
        lo: usize,
        hi: usize,
        new_cache_path: String,
        store: &W,
        ops: &Arith<A, L>,
        seconds: &S,
        discarded: &mut Vec<String>,
    ) -> (r: Result<EditDto, AudioError>)
        requires
            old(self).wf(),
            lo < hi <= old(self)@.info.frames,
            ops.total(),
            forall|n: u64, rate: u32| #[trigger] call_requires(*seconds, (n, rate)),
            forall|parts: &[&[u8]]|
                is_bytes_of(parts, cut(old(self)@.samples, lo as int, hi as int)) ==> #[trigger] call_requires(
                    *store,
                    (parts,),
                ),
        ensures
            final(self).wf(),
            match r {
                Err(e) => {
                    &&& *final(self) == *old(self)
                    &&& *final(discarded) == *old(discarded)
                    &&& trim_fails(*store, cut(old(self)@.samples, lo as int, hi as int), e)
                },
                Ok(dto) => {
                    &&& trimmed(*store, old(self)@, lo as int, hi as int, new_cache_path@, final(self)@)
                    &&& call_ensures(
                        *seconds,
                        (final(self)@.info.frames as u64, final(self)@.info.sample_rate),
                        final(self)@.info.duration_s,
                    )
                    &&& final(self).summed(*ops)
                    &&& texts(final(discarded)@) == texts(old(discarded)@) + files_of(old(self)@.undo)
                    &&& dto.info == final(self)@.info
                    &&& dto.can_undo
                    &&& dto.last_undoable
                },
            },
    {
        let ghost d = self@;
        let channels: usize = self.info.channels;
        let sample_rate: u32 = self.info.sample_rate;
        let ghost kept = cut(d.samples, lo as int, hi as int);
        let stored_map: Result<MmapMut, AudioError> = store_range(&self.cache, lo, hi, store);
        let map: MmapMut = match stored_map {
            Ok(m) => m,
            Err(e) => return Err(e),
        };
        let ghost m = map;
        proof {
            assert(stored(*store, kept, Ok(m)));
        }
        let cache: PcmCache = match PcmCache::open_planar(map, channels, sample_rate) {
            Ok(c) => c,
            Err(e) => return Err(AudioError::Decode(e)),
        };
        let ghost c = cache;
        let new_frames: usize = cache.frames();
        let pyramids: Vec<Pyramid> = build_pyramids(&cache, ops);
        let duration_s: u64 = seconds(new_frames as u64, sample_rate);
        proof {
            cache.lemma_shape();
        }
        let old_info: AudioInfo = self.info.clone();
        let mut old_path: String = new_cache_path;
        std::mem::swap(&mut old_path, &mut self.cache_path);
        self.cache = Arc::new(cache);
        self.pyramids = pyramids;
        self.info.frames = new_frames;
        self.info.duration_s = duration_s;
        clear(&mut self.undo, discarded);
        self.undo.push(UndoEntry::Trim { cache_path: old_path, info: old_info });
        proof {
            let d2 = self@;
            assert(d2.undo =~= seq![Undo::Trim { cache_path: d.cache_path, info: d.info }]);
            assert(d2.undo.drop_last() =~= Seq::empty());
            assert(total(d2.undo.drop_last()) == 0);
            assert(trim_outcome(d, c, new_cache_path@, d2) && c.wf() && stored(*store, kept, Ok(c.map())));
            assert(texts(discarded@) == texts(old(discarded)@) + files_of(d.undo));
        }
        Ok(EditDto { info: self.info.clone(), can_undo: true, last_undoable: true })
    }
}

/// `std::sync::Arc::get_mut`: exclusive access to the cache, where this handle is the only one.
/// Whether it is depends on who else holds one, so nothing is said of when there is none.
#[verifier::external_body]
fn exclusive(cache: &mut Arc<PcmCache>) -> (r: Option<&mut PcmCache>)
    ensures
        match r {
            Some(c) => *c == **old(cache) && **final(cache) == *final(c),
            None => **final(cache) == **old(cache),
        },
{
    Arc::get_mut(cache)
}

/// Edits `lo..hi` of the samples and returns what they were. Without exclusive access to them they
/// are in use.
pub fn edit_with<
    M: Fn(u32, u32) -> u32,
    D: Fn(u32, u32) -> u32,
    R: Fn(usize, usize) -> u32,
    F: Fn(usize, usize) -> u32,
>(access: Option<&mut PcmCache>, op: EditOp, lo: usize, hi: usize, scale: &Scale<M, D, R, F>) -> (r: Result<
    Vec<Vec<u32>>,
    AudioError,
>)
    requires
        access matches Some(c) ==> c.wf() && lo <= hi <= c.n_frames(),
        scale.total(),
    ensures
        match access {
            None => r == Result::<Vec<Vec<u32>>, AudioError>::Err(AudioError::Busy),
            Some(c) => {
                &&& final(c).wf()
                &&& final(c).rate() == c.rate()
                &&& final(c).n_frames() == c.n_frames()
                &&& edited(op, *scale, c@, lo as int, hi as int, final(c)@)
                &&& r matches Ok(originals)
                &&& contents(originals@) == cut(c@, lo as int, hi as int)
            },
        },
{
    match access {
        Some(cache) => {
            let originals: Vec<Vec<u32>> = snapshot(cache, lo, hi);
            apply_edit(cache, op, lo, hi, scale);
            Ok(originals)
        },
        None => Err(AudioError::Busy),
    }
}

/// Takes the newest entry off the undo stack. The samples of an edit are put back, and of a trim the
/// cache file and the geometry to go back to are returned. Without exclusive access to the samples
/// they are in use, and the entry stays.
pub fn undo_with(access: Option<&mut PcmCache>, undo: &mut Vec<UndoEntry>) -> (r: Result<
    Option<(String, AudioInfo)>,
    AudioError,
>)
    requires
        old(undo)@.len() > 0,
        access matches Some(c) ==> c.wf() && old(undo)@.last()@.fits(c@.len(), c.n_frames()),
    ensures
        match access {
            None => {
                &&& r == Result::<Option<(String, AudioInfo)>, AudioError>::Err(AudioError::Busy)
                &&& *final(undo) == *old(undo)
            },
            Some(c) => {
                &&& final(undo)@ == old(undo)@.drop_last()
                &&& final(c).wf()
                &&& final(c).rate() == c.rate()
                &&& final(c).n_frames() == c.n_frames()
                &&& match old(undo)@.last() {
                    UndoEntry::Samples { start, channels } => {
                        &&& final(c)@ == restored(c@, start as int, contents(channels@))
                        &&& r == Result::<Option<(String, AudioInfo)>, AudioError>::Ok(None)
                    },
                    UndoEntry::Trim { cache_path, info } => {
                        &&& *final(c) == *c
                        &&& r == Result::<Option<(String, AudioInfo)>, AudioError>::Ok(Some((cache_path, info)))
                    },
                }
            },
        },
{
    match access {
        Some(cache) => match undo.pop() {
            Some(UndoEntry::Samples { start, channels }) => {
                proof {
                    assert forall|ch: int| 0 <= ch < channels@.len() implies start + (#[trigger] channels@[ch])@.len()
                        <= cache.n_frames() by {
                        assert(contents(channels@)[ch] == channels@[ch]@);
                    }
                }
                restore(cache, start, &channels);
                Ok(None)
            },
            Some(UndoEntry::Trim { cache_path, info }) => Ok(Some((cache_path, info))),
            None => Ok(None),
        },
        None => Err(AudioError::Busy),
    }
}

/// Whether the samples may be replaced: without exclusive access to them they are in use.
pub fn replace_with(access: Option<&mut PcmCache>) -> (r: Result<(), AudioError>)
    ensures
        match access {
            None => r == Result::<(), AudioError>::Err(AudioError::Busy),
            Some(c) => r is Ok && *final(c) == *c,
        },
{
    match access {
        Some(_) => Ok(()),
        None => Err(AudioError::Busy),
    }
}

/// `<std::sync::Arc as Clone>::clone`: another handle on the same cache.
#[verifier::external_body]
fn another(cache: &Arc<PcmCache>) -> (r: Arc<PcmCache>)
    ensures
        *r == **cache,
{
    Arc::clone(cache)
}

/// A pyramid for each channel of `cache`.
fn build_pyramids<A: Fn(u64, u64) -> u64, L: Fn(u32) -> (u64, u64)>(cache: &PcmCache, ops: &Arith<A, L>) -> (r: Vec<
    Pyramid,
>)
    requires
        cache.wf(),
        ops.total(),
    ensures
        r@.len() == cache@.len(),
        forall|ch: int|
            0 <= ch < r@.len() ==> (#[trigger] r@[ch]).wf() && r@[ch]@ == cache@[ch] && r@[ch].summed(*ops),
{
    let channels: usize = cache.channels();
    let mut out: Vec<Pyramid> = Vec::new();
    let mut ch: usize = 0;
    while ch < channels
        invariant
            cache.wf(),
            ops.total(),
            channels == cache@.len(),
            ch <= channels,
            out@.len() == ch,
            forall|c: int|
                0 <= c < out@.len() ==> (#[trigger] out@[c]).wf() && out@[c]@ == cache@[c] && out@[c].summed(*ops),
        decreases channels - ch,
    {
        out.push(Pyramid::build(cache.channel(ch), ops));
        ch = ch + 1;
    }
    out
}

/// The audio state, in the mathematical sense.
pub struct State {
    /// The open document.
    pub doc: Option<Doc>,
    /// The cache files that nothing refers to any more and that wait to be deleted.
    pub discarded: Seq<Seq<char>>,
}

/// At most one open document, and the cache files that wait to be deleted.
pub struct AudioState {
    doc: Option<Document>,
    discarded: Vec<String>,
}

impl View for AudioState {
    type V = State;

    closed spec fn view(&self) -> State {
        State {
            doc: match self.doc {
                Some(d) => Some(d@),
                None => None,
            },
            discarded: texts(self.discarded@),
        }
    }
}

impl Default for AudioState {
    fn default() -> (r: Self)
        ensures
            r.wf(),
            r@.doc is None,
            r@.discarded == Seq::<Seq<char>>::empty(),
    {
        let r: AudioState = AudioState { doc: None, discarded: Vec::new() };
        proof {
            assert(r@.discarded =~= Seq::empty());
        }
        r
    }
}

/// `agg` is the aggregate of the samples `s` from `base` on, with sums that `ops` added as `t`
/// brackets them where `exact`.
pub open spec fn aggregate<A: Fn(u64, u64) -> u64, L: Fn(u32) -> (u64, u64)>(
    agg: Agg,
    s: Seq<u32>,
    base: int,
    t: Sum,
    ops: Arith<A, L>,
    exact: bool,
) -> bool {
    agg.describes(s, base) && (exact ==> agg.adds_up(ops, t))
}

impl AudioState {
    /// The open document.
    pub closed spec fn document(self) -> Option<Document> {
        self.doc
    }

    /// The open document is well-formed.
    pub open spec fn wf(self) -> bool {
        self.document() matches Some(d) ==> d.wf()
    }

    /// The sums in the pyramids of the open document were added with `ops`.
    pub open spec fn summed<A: Fn(u64, u64) -> u64, L: Fn(u32) -> (u64, u64)>(self, ops: Arith<A, L>) -> bool {
        self.document() matches Some(d) ==> d.summed(ops)
    }

    /// What is kept of the open document fits together: a channel count, a length and an undo stack
    /// that belong to its samples.
    pub proof fn law_an_open_document_is_well_formed(self)
        requires
            self.wf(),
        ensures
            self@.doc matches Some(d) ==> d.wf(),
    {
    }

    /// Makes a decoded cache the open document. A document that was open before is dropped, and the
    /// cache files that it owned wait to be deleted.
    ///
    /// `cache_path` has to be one that no document had before: the files of the previous document
    /// are deleted.
    pub fn open<A: Fn(u64, u64) -> u64, L: Fn(u32) -> (u64, u64), S: Fn(u64, u32) -> u64>(
        &mut self,
        cache: PcmCache,
        path: String,
        cache_path: String,
        ops: &Arith<A, L>,
        seconds: &S,
    ) -> (r: AudioInfo)
        requires
            old(self).wf(),
            cache.wf(),
            ops.total(),
            forall|n: u64, rate: u32| #[trigger] call_requires(*seconds, (n, rate)),
        ensures
            final(self).wf(),
            final(self).summed(*ops),
            r.path == path,
            r.channels == cache@.len(),
            r.sample_rate == cache.rate(),
            r.frames == cache.n_frames(),
            call_ensures(*seconds, (r.frames as u64, r.sample_rate), r.duration_s),
            final(self)@.doc == Some(
                Doc { info: r, samples: cache@, cache_path: cache_path@, undo: Seq::empty() },
            ),
            final(self)@.discarded == old(self)@.discarded + (match old(self)@.doc {
                Some(d) => d.files(),
                None => Seq::empty(),
            }),
    {
        let pyramids: Vec<Pyramid> = build_pyramids(&cache, ops);
        let info: AudioInfo = AudioInfo {
            path,
            channels: cache.channels(),
            sample_rate: cache.sample_rate(),
            frames: cache.frames(),
            duration_s: seconds(cache.frames() as u64, cache.sample_rate()),
        };
        proof {
            cache.lemma_shape();
        }
        self.close();
        let r: AudioInfo = info.clone();
        let doc: Document = Document { info, cache: Arc::new(cache), pyramids, cache_path, undo: Vec::new() };
        proof {
            assert(doc@.undo =~= Seq::empty());
        }
        self.doc = Some(doc);
        r
    }

    /// Geometry of the open document.
    pub fn info(&self) -> (r: Option<AudioInfo>)
        ensures
            r == (match self@.doc {
                Some(d) => Some(d.info),
                None => None,
            }),
    {
        match &self.doc {
            Some(d) => Some(d.info.clone()),
            None => None,
        }
    }

    /// A shared handle on the samples of the open document, for playback. While it is held the
    /// samples cannot be edited.
    pub fn pcm(&self) -> (r: Result<Arc<PcmCache>, AudioError>)
        requires
            self.wf(),
        ensures
            match self@.doc {
                Some(d) => r matches Ok(c) && c.wf() && (*c)@ == d.samples && c.rate() == d.info.sample_rate,
                None => r == Result::<Arc<PcmCache>, AudioError>::Err(AudioError::NoDocument),
            },
    {
        match &self.doc {
            Some(d) => Ok(another(&d.cache)),
            None => Err(AudioError::NoDocument),
        }
    }

    /// Closes the open document, if there is one. The cache files that it owned wait to be deleted.
    pub fn close(&mut self)
        ensures
            final(self).wf(),
            final(self)@.doc is None,
            final(self)@.discarded == old(self)@.discarded + (match old(self)@.doc {
                Some(d) => d.files(),
                None => Seq::empty(),
            }),
    {
        let mut taken: Option<Document> = None;
        std::mem::swap(&mut taken, &mut self.doc);
        let ghost before = texts(self.discarded@);
        match taken {
            Some(doc) => {
                let mut undo: Vec<UndoEntry> = doc.undo;
                let ghost path = doc.cache_path@;
                let ghost stack = entries(undo@);
                self.discarded.push(doc.cache_path);
                proof {
                    assert(texts(self.discarded@) =~= before + seq![path]);
                }
                clear(&mut undo, &mut self.discarded);
                proof {
                    assert(texts(self.discarded@) =~= before + (seq![path] + files_of(stack)));
                }
            },
            None => {
                proof {
                    assert(texts(self.discarded@) =~= before + Seq::<Seq<char>>::empty());
                }
            },
        }
    }

    /// The cache files that wait to be deleted, which is now up to the caller.
    pub fn take_discarded(&mut self) -> (r: Vec<String>)
        ensures
            texts(r@) == old(self)@.discarded,
            final(self)@.discarded == Seq::<Seq<char>>::empty(),
            final(self)@.doc == old(self)@.doc,
            final(self).document() == old(self).document(),
    {
        let mut out: Vec<String> = Vec::new();
        std::mem::swap(&mut out, &mut self.discarded);
        proof {
            assert(texts(self.discarded@) =~= Seq::empty());
        }
        out
    }

    /// Whether there is anything to undo.
    pub fn can_undo(&self) -> (r: bool)
        ensures
            r == (self@.doc matches Some(d) && d.undo.len() > 0),
    {
        match &self.doc {
            Some(d) => d.undo.len() > 0,
            None => false,
        }
    }

    /// The selection `start..end` clamped to the open document, for exporting it. An empty one is
    /// rejected.
    pub fn selection(&self, start: usize, end: usize) -> (r: Result<(usize, usize), AudioError>)
        ensures
            match self@.doc {
                None => r == Result::<(usize, usize), AudioError>::Err(AudioError::NoDocument),
                Some(d) => {
                    let lo = clamp(start as int, d.info.frames as int);
                    let hi = clamp(end as int, d.info.frames as int);
                    if lo < hi {
                        r == Result::<(usize, usize), AudioError>::Ok((lo as usize, hi as usize))
                    } else {
                        r == Result::<(usize, usize), AudioError>::Err(AudioError::EmptyRange)
                    }
                },
            },
    {
        let frames: usize = match &self.doc {
            Some(d) => d.info.frames,
            None => return Err(AudioError::NoDocument),
        };
        let lo: usize = if start < frames {
            start
        } else {
            frames
        };
        let hi: usize = if end < frames {
            end
        } else {
            frames
        };
        if lo >= hi {
            return Err(AudioError::EmptyRange);
        }
        Ok((lo, hi))
    }

    /// Statistics of `start..end` on channel `ch`. The range is clamped to the document; an empty or
    /// reversed one has zeroed statistics.
    pub fn stats<
        A: Fn(u64, u64) -> u64,
        L: Fn(u32) -> (u64, u64),
        S: Fn(u64, u32) -> u64,
        M: Fn(u64, u64) -> u64,
        R: Fn(u64) -> u64,
        F: Fn(u64, u64) -> u64,
    >(&self, ch: usize, start: usize, end: usize, ops: &Arith<A, L>, units: &Units<S, M, R, F>) -> (r: Result<
        StatsDto,
        AudioError,
    >)
        requires
            self.wf(),
            ops.total(),
            units.total(),
        ensures
            match self@.doc {
                None => r == Result::<StatsDto, AudioError>::Err(AudioError::NoDocument),
                Some(d) => if ch >= d.info.channels {
                    r == Result::<StatsDto, AudioError>::Err(
                        AudioError::BadChannel { ch, channels: d.info.channels },
                    )
                } else {
                    let base = clamp(start as int, d.info.frames as int);
                    exists|agg: Agg, s: RangeStats|
                        {
                            &&& #[trigger] aggregate(
                                agg,
                                d.selection(ch as int, start as int, end as int),
                                base,
                                d.bracketing(ch as int, start as int, end as int),
                                *ops,
                                self.summed(*ops),
                            )
                            &&& #[trigger] s.derives(agg, base as u64, d.info.sample_rate, *units)
                            &&& r == Result::<StatsDto, AudioError>::Ok(StatsDto::of(ch, s))
                        }
                },
            },
    {
        let doc: &Document = match &self.doc {
            Some(d) => d,
            None => return Err(AudioError::NoDocument),
        };
        match doc.check_channel(ch) {
            Ok(_) => {},
            Err(e) => return Err(e),
        }
        let az: Analyzer = doc.analyzer(ch);
        let agg: Agg = az.range(start, end, ops);
        let base: usize = if start < doc.info.frames {
            start
        } else {
            doc.info.frames
        };
        let s: RangeStats = RangeStats::from_agg(&agg, base as u64, doc.info.sample_rate, units);
        proof {
            let d = doc@;
            let lo = clamp(start as int, d.info.frames as int);
            let hi = clamp(end as int, d.info.frames as int);
            if lo < hi {
                az.law_run_is_the_range(lo, hi);
            }
            assert(az.run(start as int, end as int) =~= d.selection(ch as int, start as int, end as int));
            if self.summed(*ops) {
                assert(doc.pyramids@[ch as int].summed(*ops));
            }
            assert(aggregate(
                agg,
                d.selection(ch as int, start as int, end as int),
                lo,
                d.bracketing(ch as int, start as int, end as int),
                *ops,
                self.summed(*ops),
            ));
            assert(s.derives(agg, lo as u64, d.info.sample_rate, *units));
        }
        Ok(StatsDto::new(ch, s))
    }

    /// The envelope of `start..end` on channel `ch` in `bins` bins. The range is clamped to the
    /// document.
    pub fn waveform<A: Fn(u64, u64) -> u64, L: Fn(u32) -> (u64, u64)>(
        &self,
        ch: usize,
        start: usize,
        end: usize,
        bins: usize,
        ops: &Arith<A, L>,
    ) -> (r: Result<WaveformDto, AudioError>)
        requires
            self.wf(),
            ops.total(),
        ensures
            bins > MAX_BINS ==> r == Result::<WaveformDto, AudioError>::Err(
                AudioError::TooManyBins { bins, max: MAX_BINS },
            ),
            r matches Err(AudioError::TooManyBins { max, .. }) ==> bins > 8192 && max == 8192,
            bins > 8192 ==> r is Err,
            bins <= MAX_BINS ==> match self@.doc {
                None => r == Result::<WaveformDto, AudioError>::Err(AudioError::NoDocument),
                Some(d) => if ch >= d.info.channels {
                    r == Result::<WaveformDto, AudioError>::Err(
                        AudioError::BadChannel { ch, channels: d.info.channels },
                    )
                } else {
                    &&& r matches Ok(w)
                    &&& w.channel == ch
                    &&& w.start == clamp(start as int, d.info.frames as int)
                    &&& w.end == clamp(end as int, d.info.frames as int)
                    &&& w.bins == bins
                    &&& w.min@.len() == bins
                    &&& w.max@.len() == bins
                    &&& forall|b: int|
                        0 <= b < bins ==> envelope_bin(
                            d.samples[ch as int],
                            w.start as int,
                            w.end as int,
                            bins as int,
                            b,
                            (#[trigger] w.min@[b], w.max@[b]),
                        )
                },
            },
    {
        if bins > MAX_BINS {
            return Err(AudioError::TooManyBins { bins, max: MAX_BINS });
        }
        let doc: &Document = match &self.doc {
            Some(d) => d,
            None => return Err(AudioError::NoDocument),
        };
        match doc.check_channel(ch) {
            Ok(_) => {},
            Err(e) => return Err(e),
        }
        let frames: usize = doc.info.frames;
        let lo: usize = if start < frames {
            start
        } else {
            frames
        };
        let hi: usize = if end < frames {
            end
        } else {
            frames
        };
        let az: Analyzer = doc.analyzer(ch);
        let pairs: Vec<(u32, u32)> = az.waveform(lo, hi, bins, ops);
        let mut min: Vec<u32> = Vec::new();
        let mut max: Vec<u32> = Vec::new();
        let mut b: usize = 0;
        let ghost samples = doc@.samples[ch as int];
        while b < bins
            invariant
                b <= bins,
                pairs@.len() == bins,
                min@.len() == b,
                max@.len() == b,
                az.samples() == samples,
                az.tree()@ == samples,
                samples.len() == frames,
                lo <= frames,
                hi <= frames,
                forall|k: int| 0 <= k < bins ==> az.bin_is(lo as int, hi as int, bins as int, k, #[trigger] pairs@[k]),
                forall|k: int|
                    0 <= k < b ==> envelope_bin(
                        samples,
                        lo as int,
                        hi as int,
                        bins as int,
                        k,
                        (#[trigger] min@[k], max@[k]),
                    ),
            decreases bins - b,
        {
            proof {
                az.law_bins_are_those_of_the_buffer(lo as int, hi as int, bins as int, b as int, pairs@[b as int]);
            }
            min.push(pairs[b].0);
            max.push(pairs[b].1);
            b = b + 1;
        }
        Ok(WaveformDto { channel: ch, start: lo, end: hi, bins, min, max })
    }

    /// Applies `op` to `start..end` of every channel and records it for undo.
    ///
    /// The range is clamped to the document. An empty one is rejected: an edit is a deliberate act
    /// on a chosen range. While somebody else holds a handle on the samples, an edit is rejected as
    /// busy. On every rejection the document is as it was.
    pub fn edit<
        A: Fn(u64, u64) -> u64,
        L: Fn(u32) -> (u64, u64),
        M: Fn(u32, u32) -> u32,
        D: Fn(u32, u32) -> u32,
        R: Fn(usize, usize) -> u32,
        F: Fn(usize, usize) -> u32,
    >(&mut self, op: EditOp, start: usize, end: usize, scale: &Scale<M, D, R, F>, ops: &Arith<A, L>) -> (r: Result<
        EditDto,
        AudioError,
    >)
        requires
            old(self).wf(),
            scale.total(),
            ops.total(),
        ensures
            final(self).wf(),
            r is Err ==> *final(self) == *old(self),
            match old(self)@.doc {
                None => r matches Err(e) && e == AudioError::NoDocument,
                Some(d) => {
                    let lo = clamp(start as int, d.info.frames as int);
                    let hi = clamp(end as int, d.info.frames as int);
                    if lo >= hi {
                        r matches Err(e) && e == AudioError::EmptyRange
                    } else {
                        match r {
                            Err(e) => e == AudioError::Busy,
                            Ok(dto) => {
                                &&& final(self)@.doc matches Some(d2)
                                &&& edit_outcome(op, *scale, d, lo, hi, d2)
                                &&& final(self).summed(*ops)
                                &&& final(self)@.discarded == old(self)@.discarded + dropped(
                                    d.undo,
                                    edit_entry(d, lo, hi),
                                )
                                &&& dto.info == d.info
                                &&& dto.can_undo == (d2.undo.len() > 0)
                                &&& dto.last_undoable == (edit_entry(d, lo, hi).bytes() <= MAX_UNDO_BYTES)
                            },
                        }
                    }
                },
            },
    {
        let doc: &mut Document = match &mut self.doc {
            Some(d) => d,
            None => return Err(AudioError::NoDocument),
        };
        let ghost d = doc@;
        let frames: usize = doc.info.frames;
        let lo: usize = if start < frames {
            start
        } else {
            frames
        };
        let hi: usize = if end < frames {
            end
        } else {
            frames
        };
        if lo >= hi {
            return Err(AudioError::EmptyRange);
        }
        let original: Vec<Vec<u32>> = match edit_with(exclusive(&mut doc.cache), op, lo, hi, scale) {
            Ok(originals) => originals,
            Err(e) => return Err(e),
        };
        doc.pyramids = build_pyramids(&doc.cache, ops);
        let entry: UndoEntry = UndoEntry::Samples { start: lo, channels: original };
        proof {
            assert(entry@ == edit_entry(d, lo as int, hi as int));
            lemma_entry_weight(d, lo as int, hi as int);
        }
        let last_undoable: bool = push(&mut doc.undo, entry, &mut self.discarded);
        proof {
            doc.cache.lemma_shape();
            lemma_edit_keeps_wf(op, *scale, d, lo as int, hi as int, doc@);
        }
        Ok(EditDto { info: doc.info.clone(), can_undo: doc.undo.len() > 0, last_undoable })
    }

    /// Drops everything outside `start..end`: the selection becomes the whole document.
    ///
    /// `store` writes the bytes of the kept range, channel by channel, into a new cache file at
    /// `new_cache_path` and maps it. The previous cache file goes to the undo stack. The range is
    /// clamped to the document, an empty one is rejected, and one that is the whole document
    /// changes nothing and is not recorded; for neither of them anything is stored.
    pub fn trim<
        A: Fn(u64, u64) -> u64,
        L: Fn(u32) -> (u64, u64),
        S: Fn(u64, u32) -> u64,
        W: Fn(&[&[u8]]) -> Result<MmapMut, AudioError>,
    >(
        &mut self,
        start: usize,
        end: usize,
        new_cache_path: String,
        store: &W,
        ops: &Arith<A, L>,
        seconds: &S,
    ) -> (r: Result<EditDto, AudioError>)
        requires
            old(self).wf(),
            ops.total(),
            forall|n: u64, rate: u32| #[trigger] call_requires(*seconds, (n, rate)),
            old(self)@.doc matches Some(d) ==> ({
                let lo = clamp(start as int, d.info.frames as int);
                let hi = clamp(end as int, d.info.frames as int);
                lo < hi && !(lo == 0 && hi == d.info.frames) ==> forall|parts: &[&[u8]]|
                    is_bytes_of(parts, cut(d.samples, lo, hi)) ==> #[trigger] call_requires(*store, (parts,))
            }),
        ensures
            final(self).wf(),
            r is Err ==> *final(self) == *old(self),
            match old(self)@.doc {
                None => r matches Err(e) && e == AudioError::NoDocument,
                Some(d) => {
                    let lo = clamp(start as int, d.info.frames as int);
                    let hi = clamp(end as int, d.info.frames as int);
                    if lo >= hi {
                        r matches Err(e) && e == AudioError::EmptyRange
                    } else if lo == 0 && hi == d.info.frames {
                        &&& r matches Ok(dto)
                        &&& *final(self) == *old(self)
                        &&& dto.info == d.info
                        &&& dto.can_undo == (d.undo.len() > 0)
                        &&& !dto.last_undoable
                    } else {
                        match r {
                            Err(e) => e == AudioError::Busy || trim_fails(*store, cut(d.samples, lo, hi), e),
                            Ok(dto) => {
                                &&& final(self)@.doc matches Some(d2)
                                &&& trimmed(*store, d, lo, hi, new_cache_path@, d2)
                                &&& call_ensures(
                                    *seconds,
                                    (d2.info.frames as u64, d2.info.sample_rate),
                                    d2.info.duration_s,
                                )
                                &&& final(self).summed(*ops)
                                &&& final(self)@.discarded == old(self)@.discarded + files_of(d.undo)
                                &&& dto.info == d2.info
                                &&& dto.can_undo
                                &&& dto.last_undoable
                            },
                        }
                    }
                },
            },
    {
        let doc: &mut Document = match &mut self.doc {
            Some(d) => d,
            None => return Err(AudioError::NoDocument),
        };
        let frames: usize = doc.info.frames;
        let lo: usize = if start < frames {
            start
        } else {
            frames
        };
        let hi: usize = if end < frames {
            end
        } else {
            frames
        };
        if lo >= hi {
            return Err(AudioError::EmptyRange);
        }
        if lo == 0 && hi == frames {
            return Ok(EditDto { info: doc.info.clone(), can_undo: doc.undo.len() > 0, last_undoable: false });
        }
        let ghost d = doc@;
        match replace_with(exclusive(&mut doc.cache)) {
            Ok(_) => {},
            Err(e) => return Err(e),
        }
        proof {
            assert(doc@ == d);
        }
        doc.trim_to(lo, hi, new_cache_path, store, ops, seconds, &mut self.discarded)
    }

    /// Reverses the newest edit.
    ///
    /// `load` maps a cache file. A trim is undone by going back to the previous cache file; the
    /// trimmed one waits to be deleted. While somebody else holds a handle on the samples, undo is
    /// rejected as busy and nothing changes. A trim whose file cannot be restored is lost, and its
    /// file waits to be deleted.
    pub fn undo<
        A: Fn(u64, u64) -> u64,
        L: Fn(u32) -> (u64, u64),
        S: Fn(u64, u32) -> u64,
        G: Fn(&str) -> Result<MmapMut, DecodeError>,
    >(&mut self, load: &G, ops: &Arith<A, L>, seconds: &S) -> (r: Result<EditDto, AudioError>)
        requires
            old(self).wf(),
            ops.total(),
            forall|n: u64, rate: u32| #[trigger] call_requires(*seconds, (n, rate)),
            old(self)@.doc matches Some(d) ==> (d.undo.len() > 0 ==> (d.undo.last() matches Undo::Trim {
                cache_path,
                ..
            } ==> forall|path: &str| path@ == cache_path ==> #[trigger] call_requires(*load, (path,)))),
        ensures
            final(self).wf(),
            match old(self)@.doc {
                None => r matches Err(e) && e == AudioError::NoDocument && *final(self) == *old(self),
                Some(d) => if d.undo.len() == 0 {
                    r matches Err(e) && e == AudioError::NothingToUndo && *final(self) == *old(self)
                } else {
                    &&& final(self)@.doc matches Some(d2)
                    &&& match r {
                        Ok(dto) => {
                            &&& final(self).summed(*ops)
                            &&& dto.info == d2.info
                            &&& dto.can_undo == (d2.undo.len() > 0)
                            &&& dto.last_undoable
                            &&& match d.undo.last() {
                                Undo::Samples { .. } => {
                                    &&& unedit_outcome(d, d2)
                                    &&& final(self)@.discarded == old(self)@.discarded
                                },
                                Undo::Trim { cache_path, info } => {
                                    &&& untrimmed(*load, *seconds, d, cache_path, d2)
                                    &&& final(self)@.discarded == old(self)@.discarded.push(d.cache_path)
                                },
                            }
                        },
                        Err(AudioError::Busy) => *final(self) == *old(self),
                        Err(AudioError::Decode(e)) => {
                            &&& d.undo.last() matches Undo::Trim { cache_path, info }
                            &&& untrim_fails(*load, cache_path, info, e)
                            &&& d2 == (Doc { undo: d.undo.drop_last(), ..d })
                            &&& final(self)@.discarded == old(self)@.discarded.push(cache_path)
                        },
                        Err(_) => false,
                    }
                },
            },
    {
        let doc: &mut Document = match &mut self.doc {
            Some(d) => d,
            None => return Err(AudioError::NoDocument),
        };
        let ghost d = doc@;
        if doc.undo.len() == 0 {
            return Err(AudioError::NothingToUndo);
        }
        let ghost last = d.undo.last();
        let ghost older = d.undo.drop_last();
        proof {
            assert forall|i: int| 0 <= i < older.len() implies #[trigger] older[i] == d.undo[i] by {}
        }
        let ghost before = doc.undo@;
        proof {
            assert(last.fits(d.info.channels as nat, d.info.frames as nat)) by {
                assert(d.undo[d.undo.len() - 1] == last);
            }
            assert(before.last()@ == last);
        }
        let trim: Option<(String, AudioInfo)> = match undo_with(exclusive(&mut doc.cache), &mut doc.undo) {
            Ok(trim) => trim,
            Err(e) => return Err(e),
        };
        proof {
            assert(entries(doc.undo@) =~= older);
        }
        match trim {
            None => {
                doc.pyramids = build_pyramids(&doc.cache, ops);
                proof {
                    doc.cache.lemma_shape();
                    lemma_total_of_rest(d.undo);
                }
            },
            Some((cache_path, info)) => {
                proof {
                    lemma_total_of_rest(d.undo);
                }
                let path: &str = cache_path.as_str();
                let loaded_map: Result<MmapMut, DecodeError> = load(path);
                let ghost outcome = loaded_map;
                proof {
                    assert(load_came_to(*load, path, outcome));
                    assert(loaded(*load, cache_path@, outcome));
                }
                let ghost gone = texts(self.discarded@);
                let ghost lost = cache_path@;
                let opened: Result<PcmCache, DecodeError> = match loaded_map {
                    Ok(map) => {
                        let ghost m = map;
                        proof {
                            assert(loaded(*load, cache_path@, Ok(m)));
                        }
                        PcmCache::open_planar(map, info.channels, info.sample_rate)
                    },
                    Err(e) => Err(e),
                };
                let cache: PcmCache = match opened {
                    Ok(c) => c,
                    Err(e) => {
                        self.discarded.push(cache_path);
                        proof {
                            assert(texts(self.discarded@) =~= gone.push(lost));
                        }
                        proof {
                            assert(untrim_fails(*load, lost, info, e));
                            assert(doc@ == (Doc { undo: older, ..d }));
                        }
                        return Err(AudioError::Decode(e));
                    },
                };
                proof {
                    cache.lemma_shape();
                }
                let mut info: AudioInfo = info;
                let frames: usize = cache.frames();
                if frames != info.frames {
                    info.frames = frames;
                    info.duration_s = seconds(frames as u64, info.sample_rate);
                }
                let ghost c = cache;
                let pyramids: Vec<Pyramid> = build_pyramids(&cache, ops);
                let mut trimmed_path: String = cache_path;
                std::mem::swap(&mut trimmed_path, &mut doc.cache_path);
                doc.cache = Arc::new(cache);
                doc.pyramids = pyramids;
                doc.info = info;
                self.discarded.push(trimmed_path);
                proof {
                    assert(texts(self.discarded@) =~= gone.push(d.cache_path));
                    assert(older =~= Seq::empty());
                    assert(untrim_outcome(*seconds, d, c, doc@));
                    assert(loaded(*load, lost, Ok(c.map())));
                    assert(untrimmed(*load, *seconds, d, lost, doc@));
                }
            },
        }
        Ok(EditDto { info: doc.info.clone(), can_undo: doc.undo.len() > 0, last_undoable: true })
    }
}

/// Hands the bytes of `lo..hi` of each channel to `store`.
fn store_range<W: Fn(&[&[u8]]) -> Result<MmapMut, AudioError>>(cache: &PcmCache, lo: usize, hi: usize, store: &W) -> (r:
    Result<MmapMut, AudioError>)
    requires
        cache.wf(),
        lo <= hi <= cache.n_frames(),
        forall|parts: &[&[u8]]|
            is_bytes_of(parts, cut(cache@, lo as int, hi as int)) ==> #[trigger] call_requires(*store, (parts,)),
    ensures
        stored(*store, cut(cache@, lo as int, hi as int), r),
{
    proof {
        cache.lemma_shape();
    }
    let channels: usize = cache.channels();
    let mut parts: Vec<&[u8]> = Vec::new();
    let mut ch: usize = 0;
    let ghost kept = cut(cache@, lo as int, hi as int);
    while ch < channels
        invariant
            cache.wf(),
            channels == cache@.len(),
            lo <= hi <= cache.n_frames(),
            kept == cut(cache@, lo as int, hi as int),
            forall|c: int| 0 <= c < cache@.len() ==> (#[trigger] cache@[c]).len() == cache.n_frames(),
            ch <= channels,
            parts@.len() == ch,
            forall|c: int| 0 <= c < ch ==> serialized(kept[c], (#[trigger] parts@[c])@),
        decreases channels - ch,
    {
        let part: &[u32] = vstd::slice::slice_subrange(cache.channel(ch), lo, hi);
        proof {
            assert(kept[ch as int] == part@);
        }
        parts.push(sample_bytes(part));
        ch = ch + 1;
    }
    let handed: &[&[u8]] = parts.as_slice();
    proof {
        assert(is_bytes_of(handed, kept));
    }
    let outcome: Result<MmapMut, AudioError> = store(handed);
    proof {
        assert(store_came_to(*store, handed, outcome));
    }
    outcome
}

/// Undoing an edit that was recorded restores the document: its samples, its geometry and its file.
/// Where recording it drove out no older entry, the undo stack is restored too.
pub proof fn law_an_edit_is_undone<
    M: Fn(u32, u32) -> u32,
    D: Fn(u32, u32) -> u32,
    R: Fn(usize, usize) -> u32,
    F: Fn(usize, usize) -> u32,
>(op: EditOp, scale: Scale<M, D, R, F>, d: Doc, lo: int, hi: int, d1: Doc, d2: Doc)
    requires
        d.wf(),
        0 <= lo <= hi <= d.info.frames,
        edit_outcome(op, scale, d, lo, hi, d1),
        edit_entry(d, lo, hi).bytes() <= MAX_UNDO_BYTES,
        unedit_outcome(d1, d2),
    ensures
        d2.samples == d.samples,
        d2.info == d.info,
        d2.cache_path == d.cache_path,
        d2.undo == d1.undo.drop_last(),
        d1.undo.len() == d.undo.len() + 1 ==> d2 == d,
{
    let entry = edit_entry(d, lo, hi);
    law_the_oldest_entries_make_room(d.undo, entry);
    let back = restored(d1.samples, lo, cut(d.samples, lo, hi));
    let (p, gain): (u32, u32) = choose|p: u32, gain: u32| #[trigger]
        edited_with(op, scale, d.samples, lo, hi, d1.samples, p, gain);
    assert forall|ch: int| 0 <= ch < d.samples.len() implies #[trigger] back[ch] == d.samples[ch] by {
        let before = d.samples[ch];
        let after = d1.samples[ch];
        assert(confined(before, lo, hi, after));
        assert(cut(d.samples, lo, hi)[ch] == before.subrange(lo, hi));
        assert(back[ch] == after.take(lo) + before.subrange(lo, hi) + after.skip(hi));
        assert(before.take(lo) + before.subrange(lo, hi) + before.skip(hi) =~= before);
    }
    assert(back =~= d.samples);
    if d1.undo.len() == d.undo.len() + 1 {
        assert(d.undo.push(entry).skip(0) =~= d.undo.push(entry));
        assert(d.undo.push(entry).drop_last() =~= d.undo);
    }
}

/// `docs` are the states of a document that edits take it through: edit `i` applies `ops[i]` to
/// `ranges[i]` of `docs[i]` and makes `docs[i + 1]` of it. None of them drives an entry off the undo
/// stack.
pub open spec fn edit_chain<
    M: Fn(u32, u32) -> u32,
    D: Fn(u32, u32) -> u32,
    R: Fn(usize, usize) -> u32,
    F: Fn(usize, usize) -> u32,
>(scale: Scale<M, D, R, F>, ops: Seq<EditOp>, ranges: Seq<(int, int)>, docs: Seq<Doc>) -> bool {
    &&& docs.len() == ops.len() + 1
    &&& ranges.len() == ops.len()
    &&& forall|i: int|
        0 <= i < ops.len() ==> edit_fits(scale, #[trigger] ops[i], docs[i], ranges[i].0, ranges[i].1, docs[i + 1])
}

/// `d2` is `d` with `op` applied to `lo..hi`, and all of the undo stack stays.
pub open spec fn edit_fits<
    M: Fn(u32, u32) -> u32,
    D: Fn(u32, u32) -> u32,
    R: Fn(usize, usize) -> u32,
    F: Fn(usize, usize) -> u32,
>(scale: Scale<M, D, R, F>, op: EditOp, d: Doc, lo: int, hi: int, d2: Doc) -> bool {
    &&& 0 <= lo <= hi <= d.info.frames
    &&& edit_outcome(op, scale, d, lo, hi, d2)
    &&& total(d.undo) + edit_entry(d, lo, hi).bytes() <= MAX_UNDO_BYTES
}

/// `docs` are the states of a document that undoing edits takes it through.
pub open spec fn undo_chain(docs: Seq<Doc>) -> bool {
    forall|j: int| 0 <= j < docs.len() - 1 ==> unedit_outcome(#[trigger] docs[j], docs[j + 1])
}

/// One edit that fits keeps the document well-formed and is undone.
proof fn lemma_edit_that_fits<
    M: Fn(u32, u32) -> u32,
    D: Fn(u32, u32) -> u32,
    R: Fn(usize, usize) -> u32,
    F: Fn(usize, usize) -> u32,
>(scale: Scale<M, D, R, F>, op: EditOp, d: Doc, lo: int, hi: int, d1: Doc)
    requires
        d.wf(),
        edit_fits(scale, op, d, lo, hi, d1),
    ensures
        d1.wf(),
        d1.undo == d.undo.push(edit_entry(d, lo, hi)),
        forall|d2: Doc| #[trigger] unedit_outcome(d1, d2) ==> d2 == d,
{
    let entry = edit_entry(d, lo, hi);
    let all = d.undo.push(entry);
    assert(all.drop_last() =~= d.undo);
    assert(total(all) <= MAX_UNDO_BYTES);
    let (p, gain): (u32, u32) = choose|p: u32, gain: u32| #[trigger]
        edited_with(op, scale, d.samples, lo, hi, d1.samples, p, gain);
    assert forall|ch: int| 0 <= ch < d1.samples.len() implies (#[trigger] d1.samples[ch]).len() == d.info.frames by {
        assert(confined(d.samples[ch], lo, hi, d1.samples[ch]));
    }
    lemma_edit_keeps_wf(op, scale, d, lo, hi, d1);
    assert forall|d2: Doc| #[trigger] unedit_outcome(d1, d2) implies d2 == d by {
        law_an_edit_is_undone(op, scale, d, lo, hi, d1, d2);
    }
}

/// Any number of edits is taken back in reverse order: `j` undos after the last edit the document is
/// what it was `j` edits before, with its samples, its geometry, its file and its undo stack. Until
/// all of them are taken back there is an edit to undo. `made` stands for the states that the edits
/// take the document through, `back` for those that the undos take it through.
pub proof fn law_edits_unwind_in_reverse<
    M: Fn(u32, u32) -> u32,
    D: Fn(u32, u32) -> u32,
    R: Fn(usize, usize) -> u32,
    F: Fn(usize, usize) -> u32,
>(
    scale: Scale<M, D, R, F>,
    ops: Seq<EditOp>,
    ranges: Seq<(int, int)>,
    made: Seq<Doc>,
    back: Seq<Doc>,
    j: int,
)
    requires
        edit_chain(scale, ops, ranges, made),
        made[0].wf(),
        back.len() <= made.len(),
        back[0] == made.last(),
        undo_chain(back),
        0 <= j < back.len(),
    ensures
        back[j] == made[ops.len() - j],
        made[ops.len() - j].wf(),
        made[ops.len() - j].undo.len() == made[0].undo.len() + ops.len() - j,
        j < ops.len() ==> made[ops.len() - j].undo.last() is Samples,
    decreases j,
{
    lemma_chain_keeps_wf(scale, ops, ranges, made, ops.len() - j);
    if j > 0 {
        law_edits_unwind_in_reverse(scale, ops, ranges, made, back, j - 1);
        let i = ops.len() - j;
        assert(unedit_outcome(back[j - 1], back[j - 1 + 1]));
        assert(back[j - 1] == made[i + 1]);
        lemma_one_undo(scale, ops, ranges, made, i, back[j]);
    }
}

/// Undoing the last of a chain of edits gives the state before it.
proof fn lemma_one_undo<
    M: Fn(u32, u32) -> u32,
    D: Fn(u32, u32) -> u32,
    R: Fn(usize, usize) -> u32,
    F: Fn(usize, usize) -> u32,
>(scale: Scale<M, D, R, F>, ops: Seq<EditOp>, ranges: Seq<(int, int)>, made: Seq<Doc>, i: int, undone: Doc)
    requires
        edit_chain(scale, ops, ranges, made),
        made[0].wf(),
        0 <= i < ops.len(),
        unedit_outcome(made[i + 1], undone),
    ensures
        undone == made[i],
{
    lemma_chain_keeps_wf(scale, ops, ranges, made, i);
    assert(edit_fits(scale, ops[i], made[i], ranges[i].0, ranges[i].1, made[i + 1]));
    lemma_edit_that_fits(scale, ops[i], made[i], ranges[i].0, ranges[i].1, made[i + 1]);
}

/// Every state of a chain of edits is well-formed, and each edit adds an entry to the undo stack.
proof fn lemma_chain_keeps_wf<
    M: Fn(u32, u32) -> u32,
    D: Fn(u32, u32) -> u32,
    R: Fn(usize, usize) -> u32,
    F: Fn(usize, usize) -> u32,
>(scale: Scale<M, D, R, F>, ops: Seq<EditOp>, ranges: Seq<(int, int)>, docs: Seq<Doc>, i: int)
    requires
        edit_chain(scale, ops, ranges, docs),
        docs[0].wf(),
        0 <= i <= ops.len(),
    ensures
        docs[i].wf(),
        docs[i].undo.len() == docs[0].undo.len() + i,
        i > 0 ==> docs[i].undo.last() is Samples,
    decreases i,
{
    if i > 0 {
        let k = i - 1;
        lemma_chain_keeps_wf(scale, ops, ranges, docs, k);
        assert(edit_fits(scale, ops[k], docs[k], ranges[k].0, ranges[k].1, docs[k + 1]));
        lemma_edit_that_fits(scale, ops[k], docs[k], ranges[k].0, ranges[k].1, docs[k + 1]);
    }
}

/// An edit touches its range alone: every sample outside of it stays.
pub proof fn law_an_edit_is_confined<
    M: Fn(u32, u32) -> u32,
    D: Fn(u32, u32) -> u32,
    R: Fn(usize, usize) -> u32,
    F: Fn(usize, usize) -> u32,
>(op: EditOp, scale: Scale<M, D, R, F>, d: Doc, lo: int, hi: int, d1: Doc, ch: int, i: int)
    requires
        d.wf(),
        0 <= lo <= hi <= d.info.frames,
        edit_outcome(op, scale, d, lo, hi, d1),
        0 <= ch < d.samples.len(),
        0 <= i < lo || hi <= i < d.info.frames,
    ensures
        d1.samples[ch][i] == d.samples[ch][i],
{
    let (p, gain): (u32, u32) = choose|p: u32, gain: u32| #[trigger]
        edited_with(op, scale, d.samples, lo, hi, d1.samples, p, gain);
    let before = d.samples[ch];
    let after = d1.samples[ch];
    assert(confined(before, lo, hi, after));
    if i < lo {
        assert(after.take(lo)[i] == before.take(lo)[i]);
    } else {
        assert(after.skip(hi)[i - hi] == before.skip(hi)[i - hi]);
    }
}

/// A trim keeps the selection and nothing else, where the file that was written holds the channels
/// that were handed over, one after the other.
pub proof fn law_a_trim_keeps_the_selection(d: Doc, lo: int, hi: int, c: PcmCache, path: Seq<char>, d1: Doc)
    requires
        d.wf(),
        d1.wf(),
        0 <= lo < hi <= d.info.frames,
        trim_outcome(d, c, path, d1),
        c.wf(),
        map_words(c.map()) == joined(cut(d.samples, lo, hi)),
    ensures
        d1.samples == cut(d.samples, lo, hi),
        d1.info.frames == hi - lo,
{
    let kept = cut(d.samples, lo, hi);
    assert forall|ch: int| 0 <= ch < kept.len() implies (#[trigger] kept[ch]).len() == (hi - lo) as nat by {
        assert(d.samples[ch].len() == d.info.frames);
    }
    (&c).law_joined_spills_are_the_channels(kept, (hi - lo) as nat);
}

/// Undoing a trim restores the document, where its previous cache file still holds its channels.
pub proof fn law_a_trim_is_undone<S: Fn(u64, u32) -> u64>(
    seconds: S,
    d: Doc,
    c: PcmCache,
    path: Seq<char>,
    d1: Doc,
    c2: PcmCache,
    d2: Doc,
)
    requires
        d.wf(),
        d2.wf(),
        trim_outcome(d, c, path, d1),
        untrim_outcome(seconds, d1, c2, d2),
        c2.wf(),
        map_words(c2.map()) == joined(d.samples),
    ensures
        d2.samples == d.samples,
        d2.info == d.info,
        d2.cache_path == d.cache_path,
        d2.undo == Seq::<Undo>::empty(),
{
    assert(d1.undo.drop_last() =~= Seq::empty());
    (&c2).law_joined_spills_are_the_channels(d.samples, d.info.frames as nat);
}

/// The cache files that a state answers for: those of its document and those that wait to be
/// deleted.
pub open spec fn ledger(doc: Option<Doc>, discarded: Seq<Seq<char>>) -> Multiset<Seq<char>> {
    discarded.to_multiset().add(
        match doc {
            Some(d) => d.files().to_multiset(),
            None => Multiset::empty(),
        },
    )
}

/// An edit loses no cache file and invents none.
pub proof fn law_an_edit_keeps_the_ledger<
    M: Fn(u32, u32) -> u32,
    D: Fn(u32, u32) -> u32,
    R: Fn(usize, usize) -> u32,
    F: Fn(usize, usize) -> u32,
>(op: EditOp, scale: Scale<M, D, R, F>, d: Doc, lo: int, hi: int, d1: Doc, discarded: Seq<Seq<char>>)
    requires
        edit_outcome(op, scale, d, lo, hi, d1),
    ensures
        ledger(Some(d1), discarded + dropped(d.undo, edit_entry(d, lo, hi))) == ledger(Some(d), discarded),
{
    let entry = edit_entry(d, lo, hi);
    law_a_push_loses_no_file(d.undo, entry);
    let gone = dropped(d.undo, entry);
    let head = seq![d.cache_path];
    assert(files_of(d.undo) + entry.files() =~= files_of(d.undo));
    lemma_multiset_commutative(discarded, gone);
    lemma_multiset_commutative(head, files_of(d1.undo));
    lemma_multiset_commutative(head, files_of(d.undo));
    lemma_multiset_commutative(gone, files_of(d1.undo));
    assert(ledger(Some(d1), discarded + gone) =~= ledger(Some(d), discarded));
}

/// A trim adds its new cache file to the ledger and loses none.
pub proof fn law_a_trim_keeps_the_ledger(d: Doc, c: PcmCache, path: Seq<char>, d1: Doc, discarded: Seq<Seq<char>>)
    requires
        trim_outcome(d, c, path, d1),
    ensures
        ledger(Some(d1), discarded + files_of(d.undo)) == ledger(Some(d), discarded).insert(path),
{
    let trim = Undo::Trim { cache_path: d.cache_path, info: d.info };
    assert(d1.undo.drop_last() =~= Seq::empty());
    assert(d1.undo.last() == trim);
    assert(files_of(d1.undo.drop_last()) =~= Seq::empty());
    assert(files_of(d1.undo) =~= seq![d.cache_path]);
    lemma_multiset_commutative(discarded, files_of(d.undo));
    lemma_multiset_commutative(seq![path], seq![d.cache_path]);
    lemma_multiset_commutative(seq![d.cache_path], files_of(d.undo));
    lemma_single(path);
    assert(ledger(Some(d1), discarded + files_of(d.undo)) =~= ledger(Some(d), discarded).insert(path));
}

/// Undoing a trim loses no cache file: the trimmed one waits to be deleted.
pub proof fn law_undoing_a_trim_keeps_the_ledger<S: Fn(u64, u32) -> u64>(
    seconds: S,
    d: Doc,
    c: PcmCache,
    d1: Doc,
    discarded: Seq<Seq<char>>,
)
    requires
        d.wf(),
        untrim_outcome(seconds, d, c, d1),
    ensures
        ledger(Some(d1), discarded.push(d.cache_path)) == ledger(Some(d), discarded),
{
    assert(d.undo[d.undo.len() - 1] is Trim);
    assert(d.undo.drop_last() =~= Seq::empty());
    let old_path = d1.cache_path;
    assert(files_of(d.undo.drop_last()) =~= Seq::empty());
    assert(files_of(d.undo) =~= seq![old_path]);
    assert(d.files() =~= seq![d.cache_path] + seq![old_path]);
    assert(d1.files() =~= seq![old_path]);
    assert(discarded.push(d.cache_path) =~= discarded + seq![d.cache_path]);
    lemma_multiset_commutative(discarded, seq![d.cache_path]);
    lemma_multiset_commutative(seq![d.cache_path], seq![old_path]);
    assert(ledger(Some(d1), discarded.push(d.cache_path)) =~= ledger(Some(d), discarded));
}

/// A trim that cannot be undone loses no cache file: its own waits to be deleted.
pub proof fn law_a_failed_undo_keeps_the_ledger(
    d: Doc,
    cache_path: Seq<char>,
    info: AudioInfo,
    d1: Doc,
    discarded: Seq<Seq<char>>,
)
    requires
        d.undo.len() > 0,
        d.undo.last() == (Undo::Trim { cache_path, info }),
        d1 == (Doc { undo: d.undo.drop_last(), ..d }),
    ensures
        ledger(Some(d1), discarded.push(cache_path)) == ledger(Some(d), discarded),
{
    assert(files_of(d.undo) =~= files_of(d1.undo) + seq![cache_path]);
    assert(d.files() =~= d1.files() + seq![cache_path]);
    assert(discarded.push(cache_path) =~= discarded + seq![cache_path]);
    lemma_multiset_commutative(discarded, seq![cache_path]);
    lemma_multiset_commutative(d1.files(), seq![cache_path]);
    assert(ledger(Some(d1), discarded.push(cache_path)) =~= ledger(Some(d), discarded));
}

/// Closing a document loses no cache file: all of them wait to be deleted.
pub proof fn law_closing_keeps_the_ledger(d: Doc, discarded: Seq<Seq<char>>)
    ensures
        ledger(None, discarded + d.files()) == ledger(Some(d), discarded),
{
    lemma_multiset_commutative(discarded, d.files());
    assert(ledger(None, discarded + d.files()) =~= ledger(Some(d), discarded));
}

proof fn lemma_single(path: Seq<char>)
    ensures
        seq![path].to_multiset() == Multiset::singleton(path),
{
    broadcast use vstd::seq_lib::group_to_multiset_ensures;

    assert(seq![path] =~= Seq::empty().push(path));
    assert(seq![path].to_multiset() =~= Multiset::singleton(path));
}

/// A selection is what the range has of the channel, wherever its ends lie: nothing where it is empty or
/// reversed.
pub proof fn law_a_selection_is_what_the_range_has_of_the_channel(d: Doc, ch: int, start: int, end: int)
    requires
        d.wf(),
        0 <= ch < d.samples.len(),
        0 <= start,
        0 <= end,
    ensures
        start < end <= d.samples[ch].len() ==> d.selection(ch, start, end) == d.samples[ch].subrange(start, end),
        start < d.samples[ch].len() < end ==> d.selection(ch, start, end) == d.samples[ch].skip(start),
        start >= end || start >= d.samples[ch].len() ==> d.selection(ch, start, end) == Seq::<u32>::empty(),
{
    assert(d.samples[ch].len() == d.info.frames);
    assert(start < d.samples[ch].len() < end ==> d.selection(ch, start, end) =~= d.samples[ch].skip(start));
}

/// The panel shows the samples of the selection. `dto` is what [`AudioState::stats`] makes of an aggregate
/// and of the statistics derived from it. It shows the channel, the number of samples and the time that they
/// last and start at. No number of the selection lies outside the extremes or further from zero than the
/// peak.
pub proof fn law_the_panel_shows_the_selection<
    A: Fn(u64, u64) -> u64,
    L: Fn(u32) -> (u64, u64),
    S: Fn(u64, u32) -> u64,
    M: Fn(u64, u64) -> u64,
    R: Fn(u64) -> u64,
    F: Fn(u64, u64) -> u64,
>(
    d: Doc,
    ch: usize,
    start: int,
    end: int,
    ops: Arith<A, L>,
    units: Units<S, M, R, F>,
    exact: bool,
    agg: Agg,
    stats: RangeStats,
    dto: StatsDto,
)
    requires
        d.wf(),
        ch < d.samples.len(),
        0 <= start < end <= d.samples[ch as int].len(),
        aggregate(
            agg,
            d.selection(ch as int, start, end),
            start,
            d.bracketing(ch as int, start, end),
            ops,
            exact,
        ),
        stats.derives(agg, start as u64, d.info.sample_rate, units),
        dto == StatsDto::of(ch, stats),
    ensures
        dto.channel == ch,
        dto.n == end - start,
        call_ensures(units.seconds, ((end - start) as u64, d.info.sample_rate), dto.duration_s),
        call_ensures(units.seconds, (start as u64, d.info.sample_rate), dto.start_s),
        forall|i: int|
            start <= i < end && !is_nan(#[trigger] d.samples[ch as int][i]) ==> value(dto.min) <= value(
                d.samples[ch as int][i],
            ) <= value(dto.max),
        forall|i: int|
            start <= i < end && !is_nan(#[trigger] d.samples[ch as int][i]) ==> -value(dto.peak) <= value(
                d.samples[ch as int][i],
            ) <= value(dto.peak),
        value(dto.peak) == value(dto.min) || value(dto.peak) == -value(dto.min) || value(dto.peak) == value(dto.max)
            || value(dto.peak) == -value(dto.max),
        exists|m: u64| #[trigger]
            call_ensures(units.mean, (agg.sum_sq, (end - start) as u64), m) && call_ensures(
                units.root,
                (m,),
                dto.rms,
            ),
        call_ensures(units.mean, (agg.sum, (end - start) as u64), dto.dc),
        dto.zero_crossings == agg.zero_crossings,
        0 < dto.duration_s <= 0x7ff0_0000_0000_0000 ==> call_ensures(
            units.frequency,
            (dto.zero_crossings, dto.duration_s),
            dto.freq_hz,
        ),
        !(0 < dto.duration_s <= 0x7ff0_0000_0000_0000) ==> dto.freq_hz == 0,
{
    let channel = d.samples[ch as int];
    let rate = d.info.sample_rate;
    let s = d.selection(ch as int, start, end);
    law_a_selection_is_what_the_range_has_of_the_channel(d, ch as int, start, end);
    law_extremes_are_the_numeric_ones(agg, s, start);
    law_statistics_are_those_of_the_samples(stats, agg, s, start, start as u64, rate, units);
    assert forall|i: int| start <= i < end && !is_nan(#[trigger] channel[i]) implies value(dto.min) <= value(channel[i])
        <= value(dto.max) && -value(dto.peak) <= value(channel[i]) <= value(dto.peak) by {
        assert(s[i - start] == channel[i]);
    }
}

/// The panel shows the minimum of the selection at its time, which counts from the start of the file: where
/// sample `i` of the channel is the first of the smallest numbers of the selection, the minimum is that sample
/// and its time is that of `i`.
pub proof fn law_the_panel_shows_the_minimum_at_its_time<
    A: Fn(u64, u64) -> u64,
    L: Fn(u32) -> (u64, u64),
    S: Fn(u64, u32) -> u64,
    M: Fn(u64, u64) -> u64,
    R: Fn(u64) -> u64,
    F: Fn(u64, u64) -> u64,
>(
    d: Doc,
    ch: usize,
    start: int,
    end: int,
    ops: Arith<A, L>,
    units: Units<S, M, R, F>,
    exact: bool,
    agg: Agg,
    stats: RangeStats,
    dto: StatsDto,
    i: int,
)
    requires
        d.wf(),
        ch < d.samples.len(),
        0 <= start < end <= d.samples[ch as int].len(),
        aggregate(
            agg,
            d.selection(ch as int, start, end),
            start,
            d.bracketing(ch as int, start, end),
            ops,
            exact,
        ),
        stats.derives(agg, start as u64, d.info.sample_rate, units),
        dto == StatsDto::of(ch, stats),
        start <= i < end,
        !is_nan(d.samples[ch as int][i]),
        value(d.samples[ch as int][i]) < value(0x7f80_0000),
        forall|j: int|
            start <= j < end && !is_nan(#[trigger] d.samples[ch as int][j]) ==> value(d.samples[ch as int][i]) <= value(d.samples[ch as int][j]),
        forall|j: int|
            start <= j < i && !is_nan(#[trigger] d.samples[ch as int][j]) ==> value(d.samples[ch as int][i]) < value(d.samples[ch as int][j]),
    ensures
        dto.min == d.samples[ch as int][i],
        call_ensures(units.seconds, (i as u64, d.info.sample_rate), dto.min_pos_s),
{
    let channel = d.samples[ch as int];
    let s = d.selection(ch as int, start, end);
    law_a_selection_is_what_the_range_has_of_the_channel(d, ch as int, start, end);
    assert forall|j: int| 0 <= j < s.len() && !is_nan(#[trigger] s[j]) implies value(channel[i]) <= value(s[j]) by {
        assert(s[j] == channel[start + j]);
    }
    assert forall|j: int| 0 <= j < i - start && !is_nan(#[trigger] s[j]) implies value(channel[i]) < value(s[j]) by {
        assert(s[j] == channel[start + j]);
    }
    assert(s[i - start] == channel[i]);
    law_the_minimum_is_shown_at_its_time(
        stats,
        agg,
        s,
        start,
        start as u64,
        d.info.sample_rate,
        units,
        i - start,
    );
}

/// The panel shows the maximum of the selection at its time, which counts from the start of the file: where
/// sample `i` of the channel is the first of the largest numbers of the selection, the maximum is that sample
/// and its time is that of `i`.
pub proof fn law_the_panel_shows_the_maximum_at_its_time<
    A: Fn(u64, u64) -> u64,
    L: Fn(u32) -> (u64, u64),
    S: Fn(u64, u32) -> u64,
    M: Fn(u64, u64) -> u64,
    R: Fn(u64) -> u64,
    F: Fn(u64, u64) -> u64,
>(
    d: Doc,
    ch: usize,
    start: int,
    end: int,
    ops: Arith<A, L>,
    units: Units<S, M, R, F>,
    exact: bool,
    agg: Agg,
    stats: RangeStats,
    dto: StatsDto,
    i: int,
)
    requires
        d.wf(),
        ch < d.samples.len(),
        0 <= start < end <= d.samples[ch as int].len(),
        aggregate(
            agg,
            d.selection(ch as int, start, end),
            start,
            d.bracketing(ch as int, start, end),
            ops,
            exact,
        ),
        stats.derives(agg, start as u64, d.info.sample_rate, units),
        dto == StatsDto::of(ch, stats),
        start <= i < end,
        !is_nan(d.samples[ch as int][i]),
        value(d.samples[ch as int][i]) > value(0xff80_0000),
        forall|j: int|
            start <= j < end && !is_nan(#[trigger] d.samples[ch as int][j]) ==> value(d.samples[ch as int][j]) <= value(d.samples[ch as int][i]),
        forall|j: int|
            start <= j < i && !is_nan(#[trigger] d.samples[ch as int][j]) ==> value(d.samples[ch as int][j]) < value(d.samples[ch as int][i]),
    ensures
        dto.max == d.samples[ch as int][i],
        call_ensures(units.seconds, (i as u64, d.info.sample_rate), dto.max_pos_s),
{
    let channel = d.samples[ch as int];
    let s = d.selection(ch as int, start, end);
    law_a_selection_is_what_the_range_has_of_the_channel(d, ch as int, start, end);
    assert forall|j: int| 0 <= j < s.len() && !is_nan(#[trigger] s[j]) implies value(s[j]) <= value(channel[i]) by {
        assert(s[j] == channel[start + j]);
    }
    assert forall|j: int| 0 <= j < i - start && !is_nan(#[trigger] s[j]) implies value(s[j]) < value(channel[i]) by {
        assert(s[j] == channel[start + j]);
    }
    assert(s[i - start] == channel[i]);
    law_the_maximum_is_shown_at_its_time(
        stats,
        agg,
        s,
        start,
        start as u64,
        d.info.sample_rate,
        units,
        i - start,
    );
}

/// Where the arithmetic is exact, the sums behind the panel are sums over the selection, as
/// [`law_exact_sums_are_those_of_the_samples`] has it.
pub proof fn law_the_panel_sums_the_selection<A: Fn(u64, u64) -> u64, L: Fn(u32) -> (u64, u64)>(
    d: Doc,
    ch: int,
    start: int,
    end: int,
    ops: Arith<A, L>,
    agg: Agg,
    number: spec_fn(u64) -> int,
    limit: int,
    of: spec_fn(u32) -> int,
    size: spec_fn(u32) -> int,
    square: spec_fn(u32) -> int,
)
    requires
        d.wf(),
        0 <= ch < d.samples.len(),
        0 <= start < end <= d.samples[ch].len(),
        aggregate(agg, d.selection(ch, start, end), start, d.bracketing(ch, start, end), ops, true),
        number(0) == 0,
        forall|x: u64, y: u64, z: u64| #[trigger]
            call_ensures(ops.add, (x, y), z) && -limit <= number(x) + number(y) <= limit ==> number(z) == number(x)
                + number(y),
        forall|v: u32, p: (u64, u64)| #[trigger]
            call_ensures(ops.lift, (v,), p) ==> number(p.0) == of(v) && number(p.1) == square(v),
        forall|v: u32| -size(v) <= #[trigger] of(v) <= size(v),
        forall|v: u32| #[trigger] square(v) >= 0,
        d.samples[ch].subrange(start, end).fold_left(0int, |sum: int, v: u32| sum + size(v)) <= limit,
        d.samples[ch].subrange(start, end).fold_left(0int, |sum: int, v: u32| sum + square(v)) <= limit,
    ensures
        number(agg.sum) == d.samples[ch].subrange(start, end).fold_left(0int, |sum: int, v: u32| sum + of(v)),
        number(agg.sum_sq) == d.samples[ch].subrange(start, end).fold_left(0int, |sum: int, v: u32| sum + square(v)),
{
    let channel = d.samples[ch];
    let s = channel.subrange(start, end);
    law_a_range_adds_its_samples(channel, channel, start, end);
    assert(spliced(channel, channel, start, end) =~= s);
    law_a_bracketed_sum_is_one_of_its_samples(ops, agg, d.bracketing(ch, start, end));
    assert(agg.totals(ops, s));
    law_exact_sums_are_those_of_the_samples(ops, agg, s, number, limit, of, size, square);
}

/// An edit does to every channel of the document what its name says and to nothing else: the file, its
/// format and its cache stay, and what the samples become is what [`edited`] says of them. What can be
/// taken back is on top of the undo stack: the samples that were there, from where they were.
pub proof fn law_an_edit_can_be_taken_back<
    M: Fn(u32, u32) -> u32,
    D: Fn(u32, u32) -> u32,
    R: Fn(usize, usize) -> u32,
    F: Fn(usize, usize) -> u32,
>(op: EditOp, scale: Scale<M, D, R, F>, d: Doc, lo: int, hi: int, d1: Doc)
    requires
        d.wf(),
        0 <= lo <= hi <= d.info.frames,
        edit_outcome(op, scale, d, lo, hi, d1),
        4 * d.samples.len() * (hi - lo) <= 268435456,
    ensures
        d1.info == d.info,
        d1.cache_path == d.cache_path,
        edited(op, scale, d.samples, lo, hi, d1.samples),
        d1.undo.len() > 0,
        d1.undo.last() matches Undo::Samples { start, channels } && {
            &&& start == lo
            &&& channels.len() == d.samples.len()
            &&& forall|ch: int| 0 <= ch < channels.len() ==> #[trigger] channels[ch] == d.samples[ch].subrange(lo, hi)
        },
{
    let entry = edit_entry(d, lo, hi);
    let kept = cut(d.samples, lo, hi);
    assert forall|ch: int| 0 <= ch < kept.len() implies (#[trigger] kept[ch]).len() == (hi - lo) as nat by {
        assert(d.samples[ch].len() == d.info.frames);
    }
    lemma_weight(kept, (hi - lo) as nat);
    let n = d.samples.len() as int;
    let width = hi - lo;
    assert(4 * n * width == n * width * 4) by (nonlinear_arith);
    law_the_oldest_entries_make_room(d.undo, entry);
}

/// A trim stores the selection and opens what was stored. The bytes that `store` is handed are, channel by
/// channel, those of the samples from `lo` to before `hi`, in the byte order of the machine. The file, its
/// channels and its rate stay, and the one thing that can be taken back is the trim itself. The law gives
/// back the cache and the bytes.
pub proof fn law_a_trim_stores_the_selection<W: Fn(&[&[u8]]) -> Result<MmapMut, AudioError>>(
    store: W,
    d: Doc,
    lo: int,
    hi: int,
    path: Seq<char>,
    d1: Doc,
) -> (r: (PcmCache, &'static [&'static [u8]]))
    requires
        d.wf(),
        0 <= lo < hi <= d.info.frames,
        trimmed(store, d, lo, hi, path, d1),
    ensures
        call_ensures(store, (r.1,), Ok(r.0.map())),
        r.1@.len() == d.samples.len(),
        forall|ch: int| 0 <= ch < d.samples.len() ==> (#[trigger] r.1@[ch])@.len() == 4 * (hi - lo),
        forall|ch: int|
            #![trigger r.1@[ch]]
            0 <= ch < d.samples.len() ==> (forall|i: int|
                0 <= i < hi - lo ==> #[trigger] d.samples[ch].subrange(lo, hi)[i] == r.1@[ch]@[4 * i] + 256
                    * r.1@[ch]@[4 * i + 1] + 65536 * r.1@[ch]@[4 * i + 2] + 16777216 * r.1@[ch]@[4 * i + 3]) || (forall|i: int|
                0 <= i < hi - lo ==> #[trigger] d.samples[ch].subrange(lo, hi)[i] == r.1@[ch]@[4 * i + 3] + 256
                    * r.1@[ch]@[4 * i + 2] + 65536 * r.1@[ch]@[4 * i + 1] + 16777216 * r.1@[ch]@[4 * i]),
        d1.samples == r.0@,
        d1.info.path == d.info.path,
        d1.info.channels == d.info.channels,
        d1.info.sample_rate == d.info.sample_rate,
        d1.info.frames == r.0.n_frames(),
        d1.cache_path == path,
        d1.undo.len() == 1,
        d1.undo[0] == (Undo::Trim { cache_path: d.cache_path, info: d.info }),
{
    let kept = cut(d.samples, lo, hi);
    let c = choose|c: PcmCache|
        {
            &&& #[trigger] trim_outcome(d, c, path, d1)
            &&& c.wf()
            &&& stored(store, kept, Ok(c.map()))
        };
    let parts = choose|parts: &[&[u8]]| is_bytes_of(parts, kept) && #[trigger] store_came_to(store, parts, Ok(c.map()));
    assert forall|ch: int| 0 <= ch < d.samples.len() implies (#[trigger] parts@[ch])@.len() == 4 * (hi - lo) by {
        assert(d.samples[ch].len() == d.info.frames);
        law_bytes_hold_the_words(kept[ch], parts@[ch]@);
    }
    assert forall|ch: int|
        #![trigger parts@[ch]]
        0 <= ch < d.samples.len() implies (forall|i: int|
        0 <= i < hi - lo ==> #[trigger] d.samples[ch].subrange(lo, hi)[i] == parts@[ch]@[4 * i] + 256 * parts@[ch]@[4
            * i + 1] + 65536 * parts@[ch]@[4 * i + 2] + 16777216 * parts@[ch]@[4 * i + 3]) || (forall|i: int|
        0 <= i < hi - lo ==> #[trigger] d.samples[ch].subrange(lo, hi)[i] == parts@[ch]@[4 * i + 3] + 256
            * parts@[ch]@[4 * i + 2] + 65536 * parts@[ch]@[4 * i + 1] + 16777216 * parts@[ch]@[4 * i]) by {
        assert(d.samples[ch].len() == d.info.frames);
        assert(kept[ch] == d.samples[ch].subrange(lo, hi));
        law_bytes_hold_the_words(kept[ch], parts@[ch]@);
    }
    (c, parts)
}

/// The panel of an empty selection shows its channel and zeros.
pub proof fn law_an_empty_panel_is_all_zeros<
    S: Fn(u64, u32) -> u64,
    M: Fn(u64, u64) -> u64,
    R: Fn(u64) -> u64,
    F: Fn(u64, u64) -> u64,
>(
    d: Doc,
    ch: usize,
    start: int,
    end: int,
    base: int,
    units: Units<S, M, R, F>,
    agg: Agg,
    stats: RangeStats,
    dto: StatsDto,
)
    requires
        d.wf(),
        ch < d.samples.len(),
        0 <= start,
        0 <= end,
        start >= end || start >= d.samples[ch as int].len(),
        agg.describes(d.selection(ch as int, start, end), base),
        stats.derives(agg, base as u64, d.info.sample_rate, units),
        dto == StatsDto::of(ch, stats),
    ensures
        dto.channel == ch,
        dto.n == 0,
        dto.duration_s == 0,
        dto.start_s == 0,
        dto.peak == 0,
        dto.min == 0,
        dto.min_pos_s == 0,
        dto.max == 0,
        dto.max_pos_s == 0,
        dto.rms == 0,
        dto.dc == 0,
        dto.zero_crossings == 0,
        dto.freq_hz == 0,
{
    law_a_selection_is_what_the_range_has_of_the_channel(d, ch as int, start, end);
}

/// Undoing a trim opens the cache file that the document had before it: the samples are those of the map
/// that `load` made of it, the file is owned again, and the trim is off the undo stack. Where the file
/// still has as many frames as it had, everything that was known of it is back. The law gives back the
/// cache and the path that `load` was handed.
pub proof fn law_undoing_a_trim_opens_the_previous_cache<
    S: Fn(u64, u32) -> u64,
    G: Fn(&str) -> Result<MmapMut, DecodeError>,
>(load: G, seconds: S, d: Doc, path: Seq<char>, d1: Doc) -> (r: (PcmCache, &'static str))
    requires
        untrimmed(load, seconds, d, path, d1),
    ensures
        r.1@ == path,
        call_ensures(load, (r.1,), Ok(r.0.map())),
        d1.samples == r.0@,
        d.undo.len() > 0,
        d1.undo == d.undo.take(d.undo.len() - 1),
        d.undo[d.undo.len() - 1] matches Undo::Trim { cache_path, info } && {
            &&& d1.cache_path == cache_path
            &&& d1.info.path == info.path
            &&& d1.info.channels == info.channels
            &&& d1.info.sample_rate == info.sample_rate
            &&& d1.info.frames == r.0.n_frames() as usize
            &&& r.0.n_frames() == info.frames ==> d1.info == info
            &&& r.0.n_frames() != info.frames ==> call_ensures(
                seconds,
                (d1.info.frames as u64, info.sample_rate),
                d1.info.duration_s,
            )
        },
{
    let c = choose|c: PcmCache|
        {
            &&& #[trigger] untrim_outcome(seconds, d, c, d1)
            &&& c.wf()
            &&& loaded(load, path, Ok(c.map()))
        };
    let p = choose|p: &str| p@ == path && #[trigger] load_came_to(load, p, Ok(c.map()));
    (c, p)
}

/// A trim fails where the selection could not be stored, with the reason that `store` gave, or where what
/// it stored cannot be opened.
pub proof fn law_a_trim_fails_where_storing_does<W: Fn(&[&[u8]]) -> Result<MmapMut, AudioError>>(
    store: W,
    samples: Seq<Seq<u32>>,
    e: AudioError,
) -> (parts: &'static [&'static [u8]])
    requires
        trim_fails(store, samples, e),
    ensures
        parts@.len() == samples.len(),
        forall|ch: int| 0 <= ch < samples.len() ==> serialized(samples[ch], (#[trigger] parts@[ch])@),
        call_ensures(store, (parts,), Err(e)) || (e is Decode && exists|m: MmapMut| #[trigger]
            call_ensures(store, (parts,), Ok(m)) && !opens(m, samples.len())),
{
    if stored(store, samples, Err(e)) {
        choose|parts: &[&[u8]]| is_bytes_of(parts, samples) && #[trigger] store_came_to(store, parts, Err(e))
    } else {
        let m = choose|m: MmapMut|
            {
                &&& #[trigger] stored(store, samples, Ok(m))
                &&& e matches AudioError::Decode(x)
                &&& refuses(m, samples.len(), x)
            };
        let parts = choose|parts: &[&[u8]]|
            is_bytes_of(parts, samples) && #[trigger] store_came_to(store, parts, Ok(m));
        assert(call_ensures(store, (parts,), Ok(m)));
        parts
    }
}

} // verus!
