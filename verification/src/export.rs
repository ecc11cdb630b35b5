//! WAV export: which samples a file holds, in which order and format.
//!
//! A PCM cache is planar and a WAV file is interleaved, so export walks the channels frame by
//! frame. Exporting a selection is slicing each channel in the caller.

use vstd::prelude::*;
use vstd::arithmetic::div_mod::{lemma_fundamental_div_mod, lemma_fundamental_div_mod_converse};
use vstd::arithmetic::power2::{lemma2_to64, lemma_pow2_adds, pow2};
use crate::decode::{lane, lemma_frame_bounds};
use crate::sample::{is_nan, law_order_is_numeric, less, lt, value, ONE};
use crate::text::{decimal, digits};

verus! {

/// The sample format of a WAV file.
#[derive(Debug, Clone, Copy, PartialEq, Eq, Structural)]
pub enum WavFormat {
    /// 16-bit signed PCM: samples beyond full scale are clipped.
    Pcm16,
    /// 32-bit float: the samples as they are.
    Float32,
}

/// How a WAV file encodes a sample.
#[derive(Debug, Clone, Copy, PartialEq, Eq, Structural)]
pub enum SampleKind {
    /// Signed integers.
    Int,
    /// Floating-point numbers.
    Float,
}

impl WavFormat {
    /// The bit depth and the encoding of this format.
    pub fn spec_fields(self) -> (r: (u16, SampleKind))
        ensures
            r == self.fields(),
    {
        match self {
            WavFormat::Pcm16 => (16, SampleKind::Int),
            WavFormat::Float32 => (32, SampleKind::Float),
        }
    }

    /// The bit depth and the encoding of this format.
    pub open spec fn fields(self) -> (u16, SampleKind) {
        match self {
            WavFormat::Pcm16 => (16, SampleKind::Int),
            WavFormat::Float32 => (32, SampleKind::Float),
        }
    }
}

/// What can go wrong writing a WAV file.
#[derive(Debug)]
pub enum ExportError {
    /// Encoding or writing the file failed.
    Encode(String),
    /// There are no channels.
    NoChannels,
    /// A channel is not as long as the first one.
    RaggedChannels { channel: usize, len: usize, expected: usize },
}

impl ExportError {
    /// What the error says.
    pub open spec fn text(self) -> Seq<char> {
        match self {
            ExportError::Encode(e) => "could not write WAV: "@ + e@,
            ExportError::NoChannels => "no channels to export"@,
            ExportError::RaggedChannels { channel, len, expected } => "channel "@ + digits(channel as nat) + " has "@
                + digits(len as nat) + " samples, expected "@ + digits(expected as nat),
        }
    }

    /// The error in words.
    pub fn message(&self) -> (r: String)
        ensures
            r@ == self.text(),
    {
        match self {
            ExportError::Encode(e) => "could not write WAV: ".to_owned().concat(e.as_str()),
            ExportError::NoChannels => "no channels to export".to_owned(),
            ExportError::RaggedChannels { channel, len, expected } => {
                let mut s: String = "channel ".to_owned();
                s.append(decimal(*channel as u64).as_str());
                s.append(" has ");
                s.append(decimal(*len as u64).as_str());
                s.append(" samples, expected ");
                s.append(decimal(*expected as u64).as_str());
                s
            },
        }
    }
}

/// The header of a WAV file, and how many frames follow it.
#[derive(Debug, Clone, Copy, PartialEq, Eq, Structural)]
pub struct WavPlan {
    /// The channel count field. It has 16 bits.
    pub channels: u16,
    /// Sampling rate in Hz.
    pub sample_rate: u32,
    /// Bits per sample.
    pub bits_per_sample: u16,
    /// The encoding of a sample.
    pub kind: SampleKind,
    /// Number of frames.
    pub frames: usize,
}

/// Plans the export of `channels`, one slice per channel. There has to be one, and all have to be
/// equally long; the first one that differs is reported.
pub fn export_wav(channels: &[&[u32]], sample_rate: u32, format: WavFormat) -> (r: Result<WavPlan, ExportError>)
    ensures
        match r {
            Ok(plan) => {
                &&& channels@.len() > 0
                &&& plan == (WavPlan {
                    channels: (channels@.len() % 0x1_0000) as u16,
                    sample_rate,
                    bits_per_sample: format.fields().0,
                    kind: format.fields().1,
                    frames: channels@[0]@.len() as usize,
                })
                &&& format == WavFormat::Pcm16 ==> plan.bits_per_sample == 16 && plan.kind == SampleKind::Int
                &&& format == WavFormat::Float32 ==> plan.bits_per_sample == 32 && plan.kind == SampleKind::Float
                &&& forall|c: int| 0 <= c < channels@.len() ==> (#[trigger] channels@[c])@.len() == plan.frames
            },
            Err(ExportError::NoChannels) => channels@.len() == 0,
            Err(ExportError::RaggedChannels { channel, len, expected }) => {
                &&& channel < channels@.len()
                &&& len == channels@[channel as int]@.len()
                &&& expected == channels@[0]@.len()
                &&& len != expected
                &&& forall|c: int| 0 <= c < channel ==> (#[trigger] channels@[c])@.len() == expected
            },
            Err(_) => false,
        },
{
    if channels.len() == 0 {
        return Err(ExportError::NoChannels);
    }
    let frames: usize = channels[0].len();
    let mut c: usize = 0;
    while c < channels.len()
        invariant
            c <= channels@.len(),
            channels@.len() > 0,
            frames == channels@[0]@.len(),
            forall|k: int| 0 <= k < c ==> (#[trigger] channels@[k])@.len() == frames,
        decreases channels@.len() - c,
    {
        let len: usize = channels[c].len();
        if len != frames {
            return Err(ExportError::RaggedChannels { channel: c, len, expected: frames });
        }
        c = c + 1;
    }
    let (bits_per_sample, kind): (u16, SampleKind) = format.spec_fields();
    Ok(WavPlan { channels: (channels.len() % 0x1_0000) as u16, sample_rate, bits_per_sample, kind, frames })
}

/// The pattern of minus one.
pub const MINUS_ONE: u32 = 0xbf80_0000;

/// `s` limited to full scale. What is no number stays.
pub open spec fn clipped(s: u32) -> u32 {
    if less(ONE, s) {
        ONE
    } else if less(s, MINUS_ONE) {
        MINUS_ONE
    } else {
        s
    }
}

/// A sample as 16-bit signed PCM. It is limited to full scale first, so that a hot sample clips and
/// does not wrap; `quantize` scales and rounds what is left.
pub fn to_i16<Q: Fn(u32) -> i16>(s: u32, quantize: &Q) -> (r: i16)
    requires
        forall|v: u32| #[trigger] call_requires(*quantize, (v,)),
    ensures
        call_ensures(*quantize, (clipped(s),), r),
{
    if lt(ONE, s) {
        quantize(ONE)
    } else if lt(s, MINUS_ONE) {
        quantize(MINUS_ONE)
    } else {
        quantize(s)
    }
}

/// A sample as a WAV file holds it.
#[derive(Debug, Clone, Copy, PartialEq, Eq, Structural)]
pub enum WavSample {
    /// A 16-bit integer.
    Int(i16),
    /// The bits of a 32-bit float.
    Float(u32),
}

/// `w` is the sample `s` in `format`.
pub open spec fn encodes<Q: Fn(u32) -> i16>(s: u32, format: WavFormat, quantize: Q, w: WavSample) -> bool {
    match format {
        WavFormat::Float32 => w == WavSample::Float(s),
        WavFormat::Pcm16 => w matches WavSample::Int(v) && call_ensures(quantize, (clipped(s),), v),
    }
}

/// The samples of each channel.
pub open spec fn planes(channels: Seq<&[u32]>) -> Seq<Seq<u32>> {
    Seq::new(channels.len(), |c: int| channels[c]@)
}

/// `frame` is frame `f` of the file: a sample of each channel, in channel order.
pub open spec fn frame_is<Q: Fn(u32) -> i16>(
    channels: Seq<Seq<u32>>,
    f: int,
    format: WavFormat,
    quantize: Q,
    frame: Seq<WavSample>,
) -> bool {
    &&& frame.len() == channels.len()
    &&& forall|c: int| 0 <= c < frame.len() ==> encodes(channels[c][f], format, quantize, #[trigger] frame[c])
}

/// Frame `f` of the file: a sample of each channel, in channel order.
pub fn wav_frame<Q: Fn(u32) -> i16>(channels: &[&[u32]], f: usize, format: WavFormat, quantize: &Q) -> (r: Vec<WavSample>)
    requires
        forall|c: int| 0 <= c < channels@.len() ==> f < (#[trigger] channels@[c])@.len(),
        forall|v: u32| #[trigger] call_requires(*quantize, (v,)),
    ensures
        frame_is(planes(channels@), f as int, format, *quantize, r@),
        r@.len() == channels@.len(),
        forall|c: int|
            0 <= c < channels@.len() ==> encodes(channels@[c]@[f as int], format, *quantize, #[trigger] r@[c]),
{
    let mut out: Vec<WavSample> = Vec::new();
    let mut c: usize = 0;
    while c < channels.len()
        invariant
            c <= channels@.len(),
            out@.len() == c,
            forall|k: int| 0 <= k < channels@.len() ==> f < (#[trigger] channels@[k])@.len(),
            forall|v: u32| #[trigger] call_requires(*quantize, (v,)),
            forall|k: int|
                0 <= k < c ==> encodes(channels@[k]@[f as int], format, *quantize, #[trigger] out@[k]),
        decreases channels@.len() - c,
    {
        proof {
            assert(f < channels@[c as int]@.len());
        }
        let s: u32 = channels[c][f];
        let w: WavSample = match format {
            WavFormat::Float32 => WavSample::Float(s),
            WavFormat::Pcm16 => WavSample::Int(to_i16(s, quantize)),
        };
        out.push(w);
        c = c + 1;
    }
    out
}

/// The channels interleaved: frame after frame, in each a sample of every channel.
pub open spec fn interleaved(channels: Seq<Seq<u32>>, frames: nat) -> Seq<u32> {
    Seq::new(
        frames * channels.len(),
        |k: int| channels[k % channels.len() as int][k / channels.len() as int],
    )
}

/// The samples of a file that holds `frames` one after the other.
pub open spec fn file_of(frames: Seq<Seq<WavSample>>) -> Seq<WavSample>
    decreases frames.len(),
{
    if frames.len() == 0 {
        Seq::empty()
    } else {
        file_of(frames.drop_last()) + frames.last()
    }
}

proof fn lemma_file_of(frames: Seq<Seq<WavSample>>, n: nat, f: int, c: int)
    requires
        forall|i: int| 0 <= i < frames.len() ==> (#[trigger] frames[i]).len() == n,
    ensures
        file_of(frames).len() == frames.len() * n,
        0 <= f < frames.len() && 0 <= c < n ==> file_of(frames)[f * n + c] == frames[f][c],
    decreases frames.len(),
{
    if frames.len() > 0 {
        let last = frames.len() - 1;
        let front = frames.drop_last();
        assert forall|i: int| 0 <= i < front.len() implies (#[trigger] front[i]).len() == n by {
            assert(front[i] == frames[i]);
        }
        lemma_file_of(front, n, f, c);
        assert(frames.last().len() == n) by {
            assert(frames[last].len() == n);
        }
        assert((last + 1) * n == last * n + n) by (nonlinear_arith);
        if 0 <= f < last && 0 <= c < n {
            assert(0 <= f * n + c < last * n) by (nonlinear_arith)
                requires
                    0 <= f < last,
                    0 <= c < n,
            ;
            assert(front[f] == frames[f]);
        }
    } else {
        assert(0 * n == 0) by (nonlinear_arith);
    }
}

/// A file is its channels interleaved: the frames that [`wav_frame`] makes, one after the other, hold
/// the samples of the interleaved channels in the format of the file. As floats they are those
/// samples themselves.
pub proof fn law_a_file_is_its_channels_interleaved<Q: Fn(u32) -> i16>(
    channels: Seq<Seq<u32>>,
    format: WavFormat,
    quantize: Q,
    frames: Seq<Seq<WavSample>>,
)
    requires
        channels.len() > 0,
        forall|f: int| 0 <= f < frames.len() ==> frame_is(channels, f, format, quantize, #[trigger] frames[f]),
    ensures
        file_of(frames).len() == interleaved(channels, frames.len()).len(),
        forall|k: int|
            0 <= k < file_of(frames).len() ==> encodes(
                interleaved(channels, frames.len())[k],
                format,
                quantize,
                #[trigger] file_of(frames)[k],
            ),
        format == WavFormat::Float32 ==> file_of(frames) == interleaved(channels, frames.len()).map_values(
            |s: u32| WavSample::Float(s),
        ),
{
    let n = channels.len();
    let all = interleaved(channels, frames.len());
    let file = file_of(frames);
    lemma_file_of(frames, n, 0, 0);
    assert forall|k: int| 0 <= k < file.len() implies encodes(all[k], format, quantize, #[trigger] file[k]) by {
        lemma_fundamental_div_mod(k, n as int);
        let f = k / n as int;
        let c = k % n as int;
        assert(0 <= f < frames.len()) by (nonlinear_arith)
            requires
                k == n * f + c,
                0 <= c < n,
                0 <= k < frames.len() * n,
        ;
        assert(f * n == n * f) by (nonlinear_arith);
        lemma_file_of(frames, n, f, c);
        assert(frame_is(channels, f, format, quantize, frames[f]));
        assert(encodes(channels[c][f], format, quantize, frames[f][c]));
    }
    if format == WavFormat::Float32 {
        assert(file =~= all.map_values(|s: u32| WavSample::Float(s)));
    }
}

/// Splitting what was interleaved gives the channels back.
pub proof fn law_interleaving_is_undone(channels: Seq<Seq<u32>>, frames: nat, ch: int)
    requires
        0 <= ch < channels.len(),
        forall|c: int| 0 <= c < channels.len() ==> (#[trigger] channels[c]).len() == frames,
    ensures
        lane(interleaved(channels, frames), channels.len(), ch) == channels[ch],
{
    let n = channels.len();
    let all = interleaved(channels, frames);
    assert(frames * n == n * frames + 0) by (nonlinear_arith);
    lemma_fundamental_div_mod_converse((frames * n) as int, n as int, frames as int, 0);
    assert forall|f: int| 0 <= f < frames implies #[trigger] lane(all, n, ch)[f] == channels[ch][f] by {
        lemma_frame_bounds(all.len(), n, f, ch);
        assert(f * n + ch == n * f + ch) by (nonlinear_arith);
        lemma_fundamental_div_mod_converse(f * n + ch, n as int, f, ch);
    }
    assert(lane(all, n, ch) =~= channels[ch]);
}

/// Interleaving the channels of whole interleaved frames gives them back.
pub proof fn law_splitting_is_undone(all: Seq<u32>, channels: nat)
    requires
        channels > 0,
        all.len() % channels == 0,
    ensures
        interleaved(crate::decode::lanes(all, channels), all.len() / channels) == all,
{
    let frames = all.len() / channels;
    let back = interleaved(crate::decode::lanes(all, channels), frames);
    lemma_fundamental_div_mod(all.len() as int, channels as int);
    assert(frames * channels == channels * frames) by (nonlinear_arith);
    assert forall|k: int| 0 <= k < all.len() implies #[trigger] back[k] == all[k] by {
        lemma_fundamental_div_mod(k, channels as int);
        let f = k / channels as int;
        let c = k % channels as int;
        assert(0 <= f < frames) by (nonlinear_arith)
            requires
                k == channels * f + c,
                0 <= c < channels,
                0 <= k < channels * frames,
        ;
        assert(f * channels == channels * f) by (nonlinear_arith);
    }
    assert(back =~= all);
}

/// A sample is limited to full scale before it becomes an integer: what lies from minus one to one stays
/// as it is, what is above becomes one, and what is below minus one becomes minus one. What is no
/// number stays too.
pub proof fn law_a_sample_is_limited_to_full_scale(s: u32)
    ensures
        !is_nan(s) && value(0xbf80_0000) <= value(s) <= value(0x3f80_0000) ==> clipped(s) == s,
        !is_nan(s) && value(s) > value(0x3f80_0000) ==> clipped(s) == 0x3f80_0000,
        !is_nan(s) && value(s) < value(0xbf80_0000) ==> clipped(s) == 0xbf80_0000,
        is_nan(s) ==> clipped(s) == s,
        value(0x3f80_0000) == pow2(149),
        value(0xbf80_0000) == -pow2(149),
{
    if !is_nan(s) {
        law_order_is_numeric(ONE, s);
        law_order_is_numeric(s, MINUS_ONE);
    }
    lemma2_to64();
    lemma_pow2_adds(23, 126);
}

/// A file holds every sample of every channel: sample `c` of frame `f` is that of channel `c` at `f`. As
/// a float it is the sample itself; as an integer it is what `quantize` makes of the sample, or of one or
/// minus one where the sample is beyond them.
pub proof fn law_a_file_holds_every_sample<Q: Fn(u32) -> i16>(
    channels: Seq<Seq<u32>>,
    format: WavFormat,
    quantize: Q,
    frames: Seq<Seq<WavSample>>,
    f: int,
    c: int,
)
    requires
        channels.len() > 0,
        forall|g: int| 0 <= g < frames.len() ==> frame_is(channels, g, format, quantize, #[trigger] frames[g]),
        0 <= f < frames.len(),
        0 <= c < channels.len(),
    ensures
        file_of(frames).len() == frames.len() * channels.len(),
        format == WavFormat::Float32 ==> file_of(frames)[f * channels.len() + c] == WavSample::Float(channels[c][f]),
        format == WavFormat::Pcm16 ==> {
            let s = channels[c][f];
            let limited = if !is_nan(s) && value(s) > value(0x3f80_0000) {
                0x3f80_0000u32
            } else if !is_nan(s) && value(s) < value(0xbf80_0000) {
                0xbf80_0000u32
            } else {
                s
            };
            &&& file_of(frames)[f * channels.len() + c] matches WavSample::Int(v)
            &&& call_ensures(quantize, (limited,), v)
        },
{
    let n = channels.len();
    assert forall|g: int| 0 <= g < frames.len() implies (#[trigger] frames[g]).len() == n by {
        assert(frame_is(channels, g, format, quantize, frames[g]));
    }
    lemma_file_of(frames, n, f, c);
    assert(frame_is(channels, f, format, quantize, frames[f]));
    assert(encodes(channels[c][f], format, quantize, frames[f][c]));
    law_a_sample_is_limited_to_full_scale(channels[c][f]);
}

/// Interleaved channels alternate: the sample of channel `c` in frame `f` stands behind `f` whole frames
/// and `c` samples.
pub proof fn law_interleaved_channels_alternate(channels: Seq<Seq<u32>>, frames: nat, f: int, c: int)
    requires
        0 <= f < frames,
        0 <= c < channels.len(),
    ensures
        interleaved(channels, frames).len() == frames * channels.len(),
        interleaved(channels, frames)[f * channels.len() + c] == channels[c][f],
{
    let n = channels.len() as int;
    assert(0 <= f * n + c < frames * n) by (nonlinear_arith)
        requires
            0 <= f < frames,
            0 <= c < n,
    ;
    assert(f * n + c == n * f + c) by (nonlinear_arith);
    lemma_fundamental_div_mod_converse(f * n + c, n, f, c);
}

/// The channels of a file stand in it in their own order.
pub proof fn law_channels_keep_their_order(channels: Seq<&[u32]>, c: int)
    requires
        0 <= c < channels.len(),
    ensures
        planes(channels).len() == channels.len(),
        planes(channels)[c] == channels[c]@,
{
}

/// A header tells the two formats apart, by the bits that a sample of each takes and by what they encode.
pub proof fn law_a_header_tells_the_format(format: WavFormat)
    ensures
        format.fields().0 == 16 <==> format == WavFormat::Pcm16,
        format.fields().0 == 32 <==> format == WavFormat::Float32,
        format.fields().1 == SampleKind::Int <==> format == WavFormat::Pcm16,
{
}

} // verus!
