use hound::{SampleFormat, WavSpec, WavWriter};
use memmap2::MmapMut;
use soundforge::agg::Arith;
use soundforge::audio::{
    edit_with, replace_with, undo_with, AudioError, AudioInfo, AudioState, EditDto, EditOp, StatsDto, WaveformDto,
    MAX_BINS, MAX_UNDO_BYTES,
};
use soundforge::cache::{file_name, sweep_at_startup, Entry, Removal};
use soundforge::decode::{
    deinterleave, pick_track, sample_bytes, DecodeError, DecodeLoop, DecodedAction, DecodedEvent, Join, PacketAction,
    PacketEvent, PcmCache, Track,
};
use soundforge::edit::Scale;
use soundforge::stats::{RangeStats, Units};
use soundforge::summary::Analyzer;
use soundforge::undo::UndoEntry;
use std::cell::RefCell;
use std::collections::BTreeMap;
use std::f32::consts::PI;
use std::io::{Cursor, ErrorKind};
use std::sync::Arc;

fn ops() -> Arith<impl Fn(u64, u64) -> u64, impl Fn(u32) -> (u64, u64)> {
    Arith {
        add: |a: u64, b: u64| (f64::from_bits(a) + f64::from_bits(b)).to_bits(),
        lift: |v: u32| {
            let x = f32::from_bits(v) as f64;
            (x.to_bits(), (x * x).to_bits())
        },
    }
}

fn units() -> Units<impl Fn(u64, u32) -> u64, impl Fn(u64, u64) -> u64, impl Fn(u64) -> u64, impl Fn(u64, u64) -> u64> {
    Units {
        seconds,
        mean: |x: u64, n: u64| (f64::from_bits(x) / n as f64).to_bits(),
        root: |x: u64| f64::from_bits(x).sqrt().to_bits(),
        frequency: |n: u64, d: u64| (n as f64 / (2.0 * f64::from_bits(d))).to_bits(),
    }
}

fn scale() -> Scale<
    impl Fn(u32, u32) -> u32,
    impl Fn(u32, u32) -> u32,
    impl Fn(usize, usize) -> u32,
    impl Fn(usize, usize) -> u32,
> {
    Scale {
        times: |x: u32, g: u32| (f32::from_bits(x) * f32::from_bits(g)).to_bits(),
        over: |x: u32, y: u32| (f32::from_bits(x) / f32::from_bits(y)).to_bits(),
        rise: |i: usize, last: usize| (i as f32 / last as f32).to_bits(),
        fall: |i: usize, last: usize| (1.0 - i as f32 / last as f32).to_bits(),
    }
}

fn seconds(n: u64, rate: u32) -> u64 {
    (n as f64 / rate as f64).to_bits()
}

fn f(v: u32) -> f32 {
    f32::from_bits(v)
}

fn d(v: u64) -> f64 {
    f64::from_bits(v)
}

fn bits(samples: &[f32]) -> Vec<u32> {
    samples.iter().map(|v| v.to_bits()).collect()
}

/// A 32-bit float WAV file of planar channels.
fn wav(channels: &[Vec<f32>], sample_rate: u32) -> Vec<u8> {
    let spec = WavSpec {
        channels: channels.len() as u16,
        sample_rate,
        bits_per_sample: 32,
        sample_format: SampleFormat::Float,
    };
    let mut bytes = Vec::new();
    let mut w = WavWriter::new(Cursor::new(&mut bytes), spec).unwrap();
    for i in 0..channels[0].len() {
        for ch in channels {
            w.write_sample(ch[i]).unwrap();
        }
    }
    w.finalize().unwrap();
    bytes
}

fn failed(e: symphonia::core::errors::Error) -> DecodeError {
    DecodeError::Symphonia(e.to_string())
}

/// Decodes an audio file in memory into the bytes of a planar cache and its geometry.
fn decode_bytes(source: Vec<u8>) -> Result<(Vec<u8>, usize, u32), DecodeError> {
    let stream = symphonia::core::io::MediaSourceStream::new(Box::new(Cursor::new(source)), Default::default());
    let probed = symphonia::default::get_probe()
        .format(
            symphonia::core::probe::Hint::new().with_extension("wav"),
            stream,
            &Default::default(),
            &Default::default(),
        )
        .map_err(failed)?;
    let mut format = probed.format;
    let tracks: Vec<Track> = format
        .tracks()
        .iter()
        .map(|t| Track { id: t.id, decodable: t.codec_params.codec != symphonia::core::codecs::CODEC_TYPE_NULL })
        .collect();
    let id = pick_track(&tracks)?;
    let params = format.tracks().iter().find(|t| t.id == id).unwrap().codec_params.clone();
    let mut decoder =
        symphonia::default::get_codecs().make(&params, &Default::default()).map_err(failed)?;

    let mut state = DecodeLoop::new(id);
    let mut spills: Vec<Vec<u8>> = Vec::new();
    let decoded = loop {
        let next = format.next_packet();
        let event = match &next {
            Ok(p) => PacketEvent::Packet(p.track_id()),
            Err(symphonia::core::errors::Error::IoError(e)) if e.kind() == ErrorKind::UnexpectedEof => PacketEvent::End,
            Err(symphonia::core::errors::Error::ResetRequired) => PacketEvent::Reset,
            Err(e) => PacketEvent::Failed(e.to_string()),
        };
        match state.on_packet(event) {
            PacketAction::Decode => {}
            PacketAction::Skip => continue,
            PacketAction::Stop => break Ok(()),
            PacketAction::Fail(e) => break Err(e),
        }
        let audio = decoder.decode(&next.unwrap());
        let event = match &audio {
            Ok(a) => DecodedEvent::Samples { channels: a.spec().channels.count(), sample_rate: a.spec().rate },
            Err(symphonia::core::errors::Error::DecodeError(_)) => DecodedEvent::Corrupt,
            Err(e) => DecodedEvent::Failed(e.to_string()),
        };
        match state.on_decoded(event) {
            DecodedAction::OpenSpills(n) => spills = vec![Vec::new(); n],
            DecodedAction::Append => {}
            DecodedAction::Skip => continue,
            DecodedAction::Fail(e) => break Err(e),
        }
        let audio = audio.unwrap();
        let mut buffer = symphonia::core::audio::SampleBuffer::<f32>::new(audio.capacity() as u64, *audio.spec());
        buffer.copy_interleaved_ref(audio);
        let words: Vec<u32> = buffer.samples().iter().map(|s| s.to_bits()).collect();
        for (spill, lane) in spills.iter_mut().zip(deinterleave(&words, state.channels)) {
            spill.extend_from_slice(sample_bytes(&lane));
        }
    };
    let bytes = match state.finish(decoded, Ok(()))? {
        Join::Rename => spills.remove(0),
        Join::Copy => spills.concat(),
    };
    Ok((bytes, state.channels, state.sample_rate))
}

/// An audio state and the cache files that it works with, kept in memory.
struct Session {
    state: AudioState,
    files: RefCell<BTreeMap<String, Vec<u8>>>,
}

impl Session {
    fn new() -> Session {
        Session { state: AudioState::default(), files: RefCell::new(BTreeMap::new()) }
    }

    /// Deletes the cache files that nothing needs any more.
    fn tidy(&mut self) {
        for path in self.state.take_discarded() {
            self.files.borrow_mut().remove(&path);
        }
    }

    fn has(&self, path: &str) -> bool {
        self.files.borrow().contains_key(path)
    }

    fn open_source(&mut self, source: Vec<u8>, cache: &str) -> Result<AudioInfo, AudioError> {
        let (bytes, channels, rate) = decode_bytes(source).map_err(AudioError::Decode)?;
        let pcm = PcmCache::open_planar(map_of(&bytes), channels, rate).map_err(AudioError::Decode)?;
        self.files.borrow_mut().insert(cache.to_string(), bytes);
        let info = self.state.open(pcm, "src.wav".to_string(), cache.to_string(), &ops(), &seconds);
        self.tidy();
        Ok(info)
    }

    fn open(&mut self, channels: &[Vec<f32>], rate: u32, cache: &str) -> AudioInfo {
        self.open_source(wav(channels, rate), cache).unwrap()
    }

    fn stats(&self, ch: usize, start: usize, end: usize) -> Result<StatsDto, AudioError> {
        self.state.stats(ch, start, end, &ops(), &units())
    }

    fn waveform(&self, ch: usize, start: usize, end: usize, bins: usize) -> Result<WaveformDto, AudioError> {
        self.state.waveform(ch, start, end, bins, &ops())
    }

    fn peak(&self, ch: usize, start: usize, end: usize) -> f32 {
        f(self.stats(ch, start, end).unwrap().peak)
    }

    fn edit(&mut self, op: EditOp, start: usize, end: usize) -> Result<EditDto, AudioError> {
        let r = self.state.edit(op, start, end, &scale(), &ops());
        self.tidy();
        r
    }

    /// Trims the document that stands in `old`, whose file gets what the map holds.
    fn trim(&mut self, start: usize, end: usize, old: &str, new: &str) -> Result<EditDto, AudioError> {
        if let Ok(pcm) = self.state.pcm() {
            self.files.borrow_mut().insert(old.to_string(), pcm.backing().to_vec());
        }
        let files = &self.files;
        let store = |parts: &[&[u8]]| {
            let bytes = parts.concat();
            let map = map_of(&bytes);
            files.borrow_mut().insert(new.to_string(), bytes);
            Ok(map)
        };
        let r = self.state.trim(start, end, new.to_string(), &store, &ops(), &seconds);
        self.tidy();
        r
    }

    fn undo(&mut self) -> Result<EditDto, AudioError> {
        let files = &self.files;
        let load = |path: &str| match files.borrow().get(path) {
            Some(bytes) => Ok(map_of(bytes)),
            None => Err(DecodeError::Io("no such file".to_string())),
        };
        let r = self.state.undo(&load, &ops(), &seconds);
        self.tidy();
        r
    }

    fn close(&mut self) {
        self.state.close();
        self.tidy();
    }
}

fn map_of(bytes: &[u8]) -> MmapMut {
    let mut map = MmapMut::map_anon(bytes.len()).unwrap();
    map.copy_from_slice(bytes);
    map
}

/// A 1 kHz sine lasting exactly 1 s (whole cycles).
fn sine_1k(sr: u32) -> Vec<f32> {
    (0..sr).map(|i| (2.0 * PI * 1000.0 * i as f32 / sr as f32).sin()).collect()
}

/// A session on a mono 1 kHz sine.
fn open_sine() -> Session {
    let mut s = Session::new();
    s.open(&[sine_1k(48_000)], 48_000, "sine.pcm");
    s
}

fn shape(info: &AudioInfo) -> (String, usize, u32, usize, u64) {
    (info.path.clone(), info.channels, info.sample_rate, info.frames, info.duration_s)
}

fn drawn(w: &WaveformDto) -> (usize, usize, usize, usize, Vec<u32>, Vec<u32>) {
    (w.channel, w.start, w.end, w.bins, w.min.clone(), w.max.clone())
}

#[test]
fn open_reports_geometry() {
    let left: Vec<f32> = (0..3000).map(|i| (i as f32 * 0.001).sin()).collect();
    let right: Vec<f32> = (0..3000).map(|i| -(i as f32 * 0.002).cos()).collect();
    let mut s = Session::new();
    let info = s.open(&[left, right], 44_100, "geom.pcm");
    assert_eq!(info.channels, 2);
    assert_eq!(info.sample_rate, 44_100);
    assert_eq!(info.frames, 3000);
    assert!((d(info.duration_s) - 3000.0 / 44_100.0).abs() < 1e-9);
    assert_eq!(shape(&s.state.info().unwrap()), shape(&info));
}

#[test]
fn stats_over_full_selection_match_the_signal() {
    let s = open_sine();
    let st = s.stats(0, 0, 48_000).unwrap();
    assert_eq!(st.channel, 0);
    assert_eq!(st.n, 48_000);
    assert!((d(st.duration_s) - 1.0).abs() < 1e-9);
    assert!((f(st.peak) - 1.0).abs() < 1e-3, "peak {}", f(st.peak));
    // RMS of a full-scale sine is 1/sqrt(2).
    assert!((d(st.rms) - std::f64::consts::FRAC_1_SQRT_2).abs() < 1e-3, "rms {}", d(st.rms));
    assert!(d(st.dc).abs() < 1e-3, "dc {}", d(st.dc));
    assert!((d(st.freq_hz) - 1000.0).abs() < 2.0, "freq {}", d(st.freq_hz));
}

#[test]
fn stats_of_subrange_agree_with_a_direct_core_analyzer() {
    let state = open_sine();
    let samples = bits(&sine_1k(48_000));
    let az = Analyzer::new(&samples, &ops());
    for &(s, e) in &[(0usize, 1usize), (137, 20_011), (47_000, 48_000), (0, 48_000)] {
        let got = state.stats(0, s, e).unwrap();
        let want = RangeStats::from_agg(&az.range(s, e, &ops()), s as u64, 48_000, &units());
        assert_eq!(got.n, want.n, "n [{s},{e})");
        assert_eq!(got.min, want.min, "min [{s},{e})");
        assert_eq!(got.max, want.max, "max [{s},{e})");
        assert_eq!(got.zero_crossings, want.zero_crossings, "zc [{s},{e})");
        assert!((d(got.rms) - d(want.rms)).abs() < 1e-9, "rms [{s},{e})");
        assert!((d(got.start_s) - d(want.start_s)).abs() < 1e-12, "start [{s},{e})");
    }
}

#[test]
fn stats_are_per_channel() {
    // Channel 0 is silent, channel 1 has a constant bias: impossible to confuse.
    let mut s = Session::new();
    s.open(&[vec![0.0f32; 2048], vec![0.5f32; 2048]], 8000, "perch.pcm");
    let l = s.stats(0, 0, 2048).unwrap();
    let r = s.stats(1, 0, 2048).unwrap();
    assert_eq!(l.channel, 0);
    assert_eq!(f(l.peak), 0.0);
    assert_eq!(d(l.rms), 0.0);
    assert_eq!(r.channel, 1);
    assert!((d(r.dc) - 0.5).abs() < 1e-6, "dc {}", d(r.dc));
    assert!((d(r.rms) - 0.5).abs() < 1e-6, "rms {}", d(r.rms));
}

#[test]
fn empty_and_reversed_selections_are_zeroed_not_errors() {
    let state = open_sine();
    for &(s, e) in &[(500usize, 500usize), (900, 400)] {
        let st = state.stats(0, s, e).unwrap();
        assert_eq!(st.n, 0, "[{s},{e})");
        assert_eq!(f(st.peak), 0.0);
        assert_eq!(d(st.duration_s), 0.0);
        assert_eq!(st.zero_crossings, 0);
    }
}

#[test]
fn out_of_bounds_selection_clamps_to_the_document() {
    let s = open_sine();
    assert_eq!(s.stats(0, 0, 999_999).unwrap().n, 48_000);
    // Starting past the end is empty, not a panic.
    assert_eq!(s.stats(0, 999_999, 1_000_000).unwrap().n, 0);
    assert_eq!(s.state.selection(10, 999_999).unwrap(), (10, 48_000));
}

#[test]
fn queries_without_an_open_document_error() {
    let s = Session::new();
    assert!(matches!(s.stats(0, 0, 1), Err(AudioError::NoDocument)));
    assert!(matches!(s.waveform(0, 0, 1, 8), Err(AudioError::NoDocument)));
    assert!(s.state.info().is_none());
    assert!(matches!(s.state.selection(0, 1), Err(AudioError::NoDocument)));
}

#[test]
fn bad_channel_is_an_error_not_a_panic() {
    let s = open_sine();
    let e = s.stats(7, 0, 100).unwrap_err();
    assert!(matches!(&e, AudioError::BadChannel { ch: 7, channels: 1 }));
    assert_eq!(e.message(), "channel 7 out of range (document has 1)");
    assert!(matches!(s.waveform(7, 0, 100, 8), Err(AudioError::BadChannel { .. })));
}

#[test]
fn waveform_returns_parallel_bounded_arrays() {
    let s = open_sine();
    let wf = s.waveform(0, 0, 48_000, 800).unwrap();
    assert_eq!(wf.channel, 0);
    assert_eq!(wf.bins, 800);
    assert_eq!(wf.min.len(), 800);
    assert_eq!(wf.max.len(), 800);
    for (i, (&mn, &mx)) in wf.min.iter().zip(wf.max.iter()).enumerate() {
        let (mn, mx) = (f(mn), f(mx));
        assert!(mn <= mx, "bin {i}: min {mn} > max {mx}");
        assert!(mn.is_finite() && mx.is_finite(), "bin {i} not finite");
        assert!((-1.0..=1.0).contains(&mn) && (-1.0..=1.0).contains(&mx), "bin {i}");
    }
    // A full-scale sine must reach near ±1 somewhere in the envelope.
    assert!(wf.max.iter().map(|&v| f(v)).fold(f32::MIN, f32::max) > 0.99);
    assert!(wf.min.iter().map(|&v| f(v)).fold(f32::MAX, f32::min) < -0.99);
}

#[test]
fn waveform_matches_a_direct_core_analyzer() {
    let s = open_sine();
    let samples = bits(&sine_1k(48_000));
    let az = Analyzer::new(&samples, &ops());
    let want = az.waveform(137, 40_000, 256, &ops());
    let got = s.waveform(0, 137, 40_000, 256).unwrap();
    for (b, &(wmin, wmax)) in want.iter().enumerate() {
        assert_eq!(got.min[b], wmin, "bin {b} min");
        assert_eq!(got.max[b], wmax, "bin {b} max");
    }
}

#[test]
fn waveform_clamps_range_and_reports_what_it_drew() {
    let s = open_sine();
    let wf = s.waveform(0, 0, 999_999, 16).unwrap();
    assert_eq!(wf.start, 0);
    assert_eq!(wf.end, 48_000, "end must be clamped to the document");
    assert_eq!(wf.min.len(), 16);
}

#[test]
fn waveform_rejects_absurd_bin_counts() {
    let s = open_sine();
    let e = s.waveform(0, 0, 48_000, MAX_BINS + 1).unwrap_err();
    assert!(matches!(&e, AudioError::TooManyBins { max: MAX_BINS, .. }));
    assert_eq!(e.message(), "requested 8193 waveform bins, maximum is 8192");
    // The limit itself is allowed.
    assert_eq!(s.waveform(0, 0, 48_000, MAX_BINS).unwrap().bins, MAX_BINS);
}

#[test]
fn zero_bins_yields_empty_arrays() {
    let s = open_sine();
    let wf = s.waveform(0, 0, 48_000, 0).unwrap();
    assert!(wf.min.is_empty() && wf.max.is_empty());
}

#[test]
fn open_replaces_the_previous_document_and_removes_its_cache() {
    let mut s = Session::new();
    s.open(&[vec![0.25f32; 1024]], 8000, "a.pcm");
    assert!(s.has("a.pcm"));

    let info = s.open(&[vec![0.5f32; 2048], vec![0.5f32; 2048]], 16_000, "b.pcm");
    assert_eq!(info.channels, 2);
    assert_eq!(info.frames, 2048);
    assert_eq!(s.state.info().unwrap().sample_rate, 16_000);
    // The replaced document took its cache file with it.
    assert!(!s.has("a.pcm"), "previous PCM cache should be cleaned up");
    assert!(s.has("b.pcm"));
}

#[test]
fn pcm_hands_out_the_open_documents_samples() {
    let s = open_sine();
    let pcm = s.state.pcm().unwrap();
    assert_eq!(pcm.channels(), 1);
    assert_eq!(pcm.frames(), 48_000);
    assert_eq!(pcm.sample_rate(), 48_000);
    assert_eq!(pcm.channel(0), &bits(&sine_1k(48_000))[..]);
    assert!(matches!(AudioState::default().pcm().map(|_| ()), Err(AudioError::NoDocument)));
}

#[test]
fn a_pcm_handle_outlives_the_document_it_came_from() {
    let mut s = Session::new();
    s.open(&[vec![0.75f32; 4096]], 8000, "outlive.pcm");
    let pcm = s.state.pcm().unwrap();

    s.close();
    assert!(!s.has("outlive.pcm"), "the cache file should have been unlinked");
    // The samples are still readable through the handle taken before the close.
    assert_eq!(pcm.frames(), 4096);
    assert!(pcm.channel(0).iter().all(|&v| f(v) == 0.75));
}

#[test]
fn close_clears_the_document_and_its_cache() {
    let mut s = Session::new();
    s.open(&[vec![0.1f32; 512]], 8000, "close.pcm");
    assert!(s.has("close.pcm"));
    s.close();
    assert!(s.state.info().is_none());
    assert!(!s.has("close.pcm"));
    assert!(matches!(s.stats(0, 0, 1), Err(AudioError::NoDocument)));
    s.close(); // idempotent
}

#[test]
fn opening_a_non_audio_file_is_a_decode_error() {
    let mut s = Session::new();
    let err = s.open_source(b"this is not audio".to_vec(), "garbage.pcm").unwrap_err();
    assert!(matches!(err, AudioError::Decode(_)));
    // A failed open must not leave a half-open document behind.
    assert!(s.state.info().is_none());
    assert!(!err.message().is_empty());
}

// ---------- edits ----------

/// Several leaf blocks, so that range queries go through the pyramid.
const FIXTURE_FRAMES: usize = 8192;

/// A stereo document: channel 1 is four times quieter than channel 0. An edit that treats the
/// channels independently shows as the two drifting apart.
fn open_stereo() -> Session {
    let loud: Vec<f32> = (0..FIXTURE_FRAMES).map(|i| 0.5 * (i as f32 * 0.05).sin()).collect();
    let quiet: Vec<f32> = loud.iter().map(|s| s * 0.25).collect();
    let mut s = Session::new();
    s.open(&[loud, quiet], 8000, "edit.pcm");
    s
}

#[test]
fn normalize_lifts_the_selection_to_full_scale() {
    let mut s = open_stereo();
    s.edit(EditOp::Normalize, 0, FIXTURE_FRAMES).unwrap();
    let peak = s.peak(0, 0, FIXTURE_FRAMES);
    assert!((peak - 1.0).abs() < 1e-4, "peak {peak}");
}

#[test]
fn normalize_uses_one_gain_across_channels_and_keeps_the_balance() {
    let mut s = open_stereo();
    let before = (s.peak(0, 0, FIXTURE_FRAMES), s.peak(1, 0, FIXTURE_FRAMES));
    assert!((before.0 / before.1 - 4.0).abs() < 1e-3, "fixture: {before:?}");

    s.edit(EditOp::Normalize, 0, FIXTURE_FRAMES).unwrap();
    let after = (s.peak(0, 0, FIXTURE_FRAMES), s.peak(1, 0, FIXTURE_FRAMES));
    assert!((after.0 - 1.0).abs() < 1e-4, "loud channel {}", after.0);
    assert!((after.1 - 0.25).abs() < 1e-4, "quiet channel must stay 4x quieter, got {}", after.1);
}

#[test]
fn an_edit_rebuilds_the_pyramid_so_stats_reflect_it() {
    let mut s = open_stereo();
    assert!(s.peak(0, 0, FIXTURE_FRAMES) > 0.4);

    s.edit(EditOp::Silence, 0, FIXTURE_FRAMES).unwrap();

    let st = s.stats(0, 0, FIXTURE_FRAMES).unwrap();
    assert_eq!(f(st.peak), 0.0, "stats came from a stale pyramid");
    assert_eq!(d(st.rms), 0.0);
    assert_eq!(st.zero_crossings, 0);
    // The waveform reads the pyramid too.
    let wf = s.waveform(0, 0, FIXTURE_FRAMES, 8).unwrap();
    assert!(wf.max.iter().all(|&v| f(v) == 0.0), "envelope is stale");
}

#[test]
fn an_edit_touches_only_the_selected_range() {
    let mut s = open_stereo();
    let half = FIXTURE_FRAMES / 2;
    let before_tail = s.peak(0, half, FIXTURE_FRAMES);
    s.edit(EditOp::Silence, 0, half).unwrap();
    assert_eq!(s.peak(0, 0, half), 0.0);
    assert_eq!(s.peak(0, half, FIXTURE_FRAMES), before_tail, "audio outside the selection changed");
}

#[test]
fn fades_run_the_right_way_round() {
    let mut s = open_stereo();
    let tail = FIXTURE_FRAMES - 50;
    s.edit(EditOp::FadeIn, 0, FIXTURE_FRAMES).unwrap();
    // A fade in leaves the start near silence and the end untouched.
    assert!(s.peak(0, 0, 50) < 0.05, "fade in start");
    assert!(s.peak(0, tail, FIXTURE_FRAMES) > 0.4, "fade in end");

    let mut s2 = open_stereo();
    s2.edit(EditOp::FadeOut, 0, FIXTURE_FRAMES).unwrap();
    assert!(s2.peak(0, tail, FIXTURE_FRAMES) < 0.05, "fade out end");
    assert!(s2.peak(0, 0, 50) > 0.4, "fade out start");
}

#[test]
fn an_empty_selection_is_rejected_rather_than_silently_editing_nothing() {
    let mut state = open_stereo();
    for &(s, e) in &[(500usize, 500usize), (900, 400), (99_000, 100_000)] {
        assert!(matches!(state.edit(EditOp::Silence, s, e), Err(AudioError::EmptyRange)), "[{s},{e})");
    }
    assert!(matches!(Session::new().edit(EditOp::Silence, 0, 1), Err(AudioError::NoDocument)));
}

#[test]
fn an_edit_cannot_run_while_playback_holds_the_samples() {
    let mut s = open_stereo();
    let held = s.state.pcm().unwrap();
    assert!(matches!(s.edit(EditOp::Silence, 0, 100), Err(AudioError::Busy)));
    // And the document is untouched by the rejection.
    assert!(s.peak(0, 0, 100) > 0.0);
    drop(held);
    assert!(s.edit(EditOp::Silence, 0, 100).is_ok(), "freed again");
}

// ---------- undo ----------

#[test]
fn undo_restores_the_samples_exactly() {
    let mut s = open_stereo();
    let before: Vec<StatsDto> = (0..2).map(|ch| s.stats(ch, 0, FIXTURE_FRAMES).unwrap()).collect();
    assert!(!s.state.can_undo());

    s.edit(EditOp::Normalize, 100, 5000).unwrap();
    assert!(s.state.can_undo());
    assert_ne!(s.stats(0, 100, 5000).unwrap().peak, before[0].peak);

    s.undo().unwrap();
    for (ch, want) in before.iter().enumerate() {
        assert_eq!(&s.stats(ch, 0, FIXTURE_FRAMES).unwrap(), want, "channel {ch} not restored");
    }
    assert!(!s.state.can_undo());
    assert!(matches!(s.undo(), Err(AudioError::NothingToUndo)));
}

#[test]
fn undo_rebuilds_the_pyramid_too() {
    let mut s = open_stereo();
    let before = s.waveform(0, 0, FIXTURE_FRAMES, 8).unwrap();
    let stats_before = s.stats(0, 0, FIXTURE_FRAMES).unwrap();
    s.edit(EditOp::Silence, 0, FIXTURE_FRAMES).unwrap();
    s.undo().unwrap();
    assert_eq!(drawn(&s.waveform(0, 0, FIXTURE_FRAMES, 8).unwrap()), drawn(&before));
    assert_eq!(s.stats(0, 0, FIXTURE_FRAMES).unwrap(), stats_before);
}

#[test]
fn undo_unwinds_several_edits_in_reverse_order() {
    let mut s = open_stereo();
    let before = s.stats(0, 0, FIXTURE_FRAMES).unwrap();
    s.edit(EditOp::Silence, 0, 2000).unwrap();
    let after_first = s.stats(0, 0, FIXTURE_FRAMES).unwrap();
    s.edit(EditOp::Silence, 6000, FIXTURE_FRAMES).unwrap();

    s.undo().unwrap();
    assert_eq!(s.stats(0, 0, FIXTURE_FRAMES).unwrap(), after_first, "second undone");
    s.undo().unwrap();
    assert_eq!(s.stats(0, 0, FIXTURE_FRAMES).unwrap(), before, "first undone");
}

/// A document of `n` frames of one value, opened without an encoded source.
fn open_flat(n: usize) -> Session {
    let mut map = MmapMut::map_anon(n * 4).unwrap();
    for word in map.chunks_exact_mut(4) {
        word.copy_from_slice(&0.5f32.to_ne_bytes());
    }
    let mut s = Session::new();
    let pcm = PcmCache::open_planar(map, 1, 8000).unwrap();
    s.state.open(pcm, "big.wav".to_string(), "big.pcm".to_string(), &ops(), &seconds);
    s
}

#[test]
fn an_undo_too_large_to_record_is_reported_not_hidden() {
    // One channel of more than MAX_UNDO_BYTES / 4 samples.
    let n = MAX_UNDO_BYTES / std::mem::size_of::<f32>() + 1024;
    let mut s = open_flat(n);

    let dto = s.edit(EditOp::Silence, 0, n).unwrap();
    assert!(!dto.last_undoable, "an oversized edit must report itself");
    assert!(!dto.can_undo, "and must not leave a bogus undo entry");
    // The edit itself still happened.
    assert_eq!(s.peak(0, 0, n), 0.0);
    assert!(matches!(s.undo(), Err(AudioError::NothingToUndo)));
}

#[test]
fn the_undo_stack_stays_under_its_memory_cap() {
    // Each edit snapshots two fifths of the cap, so the third one drops the first.
    let n = (MAX_UNDO_BYTES / std::mem::size_of::<f32>()) * 2 / 5;
    let mut s = open_flat(n);
    for _ in 0..3 {
        assert!(s.edit(EditOp::Silence, 0, n).unwrap().last_undoable);
    }
    assert!(s.undo().unwrap().can_undo);
    assert!(!s.undo().unwrap().can_undo, "oldest entry should have been evicted");
    assert!(matches!(s.undo(), Err(AudioError::NothingToUndo)));
}

// ---------- trim ----------

#[test]
fn trim_keeps_only_the_selection_and_reports_the_new_geometry() {
    let mut s = open_stereo();
    let kept = s.stats(0, 2000, 7000).unwrap();

    let dto = s.trim(2000, 7000, "edit.pcm", "trimmed.pcm").unwrap();
    assert_eq!(dto.info.frames, 5000);
    assert!((d(dto.info.duration_s) - 5000.0 / 8000.0).abs() < 1e-9);
    assert_eq!(s.state.info().unwrap().frames, 5000);

    // The kept audio is the same audio, now at the front.
    let now = s.stats(0, 0, 5000).unwrap();
    assert_eq!(now.n, kept.n);
    assert_eq!(now.min, kept.min);
    assert_eq!(now.max, kept.max);
    assert!((d(now.rms) - d(kept.rms)).abs() < 1e-9);
}

#[test]
fn trim_replaces_the_cache_file_and_removes_the_old_one_only_on_undo() {
    let mut s = open_stereo();
    s.trim(1000, 6000, "edit.pcm", "trim2.pcm").unwrap();
    assert!(s.has("trim2.pcm"), "the trimmed cache must exist");
    assert!(s.has("edit.pcm"), "the old cache is the undo record: it must survive the trim");

    s.undo().unwrap();
    assert_eq!(s.state.info().unwrap().frames, FIXTURE_FRAMES, "geometry restored");
    assert!(s.has("edit.pcm"), "restored document uses the old cache");
    assert!(!s.has("trim2.pcm"), "the trimmed cache should be cleaned up");
}

#[test]
fn an_undone_trim_restores_the_audio_itself() {
    let mut s = open_stereo();
    let before: Vec<StatsDto> = (0..2).map(|ch| s.stats(ch, 0, FIXTURE_FRAMES).unwrap()).collect();

    s.trim(3000, 4000, "edit.pcm", "trim3.pcm").unwrap();
    s.undo().unwrap();
    for (ch, want) in before.iter().enumerate() {
        assert_eq!(&s.stats(ch, 0, FIXTURE_FRAMES).unwrap(), want, "channel {ch}");
    }
}

#[test]
fn a_dropped_trim_undo_entry_takes_its_cache_file_with_it() {
    let mut s = open_stereo();
    s.trim(0, 5000, "edit.pcm", "trim4.pcm").unwrap();
    assert!(s.has("edit.pcm"));

    s.close();
    assert!(!s.has("edit.pcm"), "undo's cache file leaked on close");
    assert!(!s.has("trim4.pcm"), "the document's own cache leaked on close");
}

#[test]
fn trimming_to_the_whole_file_is_a_no_op() {
    let mut s = open_stereo();
    let dto = s.trim(0, FIXTURE_FRAMES, "edit.pcm", "trim5.pcm").unwrap();
    assert_eq!(dto.info.frames, FIXTURE_FRAMES);
    assert!(!dto.last_undoable);
    assert!(!s.has("trim5.pcm"), "a no-op trim must not burn a copy");
}

#[test]
fn a_trim_discards_earlier_undo_entries() {
    // Their positions are those of the untrimmed document.
    let mut s = open_stereo();
    s.edit(EditOp::Silence, 7000, FIXTURE_FRAMES).unwrap();
    s.trim(0, 5000, "edit.pcm", "trim6.pcm").unwrap();

    s.undo().unwrap(); // undoes the trim
    assert_eq!(s.state.info().unwrap().frames, FIXTURE_FRAMES);
    assert!(!s.state.can_undo(), "pre-trim entries must not survive");
}

#[test]
fn trim_rejects_an_empty_selection_and_a_busy_document() {
    let mut s = open_stereo();
    assert!(matches!(s.trim(400, 400, "edit.pcm", "trim7.pcm"), Err(AudioError::EmptyRange)));
    let held = s.state.pcm().unwrap();
    assert!(matches!(s.trim(0, 5000, "edit.pcm", "trim7.pcm"), Err(AudioError::Busy)));
    drop(held);
    assert!(!s.has("trim7.pcm"), "a rejected trim must not leave a file");
    assert!(matches!(Session::new().trim(0, 1, "a", "b"), Err(AudioError::NoDocument)));
}

#[test]
fn a_trim_that_cannot_be_stored_changes_nothing() {
    let mut s = open_stereo();
    let full = |_: &[&[u8]]| Err(AudioError::Io("disk full".to_string()));
    let e = s.state.trim(0, 10, "t.pcm".to_string(), &full, &ops(), &seconds).unwrap_err();
    assert_eq!(e.message(), "disk full");
    // What was stored is torn: six bytes are no samples.
    let torn = |_: &[&[u8]]| Ok(MmapMut::map_anon(6).unwrap());
    let e = s.state.trim(0, 10, "t.pcm".to_string(), &torn, &ops(), &seconds).unwrap_err();
    assert!(matches!(e, AudioError::Decode(DecodeError::Malformed(_))));
    assert_eq!(s.state.info().unwrap().frames, FIXTURE_FRAMES);
    assert!(!s.state.can_undo());
    assert!(s.state.take_discarded().is_empty());
}

#[test]
fn a_trim_whose_file_is_gone_is_lost() {
    let mut s = open_stereo();
    s.trim(0, 5000, "edit.pcm", "t.pcm").unwrap();
    s.files.borrow_mut().remove("edit.pcm");
    assert!(matches!(s.undo(), Err(AudioError::Decode(DecodeError::Io(_)))));
    assert!(!s.state.can_undo());
    assert_eq!(s.state.info().unwrap().frames, 5000);

    let mut s = open_stereo();
    s.trim(0, 5000, "edit.pcm", "t.pcm").unwrap();
    // Six bytes are no samples. The file goes with its entry.
    s.files.borrow_mut().insert("edit.pcm".to_string(), vec![0; 6]);
    assert!(matches!(s.undo(), Err(AudioError::Decode(DecodeError::Malformed(_)))));
    assert!(!s.has("edit.pcm"), "the file of a dropped entry is deleted");
    assert!(s.has("t.pcm"));
    assert!(!s.state.can_undo());
    assert!(s.state.take_discarded().is_empty());
}

#[test]
fn a_trim_whose_file_changed_its_length_is_reopened() {
    let mut s = open_stereo();
    s.trim(0, 5000, "edit.pcm", "t.pcm").unwrap();
    s.files.borrow_mut().insert("edit.pcm".to_string(), vec![0; 16]);
    let dto = s.undo().unwrap();
    assert_eq!((dto.info.channels, dto.info.frames), (2, 2));
    assert_eq!(d(dto.info.duration_s), 2.0 / dto.info.sample_rate as f64);
    assert_eq!(s.state.info().unwrap().frames, 2);
    assert_eq!(s.stats(1, 0, 10).unwrap().n, 2);
    assert!(s.has("edit.pcm") && !s.has("t.pcm"));
}

#[test]
fn nothing_is_stored_for_a_trim_that_changes_nothing() {
    let mut s = open_stereo();
    let never = |_: &[&[u8]]| -> Result<MmapMut, AudioError> { panic!("nothing may be stored") };
    let e = s.state.trim(7, 7, "t.pcm".to_string(), &never, &ops(), &seconds);
    assert!(matches!(e, Err(AudioError::EmptyRange)));
    let whole = s.state.trim(0, usize::MAX, "t.pcm".to_string(), &never, &ops(), &seconds).unwrap();
    assert!(!whole.last_undoable);
    let held = s.state.pcm().unwrap();
    let e = s.state.trim(0, 7, "t.pcm".to_string(), &never, &ops(), &seconds);
    assert!(matches!(e, Err(AudioError::Busy)));
    drop(held);
    s.close();
    let e = s.state.trim(0, 7, "t.pcm".to_string(), &never, &ops(), &seconds);
    assert!(matches!(e, Err(AudioError::NoDocument)));
}

#[test]
fn without_exclusive_access_the_samples_are_in_use() {
    assert!(matches!(edit_with(None, EditOp::Silence, 0, 1, &scale()), Err(AudioError::Busy)));
    assert!(matches!(replace_with(None), Err(AudioError::Busy)));

    let mut cache = PcmCache::open_planar(map_of(&[1, 2, 3, 4, 5, 6, 7, 8]), 1, 8000).unwrap();
    let before = cache.channel(0).to_vec();
    let originals = edit_with(Some(&mut cache), EditOp::Silence, 1, 2, &scale()).unwrap();
    assert_eq!(originals, vec![before[1..].to_vec()]);
    assert_eq!(cache.channel(0), [before[0], 0]);
    assert!(replace_with(Some(&mut cache)).is_ok());

    let mut stack = vec![UndoEntry::Samples { start: 1, channels: originals }];
    assert!(matches!(undo_with(None, &mut stack), Err(AudioError::Busy)));
    assert_eq!(stack.len(), 1);
    assert!(undo_with(Some(&mut cache), &mut stack).unwrap().is_none());
    assert!(stack.is_empty());
    assert_eq!(cache.channel(0), before);
}

#[test]
fn statistics_of_a_document_are_finite() {
    let s = open_sine();
    let st = s.stats(0, 0, 48_000).unwrap();
    for v in [st.start_s, st.duration_s, st.min_pos_s, st.max_pos_s, st.rms, st.dc, st.freq_hz] {
        assert!(d(v).is_finite());
    }
    // 1000 cycles at 2 crossings each, less the one at the very end of the buffer.
    assert_eq!(st.zero_crossings, 1999);
}

#[test]
fn audio_errors_and_edits_describe_themselves() {
    assert_eq!(AudioError::NoDocument.message(), "no audio file is open");
    assert_eq!(AudioError::Busy.message(), "the audio is in use (stop playback first)");
    assert_eq!(AudioError::EmptyRange.message(), "select a range first");
    assert_eq!(AudioError::NothingToUndo.message(), "nothing to undo");
    assert_eq!(AudioError::Decode(DecodeError::Empty).message(), "source decoded to zero frames");
    assert_eq!(
        [EditOp::Normalize, EditOp::FadeIn, EditOp::FadeOut, EditOp::Silence].map(|op| op.name()),
        ["normalize", "fade in", "fade out", "silence"]
    );
}

// ---------- whole sessions ----------

#[test]
fn open_then_drag_a_selection_and_render_the_waveform() {
    // 3 seconds of stereo at 44.1 kHz: a 440 Hz tone left, DC-biased silence right.
    let sr = 44_100u32;
    let frames = (sr * 3) as usize;
    let left: Vec<f32> = (0..frames).map(|i| (2.0 * PI * 440.0 * i as f32 / sr as f32).sin()).collect();
    let right: Vec<f32> = vec![0.25f32; frames];

    let mut s = Session::new();
    let info = s.open(&[left, right], sr, "session.pcm");
    assert_eq!(info.channels, 2);
    assert_eq!(info.sample_rate, sr);
    assert_eq!(info.frames, frames);
    assert!((d(info.duration_s) - 3.0).abs() < 1e-6);

    // Every zoom level has a full-width envelope with the tone's amplitude on the left channel.
    for &bins in &[1usize, 64, 800, 1920] {
        let wf = s.waveform(0, 0, info.frames, bins).unwrap();
        assert_eq!(wf.min.len(), bins, "bins={bins}");
        assert_eq!(wf.max.len(), bins, "bins={bins}");
        assert!(
            wf.max.iter().map(|&v| f(v)).fold(f32::MIN, f32::max) > 0.99,
            "bins={bins}: envelope should reach the tone's peak"
        );
        for (i, (&mn, &mx)) in wf.min.iter().zip(wf.max.iter()).enumerate() {
            assert!(f(mn) <= f(mx), "bins={bins} bin {i}");
        }
    }

    // The DC channel's envelope is flat at its bias everywhere.
    let wf_r = s.waveform(1, 0, info.frames, 128).unwrap();
    assert!(wf_r.min.iter().all(|&v| (f(v) - 0.25).abs() < 1e-6));
    assert!(wf_r.max.iter().all(|&v| (f(v) - 0.25).abs() < 1e-6));

    // Drag a selection open. Each answer describes the selection at that instant.
    let anchor = 1000usize;
    for step in 1..=60 {
        let end = anchor + step * 2000;
        let st = s.stats(0, anchor, end).unwrap();
        assert_eq!(st.n as usize, end - anchor, "step {step}");
        assert!((d(st.duration_s) - (end - anchor) as f64 / sr as f64).abs() < 1e-9, "step {step}");
        assert!((d(st.start_s) - anchor as f64 / sr as f64).abs() < 1e-12);
        assert!((f(st.peak) - 1.0).abs() < 1e-2, "step {step} peak {}", f(st.peak));
        assert!((d(st.rms) - std::f64::consts::FRAC_1_SQRT_2).abs() < 5e-3, "step {step} rms {}", d(st.rms));
        assert!((d(st.freq_hz) - 440.0).abs() < 5.0, "step {step} freq {}", d(st.freq_hz));
    }

    // The same drag on the DC channel reports the bias, no crossings, and no frequency.
    let st_r = s.stats(1, anchor, anchor + 60_000).unwrap();
    assert!((d(st_r.dc) - 0.25).abs() < 1e-6, "dc {}", d(st_r.dc));
    assert!((d(st_r.rms) - 0.25).abs() < 1e-6, "rms {}", d(st_r.rms));
    assert_eq!(st_r.zero_crossings, 0);
    assert_eq!(d(st_r.freq_hz), 0.0);

    // Everything is just another range.
    let all = s.stats(0, 0, info.frames).unwrap();
    assert_eq!(all.n as usize, frames);
    assert!((d(all.dc)).abs() < 1e-3, "whole-file DC of a tone ~ 0");

    s.close();
    assert!(s.state.info().is_none());
    assert!(!s.has("session.pcm"));
    assert!(matches!(s.stats(0, 0, 100), Err(AudioError::NoDocument)));
}

#[test]
fn stats_are_stable_across_repeated_queries_of_the_same_selection() {
    let samples: Vec<f32> = (0..30_000).map(|i| ((i as f32) * 0.01).sin() * 0.8).collect();
    let mut s = Session::new();
    s.open(&[samples], 48_000, "repeat.pcm");

    let first = s.stats(0, 512, 29_000).unwrap();
    for _ in 0..25 {
        assert_eq!(s.stats(0, 512, 29_000).unwrap(), first);
    }
    let wf = s.waveform(0, 512, 29_000, 300).unwrap();
    for _ in 0..5 {
        assert_eq!(drawn(&s.waveform(0, 512, 29_000, 300).unwrap()), drawn(&wf));
    }
}

#[test]
fn a_cache_written_by_open_is_recognised_by_the_sweep() {
    let mut s = Session::new();
    let path = file_name(77, 0);
    s.open(&[vec![0.1f32; 1024]], 8000, &path);
    assert!(s.has(&path));

    // Sweeping as a different process, with everything dead, recognises and reaps it.
    let names: Vec<String> = s.files.borrow().keys().cloned().collect();
    let entries: Vec<Entry> = names.iter().map(|n| Entry { name: Some(n.clone()), is_file: true }).collect();
    let remove = |i: usize| match s.files.borrow_mut().remove(&names[i]) {
        Some(bytes) => Removal::Done(bytes.len() as u64),
        None => Removal::Missing,
    };
    let swept = sweep_at_startup(&entries, 424_242, |_: u32| false, remove);
    assert_eq!(swept.removed, 1, "a cache that was written must be reapable by the sweep");
    assert_eq!(swept.bytes_freed, 4096);
    assert!(!s.has(&path));

    // Closing the document now names a file that is already gone.
    s.close();
    assert!(!s.has(&path));
}

#[test]
fn the_samples_of_a_handle_are_shared() {
    let s = open_sine();
    let (a, b) = (s.state.pcm().unwrap(), s.state.pcm().unwrap());
    assert!(Arc::ptr_eq(&a, &b));
}
