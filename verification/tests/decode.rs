use hound::{SampleFormat, WavSpec, WavWriter};
use memmap2::MmapMut;
use soundforge::agg::Arith;
use soundforge::decode::{
    concat_spills, deinterleave, pick_track, sample_bytes, spill_path, DecodeError, DecodeLoop, DecodedAction,
    DecodedEvent, Join, PacketAction, PacketEvent, PcmCache, Track,
};
use soundforge::stats::{RangeStats, Units};
use std::f32::consts::PI;
use std::io::{Cursor, ErrorKind};

fn ops() -> Arith<impl Fn(u64, u64) -> u64, impl Fn(u32) -> (u64, u64)> {
    Arith {
        add: |a: u64, b: u64| (f64::from_bits(a) + f64::from_bits(b)).to_bits(),
        lift: |v: u32| {
            let x = f32::from_bits(v) as f64;
            (x.to_bits(), (x * x).to_bits())
        },
    }
}

fn units() -> Units<impl Fn(u64, u32) -> u64, impl Fn(u64, u64) -> u64, impl Fn(u64) -> u64, impl Fn(u64, u64) -> u64> {
    Units {
        seconds: |n: u64, rate: u32| (n as f64 / rate as f64).to_bits(),
        mean: |x: u64, n: u64| (f64::from_bits(x) / n as f64).to_bits(),
        root: |x: u64| f64::from_bits(x).sqrt().to_bits(),
        frequency: |n: u64, d: u64| (n as f64 / (2.0 * f64::from_bits(d))).to_bits(),
    }
}

/// A 32-bit float WAV file of planar channels.
fn wav(channels: &[Vec<f32>], sample_rate: u32) -> Vec<u8> {
    let spec = WavSpec {
        channels: channels.len() as u16,
        sample_rate,
        bits_per_sample: 32,
        sample_format: SampleFormat::Float,
    };
    let mut bytes = Vec::new();
    let mut w = WavWriter::new(Cursor::new(&mut bytes), spec).unwrap();
    for f in 0..channels[0].len() {
        for ch in channels {
            w.write_sample(ch[f]).unwrap();
        }
    }
    w.finalize().unwrap();
    bytes
}

fn map_of(bytes: &[u8]) -> MmapMut {
    let mut map = MmapMut::map_anon(bytes.len()).unwrap();
    map.copy_from_slice(bytes);
    map
}

fn failed(e: symphonia::core::errors::Error) -> DecodeError {
    DecodeError::Symphonia(e.to_string())
}

/// Decodes an audio file in memory into the bytes of a planar cache and its geometry.
fn decode_bytes(source: Vec<u8>) -> Result<(Vec<u8>, usize, u32), DecodeError> {
    let stream = symphonia::core::io::MediaSourceStream::new(Box::new(Cursor::new(source)), Default::default());
    let probed = symphonia::default::get_probe()
        .format(
            symphonia::core::probe::Hint::new().with_extension("wav"),
            stream,
            &Default::default(),
            &Default::default(),
        )
        .map_err(failed)?;
    let mut format = probed.format;
    let tracks: Vec<Track> = format
        .tracks()
        .iter()
        .map(|t| Track { id: t.id, decodable: t.codec_params.codec != symphonia::core::codecs::CODEC_TYPE_NULL })
        .collect();
    let id = pick_track(&tracks)?;
    let params = format.tracks().iter().find(|t| t.id == id).unwrap().codec_params.clone();
    let mut decoder =
        symphonia::default::get_codecs().make(&params, &Default::default()).map_err(failed)?;

    let mut state = DecodeLoop::new(id);
    let mut spills: Vec<Vec<u8>> = Vec::new();
    let decoded = loop {
        let next = format.next_packet();
        let event = match &next {
            Ok(p) => PacketEvent::Packet(p.track_id()),
            Err(symphonia::core::errors::Error::IoError(e)) if e.kind() == ErrorKind::UnexpectedEof => PacketEvent::End,
            Err(symphonia::core::errors::Error::ResetRequired) => PacketEvent::Reset,
            Err(e) => PacketEvent::Failed(e.to_string()),
        };
        match state.on_packet(event) {
            PacketAction::Decode => {}
            PacketAction::Skip => continue,
            PacketAction::Stop => break Ok(()),
            PacketAction::Fail(e) => break Err(e),
        }
        let audio = decoder.decode(&next.unwrap());
        let event = match &audio {
            Ok(a) => DecodedEvent::Samples { channels: a.spec().channels.count(), sample_rate: a.spec().rate },
            Err(symphonia::core::errors::Error::DecodeError(_)) => DecodedEvent::Corrupt,
            Err(e) => DecodedEvent::Failed(e.to_string()),
        };
        match state.on_decoded(event) {
            DecodedAction::OpenSpills(n) => spills = vec![Vec::new(); n],
            DecodedAction::Append => {}
            DecodedAction::Skip => continue,
            DecodedAction::Fail(e) => break Err(e),
        }
        let audio = audio.unwrap();
        let mut buffer = symphonia::core::audio::SampleBuffer::<f32>::new(audio.capacity() as u64, *audio.spec());
        buffer.copy_interleaved_ref(audio);
        let words: Vec<u32> = buffer.samples().iter().map(|s| s.to_bits()).collect();
        for (spill, lane) in spills.iter_mut().zip(deinterleave(&words, state.channels)) {
            spill.extend_from_slice(sample_bytes(&lane));
        }
    };
    let bytes = match state.finish(decoded, Ok(()))? {
        Join::Rename => spills.remove(0),
        Join::Copy => spills.concat(),
    };
    Ok((bytes, state.channels, state.sample_rate))
}

fn decode(source: Vec<u8>) -> Result<PcmCache, DecodeError> {
    let (bytes, channels, rate) = decode_bytes(source)?;
    PcmCache::open_planar(map_of(&bytes), channels, rate)
}

fn floats(words: &[u32]) -> Vec<f32> {
    words.iter().map(|&w| f32::from_bits(w)).collect()
}

#[test]
fn decode_mono_wav_roundtrip() {
    let sr = 48_000u32;
    let mono: Vec<f32> = (0..4096).map(|i| (2.0 * PI * 440.0 * i as f32 / sr as f32).sin()).collect();

    let pc = decode(wav(std::slice::from_ref(&mono), sr)).unwrap();
    assert_eq!(pc.channels(), 1);
    assert_eq!(pc.sample_rate(), sr);
    assert_eq!(pc.frames(), mono.len());
    assert!(!pc.is_empty());

    let got = floats(pc.channel(0));
    assert_eq!(got.len(), mono.len());
    for (i, (&g, &w)) in got.iter().zip(mono.iter()).enumerate() {
        assert!((g - w).abs() < 1e-6, "sample {i}: {g} vs {w}");
    }
}

#[test]
fn decode_stereo_wav_deinterleaves() {
    let sr = 44_100u32;
    // Two clearly distinct channels, so that a slip in splitting them shows.
    let left: Vec<f32> = (0..3000).map(|i| (i as f32 * 0.001).sin()).collect();
    let right: Vec<f32> = (0..3000).map(|i| -(i as f32 * 0.002).cos()).collect();

    let pc = decode(wav(&[left.clone(), right.clone()], sr)).unwrap();
    assert_eq!(pc.channels(), 2);
    assert_eq!(pc.sample_rate(), sr);
    assert_eq!(pc.frames(), 3000);

    let (gl, gr) = (floats(pc.channel(0)), floats(pc.channel(1)));
    for i in 0..3000 {
        assert!((gl[i] - left[i]).abs() < 1e-6, "L[{i}]");
        assert!((gr[i] - right[i]).abs() < 1e-6, "R[{i}]");
    }
}

#[test]
fn decode_feeds_analyzer() {
    // Exactly 1000 Hz over 1 s at 48 kHz: whole cycles.
    let sr = 48_000u32;
    let mono: Vec<f32> = (0..sr).map(|i| (2.0 * PI * 1000.0 * i as f32 / sr as f32).sin()).collect();

    let pc = decode(wav(std::slice::from_ref(&mono), sr)).unwrap();
    let az = pc.analyzer(0, &ops());
    let st = RangeStats::from_agg(&az.range(0, pc.frames(), &ops()), 0, pc.sample_rate(), &units());
    let (rms, freq) = (f64::from_bits(st.rms), f64::from_bits(st.freq_hz));
    assert!((rms - std::f64::consts::FRAC_1_SQRT_2).abs() < 1e-3, "rms {rms}");
    assert!((freq - 1000.0).abs() < 2.0, "freq {freq}");
}

#[test]
fn open_planar_reopens_written_cache() {
    let sr = 22_050u32;
    let a: Vec<f32> = (0..500).map(|i| i as f32 / 500.0).collect();
    let b: Vec<f32> = (0..500).map(|i| -(i as f32) / 500.0).collect();
    let (bytes, channels, rate) = decode_bytes(wav(&[a.clone(), b.clone()], sr)).unwrap();
    assert_eq!((channels, rate), (2, sr));

    // The raw cache, opened with the same geometry, holds the planar contents.
    let pc = PcmCache::open_planar(map_of(&bytes), 2, sr).unwrap();
    assert_eq!(pc.frames(), 500);
    assert_eq!(floats(pc.channel(0))[499], a[499]);
    assert_eq!(floats(pc.channel(1))[499], b[499]);
}

#[test]
fn open_planar_rejects_malformed_geometry() {
    // A length that is not a whole number of samples.
    let ragged = PcmCache::open_planar(map_of(&[0u8; 6]), 1, 8000).err().unwrap();
    assert!(matches!(&ragged, DecodeError::Malformed(_)));
    assert_eq!(
        ragged.message(),
        "malformed cache: length 6 bytes is not a whole number of 4-byte f32 samples"
    );

    // A whole number of samples, but not divisible by the channel count.
    let odd = PcmCache::open_planar(map_of(&[0u8; 12]), 2, 8000).err().unwrap();
    assert!(matches!(&odd, DecodeError::Malformed(_)));
    assert_eq!(odd.message(), "malformed cache: 3 samples is not divisible by 2 channels");
}

#[test]
fn an_empty_map_is_an_empty_cache() {
    let map = MmapMut::map_anon(0).unwrap();
    assert!(matches!(PcmCache::open_planar(map, 1, 8000), Err(DecodeError::Empty)));
}

#[test]
fn a_write_to_one_channel_leaves_the_others_alone() {
    let bytes: Vec<u8> = (0..24u8).collect();
    let mut pc = PcmCache::open_planar(map_of(&bytes), 2, 8000).unwrap();
    let before = pc.channel(0).to_vec();
    pc.channel_mut(1)[2] = 7;
    assert_eq!(pc.channel(0), before);
    assert_eq!(pc.channel(1)[2], 7);
    assert_eq!(pc.channel(1)[0], u32::from_ne_bytes([12, 13, 14, 15]));
    assert_eq!(&pc.backing()[20..24], 7u32.to_ne_bytes());
}

#[test]
fn what_is_no_audio_cannot_be_decoded() {
    let e = decode(b"this is not audio".to_vec()).err().unwrap();
    assert!(matches!(&e, DecodeError::Symphonia(_)));
    assert!(e.message().starts_with("decode error: "));
}

#[test]
fn the_first_track_with_a_codec_is_decoded() {
    let track = |id: u32, decodable: bool| Track { id, decodable };
    assert_eq!(pick_track(&[track(1, false), track(7, true), track(3, true)]).unwrap(), 7);
    assert!(matches!(pick_track(&[track(1, false)]), Err(DecodeError::NoAudioTrack)));
    assert!(matches!(pick_track(&[]), Err(DecodeError::NoAudioTrack)));
}

#[test]
fn a_decode_stops_where_the_stream_does() {
    let state = DecodeLoop::new(4);
    assert!(matches!(state.on_packet(PacketEvent::Packet(4)), PacketAction::Decode));
    assert!(matches!(state.on_packet(PacketEvent::Packet(5)), PacketAction::Skip));
    assert!(matches!(state.on_packet(PacketEvent::End), PacketAction::Stop));
    assert!(matches!(state.on_packet(PacketEvent::Reset), PacketAction::Stop));
    let failed = state.on_packet(PacketEvent::Failed("torn".to_string()));
    assert!(matches!(failed, PacketAction::Fail(DecodeError::Symphonia(m)) if m == "torn"));
}

#[test]
fn the_first_packet_fixes_the_geometry() {
    let mut state = DecodeLoop::new(0);
    let samples = |channels: usize, sample_rate: u32| DecodedEvent::Samples { channels, sample_rate };
    assert!(matches!(state.on_decoded(DecodedEvent::Corrupt), DecodedAction::Skip));
    assert!(matches!(state.on_decoded(samples(2, 8000)), DecodedAction::OpenSpills(2)));
    assert!(matches!(state.on_decoded(samples(1, 9000)), DecodedAction::Append));
    assert_eq!((state.channels, state.sample_rate), (2, 8000));
    let failed = state.on_decoded(DecodedEvent::Failed("bad".to_string()));
    assert!(matches!(failed, DecodedAction::Fail(DecodeError::Symphonia(_))));
    assert!(matches!(
        DecodeLoop::new(0).on_decoded(samples(0, 8000)),
        DecodedAction::Fail(DecodeError::NoAudioTrack)
    ));
}

#[test]
fn the_first_failure_of_a_decode_is_the_one_reported() {
    let io = || Err(DecodeError::Io("full".to_string()));
    let empty = DecodeLoop::new(0);
    assert!(matches!(empty.finish(Ok(()), Ok(())), Err(DecodeError::Empty)));
    assert!(matches!(empty.finish(Err(DecodeError::NoAudioTrack), io()), Err(DecodeError::NoAudioTrack)));
    assert!(matches!(empty.finish(Ok(()), io()), Err(DecodeError::Io(_))));
    let mut stereo = DecodeLoop::new(0);
    stereo.on_decoded(DecodedEvent::Samples { channels: 2, sample_rate: 8000 });
    assert!(matches!(stereo.finish(Ok(()), Ok(())), Ok(Join::Copy)));
    assert_eq!(concat_spills(1), Join::Rename);
}

#[test]
fn decode_errors_describe_themselves() {
    assert_eq!(DecodeError::Io("gone".to_string()).message(), "i/o error: gone");
    assert_eq!(DecodeError::NoAudioTrack.message(), "no audio track in source");
    assert_eq!(DecodeError::Empty.message(), "source decoded to zero frames");
}

#[test]
fn splitting_keeps_whole_frames_alone() {
    assert_eq!(deinterleave(&[1, 2, 3, 4, 5], 2), vec![vec![1, 3], vec![2, 4]]);
    assert_eq!(deinterleave(&[1], 2), vec![Vec::new(), Vec::<u32>::new()]);
    assert_eq!(sample_bytes(&[1, 2]), [1u32.to_ne_bytes(), 2u32.to_ne_bytes()].concat());
    assert_ne!(spill_path("a", 1), spill_path("a", 11));
}

/// Decode a stereo file whose channels carry clearly different content, and take statistics of
/// each over sub-ranges.
#[test]
fn decode_then_seamless_selection_stats_per_channel() {
    let sr = 48_000u32;
    // One second. Left: a full-scale 1 kHz sine (whole cycles). Right: constant DC.
    let n = sr as usize;
    let left: Vec<f32> = (0..n).map(|i| (2.0 * PI * 1000.0 * i as f32 / sr as f32).sin()).collect();
    let right: Vec<f32> = vec![0.25f32; n];

    let pc = decode(wav(&[left, right], sr)).expect("decode");
    assert_eq!(pc.channels(), 2);
    assert_eq!(pc.sample_rate(), sr);
    assert_eq!(pc.frames(), n);

    let (az_l, az_r) = (pc.analyzer(0, &ops()), pc.analyzer(1, &ops()));
    let d = f64::from_bits;
    let stats = |agg, start: u64| RangeStats::from_agg(&agg, start, sr, &units());

    let full_l = stats(az_l.range(0, n, &ops()), 0);
    assert!((d(full_l.rms) - std::f64::consts::FRAC_1_SQRT_2).abs() < 1e-3, "left rms {}", d(full_l.rms));
    assert!((d(full_l.freq_hz) - 1000.0).abs() < 2.0, "left freq {}", d(full_l.freq_hz));
    assert!(d(full_l.dc).abs() < 1e-3, "left dc {}", d(full_l.dc));

    let full_r = stats(az_r.range(0, n, &ops()), 0);
    assert!((d(full_r.dc) - 0.25).abs() < 1e-4, "right dc {}", d(full_r.dc));
    assert_eq!(full_r.zero_crossings, 0, "DC channel has no crossings");
    assert_eq!(d(full_r.freq_hz), 0.0);

    // Drag a selection over the left channel: each answer matches a direct scan of the samples.
    let raw_left = floats(pc.channel(0));
    for &(s, e) in &[(0usize, 100usize), (12_345, 24_000), (47_000, n), (1, 2)] {
        let st = stats(az_l.range(s, e, &ops()), s as u64);
        let (mut mn, mut mx, mut sum) = (f32::INFINITY, f32::NEG_INFINITY, 0.0f64);
        for &v in &raw_left[s..e] {
            mn = mn.min(v);
            mx = mx.max(v);
            sum += v as f64;
        }
        assert_eq!(st.n, (e - s) as u64, "n for [{s},{e})");
        assert_eq!(f32::from_bits(st.min), mn, "min for [{s},{e})");
        assert_eq!(f32::from_bits(st.max), mx, "max for [{s},{e})");
        assert!((d(st.dc) - sum / (e - s) as f64).abs() < 1e-6, "dc for [{s},{e})");
        assert!((f32::from_bits(st.peak) - mn.abs().max(mx.abs())).abs() < 1e-9);
        assert!((d(st.start_s) - s as f64 / sr as f64).abs() < 1e-12);
    }
}
