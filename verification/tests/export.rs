use hound::{SampleFormat, WavReader, WavSpec, WavWriter};
use soundforge::export::{export_wav, to_i16, wav_frame, ExportError, SampleKind, WavFormat, WavSample};
use std::io::Cursor;

fn quantize(s: u32) -> i16 {
    (f32::from_bits(s) * 32767.0).round() as i16
}

/// Encodes the channels as a WAV file in memory.
fn encode(channels: &[&[f32]], sample_rate: u32, format: WavFormat) -> Result<Vec<u8>, ExportError> {
    let words: Vec<Vec<u32>> = channels.iter().map(|c| c.iter().map(|v| v.to_bits()).collect()).collect();
    let slices: Vec<&[u32]> = words.iter().map(|c| c.as_slice()).collect();
    let plan = export_wav(&slices, sample_rate, format)?;
    let spec = WavSpec {
        channels: plan.channels,
        sample_rate: plan.sample_rate,
        bits_per_sample: plan.bits_per_sample,
        sample_format: match plan.kind {
            SampleKind::Int => SampleFormat::Int,
            SampleKind::Float => SampleFormat::Float,
        },
    };
    let mut bytes = Vec::new();
    let mut w = WavWriter::new(Cursor::new(&mut bytes), spec).unwrap();
    for f in 0..plan.frames {
        for s in wav_frame(&slices, f, format, &quantize) {
            match s {
                WavSample::Int(i) => w.write_sample(i).unwrap(),
                WavSample::Float(b) => w.write_sample(f32::from_bits(b)).unwrap(),
            }
        }
    }
    w.finalize().unwrap();
    Ok(bytes)
}

/// Reads every sample back as `f32`, interleaved as WAV stores them. Integers are scaled back by
/// full scale.
fn read_back(bytes: &[u8]) -> (WavSpec, Vec<f32>) {
    let mut r = WavReader::new(Cursor::new(bytes)).unwrap();
    let spec = r.spec();
    let samples = match spec.sample_format {
        SampleFormat::Float => r.samples::<f32>().map(|s| s.unwrap()).collect(),
        SampleFormat::Int => r.samples::<i32>().map(|s| s.unwrap() as f32 / 32767.0).collect(),
    };
    (spec, samples)
}

#[test]
fn float32_export_is_a_lossless_round_trip() {
    let mono: Vec<f32> = (0..1000).map(|i| (i as f32 * 0.01).sin() * 0.9).collect();
    let bytes = encode(&[&mono], 48_000, WavFormat::Float32).unwrap();

    let (spec, got) = read_back(&bytes);
    assert_eq!(spec.channels, 1);
    assert_eq!(spec.sample_rate, 48_000);
    assert_eq!(spec.bits_per_sample, 32);
    assert_eq!(spec.sample_format, SampleFormat::Float);
    assert_eq!(got.len(), mono.len());
    for (i, (&g, &w)) in got.iter().zip(mono.iter()).enumerate() {
        assert_eq!(g, w, "sample {i} changed on a lossless export");
    }
}

#[test]
fn stereo_export_interleaves_the_planar_channels() {
    // Distinct constant channels, so that swapped channels or a planar order show.
    let left = vec![0.25f32; 4];
    let right = vec![-0.5f32; 4];
    let bytes = encode(&[&left, &right], 44_100, WavFormat::Float32).unwrap();

    let (spec, got) = read_back(&bytes);
    assert_eq!(spec.channels, 2);
    assert_eq!(got, vec![0.25, -0.5, 0.25, -0.5, 0.25, -0.5, 0.25, -0.5]);
}

#[test]
fn pcm16_quantises_and_reads_back_close() {
    let mono = vec![0.0f32, 0.5, -0.5, 1.0, -1.0];
    let bytes = encode(&[&mono], 8000, WavFormat::Pcm16).unwrap();

    let (spec, got) = read_back(&bytes);
    assert_eq!(spec.bits_per_sample, 16);
    assert_eq!(spec.sample_format, SampleFormat::Int);
    assert_eq!(got.len(), mono.len());
    for (i, (&g, &w)) in got.iter().zip(mono.iter()).enumerate() {
        assert!((g - w).abs() < 2.0 / 32767.0, "sample {i}: {g} vs {w}");
    }
}

#[test]
fn pcm16_clamps_hot_samples_instead_of_wrapping() {
    let mono = vec![1.5f32, -1.5, 2.0, -3.0];
    let bytes = encode(&[&mono], 8000, WavFormat::Pcm16).unwrap();

    let (_spec, got) = read_back(&bytes);
    assert!((got[0] - 1.0).abs() < 1e-4, "positive over-rail: {}", got[0]);
    assert!((got[1] + 1.0).abs() < 1e-4, "negative over-rail: {}", got[1]);
    assert!(got[2] > 0.99, "still positive: {}", got[2]);
    assert!(got[3] < -0.99, "still negative: {}", got[3]);
}

#[test]
fn to_i16_is_symmetric_at_the_rails() {
    let at = |s: f32| to_i16(s.to_bits(), &quantize);
    assert_eq!(at(1.0), 32767);
    assert_eq!(at(-1.0), -32767);
    assert_eq!(at(0.0), 0);
    // Over-rail clamps rather than wrapping.
    assert_eq!(at(9.9), 32767);
    assert_eq!(at(-9.9), -32767);
    // Infinities clamp as well, and what is no number is left to the quantizer.
    assert_eq!(at(f32::INFINITY), 32767);
    assert_eq!(at(f32::NEG_INFINITY), -32767);
    assert_eq!(at(f32::NAN), 0);
}

#[test]
fn a_sub_slice_exports_only_the_selection() {
    let full: Vec<f32> = (0..100).map(|i| i as f32 / 100.0).collect();
    let bytes = encode(&[&full[20..30]], 16_000, WavFormat::Float32).unwrap();

    let (_spec, got) = read_back(&bytes);
    assert_eq!(got.len(), 10);
    assert_eq!(got, full[20..30].to_vec());
}

#[test]
fn no_channels_is_an_error_not_an_empty_file() {
    let empty: &[&[f32]] = &[];
    assert!(matches!(encode(empty, 8000, WavFormat::Float32), Err(ExportError::NoChannels)));
}

#[test]
fn ragged_channels_are_rejected_before_writing() {
    let left = vec![0.1f32; 8];
    let right = vec![0.1f32; 7];
    let err = encode(&[&left, &right], 8000, WavFormat::Float32).unwrap_err();
    assert!(matches!(err, ExportError::RaggedChannels { channel: 1, len: 7, expected: 8 }));
    assert!(!err.message().is_empty());
    assert_eq!(err.message(), "channel 1 has 7 samples, expected 8");
}

#[test]
fn a_zero_length_range_writes_a_valid_empty_wav() {
    let mono: Vec<f32> = Vec::new();
    let bytes = encode(&[&mono], 8000, WavFormat::Float32).unwrap();
    let (spec, got) = read_back(&bytes);
    assert_eq!(spec.channels, 1);
    assert!(got.is_empty());
}

#[test]
fn a_failed_encoder_is_described() {
    assert_eq!(ExportError::Encode("disk full".to_string()).message(), "could not write WAV: disk full");
    assert!(!ExportError::NoChannels.message().is_empty());
    assert_eq!(WavFormat::Pcm16.spec_fields(), (16, SampleKind::Int));
    assert_eq!(WavFormat::Float32.spec_fields(), (32, SampleKind::Float));
}
