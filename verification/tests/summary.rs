use soundforge::agg::{Agg, Arith};
use soundforge::stats::{linear_to_db, RangeStats, Units};
use soundforge::summary::{Analyzer, Pyramid, FANOUT, LEAF};
use std::f32::consts::PI;

fn ops() -> Arith<impl Fn(u64, u64) -> u64, impl Fn(u32) -> (u64, u64)> {
    Arith {
        add: |a: u64, b: u64| (f64::from_bits(a) + f64::from_bits(b)).to_bits(),
        lift: |v: u32| {
            let x = f32::from_bits(v) as f64;
            (x.to_bits(), (x * x).to_bits())
        },
    }
}

fn units() -> Units<impl Fn(u64, u32) -> u64, impl Fn(u64, u64) -> u64, impl Fn(u64) -> u64, impl Fn(u64, u64) -> u64> {
    Units {
        seconds: |n: u64, rate: u32| (n as f64 / rate as f64).to_bits(),
        mean: |x: u64, n: u64| (f64::from_bits(x) / n as f64).to_bits(),
        root: |x: u64| f64::from_bits(x).sqrt().to_bits(),
        frequency: |n: u64, d: u64| (n as f64 / (2.0 * f64::from_bits(d))).to_bits(),
    }
}

fn bits(samples: &[f32]) -> Vec<u32> {
    samples.iter().map(|v| v.to_bits()).collect()
}

fn f(v: u32) -> f32 {
    f32::from_bits(v)
}

fn d(v: u64) -> f64 {
    f64::from_bits(v)
}

fn db(x: f64) -> f64 {
    d(linear_to_db(x.to_bits(), |v: u64| (20.0 * f64::from_bits(v).log10()).to_bits()))
}

/// Tiny deterministic generator (xorshift64), so the tests are reproducible.
struct Rng(u64);
impl Rng {
    fn next_u64(&mut self) -> u64 {
        let mut x = self.0;
        x ^= x << 13;
        x ^= x >> 7;
        x ^= x << 17;
        self.0 = x;
        x
    }
    /// Float in [-1, 1).
    fn next_f32(&mut self) -> f32 {
        (self.next_u64() >> 40) as f32 / (1u64 << 23) as f32 * 2.0 - 1.0
    }
    fn below(&mut self, n: usize) -> usize {
        (self.next_u64() % n as u64) as usize
    }
}

/// A direct scan of a slice: what the pyramid must match.
fn naive(samples: &[u32], start: usize, end: usize) -> Agg {
    Agg::from_samples(&samples[start..end], start as u64, &ops())
}

/// Two aggregates are equal, with a tiny tolerance on the sums: the pyramid adds in another order
/// than a scan from left to right.
fn assert_agg_eq(got: &Agg, want: &Agg) {
    assert_eq!(got.n, want.n, "n");
    assert_eq!(got.min, want.min, "min");
    assert_eq!(got.min_pos, want.min_pos, "min_pos");
    assert_eq!(got.max, want.max, "max");
    assert_eq!(got.max_pos, want.max_pos, "max_pos");
    assert_eq!(got.zero_crossings, want.zero_crossings, "zero_crossings");
    assert_eq!(got.first_nz_sign, want.first_nz_sign, "first_nz_sign");
    assert_eq!(got.last_nz_sign, want.last_nz_sign, "last_nz_sign");
    let tol = 1e-6 * d(want.sum_sq).abs().max(1.0);
    assert!((d(got.sum) - d(want.sum)).abs() < tol, "sum");
    assert!((d(got.sum_sq) - d(want.sum_sq)).abs() < tol, "sum_sq");
}

#[test]
fn pyramid_matches_naive_on_random_ranges() {
    let mut rng = Rng(0x9E3779B97F4A7C15);
    // A few odd sizes to exercise partial leaves and multi-level coverage.
    for &len in &[1usize, LEAF - 1, LEAF, LEAF + 1, 5000, 40_000, 123_457] {
        let samples: Vec<u32> = (0..len)
            .map(|_| {
                let v = rng.next_f32();
                // Sprinkle exact zeros to exercise the nonzero-sign zero-crossing logic.
                if rng.below(11) == 0 {
                    0.0f32.to_bits()
                } else {
                    v.to_bits()
                }
            })
            .collect();
        let az = Analyzer::new(&samples, &ops());

        for _ in 0..200 {
            let a = rng.below(len);
            let b = rng.below(len);
            let (s, e) = (a.min(b), a.max(b) + 1);
            let got = az.range(s, e, &ops());
            let want = naive(&samples, s, e);
            assert_eq!(got.n, want.n, "n len={len} [{s},{e})");
            assert_eq!(got.min, want.min, "min len={len} [{s},{e})");
            assert_eq!(got.min_pos, want.min_pos, "min_pos len={len} [{s},{e})");
            assert_eq!(got.max, want.max, "max len={len} [{s},{e})");
            assert_eq!(got.max_pos, want.max_pos, "max_pos len={len} [{s},{e})");
            assert_eq!(got.zero_crossings, want.zero_crossings, "zc len={len} [{s},{e})");
            assert!((d(got.sum) - d(want.sum)).abs() < 1e-3, "sum len={len} [{s},{e})");
            assert!((d(got.sum_sq) - d(want.sum_sq)).abs() < 1e-3, "sum_sq len={len} [{s},{e})");
        }
    }
}

#[test]
fn full_range_and_edges() {
    let samples: Vec<u32> = (0..10_000).map(|i| ((i as f32) * 0.01).sin().to_bits()).collect();
    let az = Analyzer::new(&samples, &ops());
    assert_agg_eq(&az.range(0, samples.len(), &ops()), &naive(&samples, 0, samples.len()));
    assert_agg_eq(&az.range(0, 1, &ops()), &naive(&samples, 0, 1));
    assert_agg_eq(&az.range(9999, 10_000, &ops()), &naive(&samples, 9999, 10_000));
    assert_eq!(az.range(500, 500, &ops()), Agg::identity()); // empty
    assert_eq!(az.range(5000, 4000, &ops()), Agg::identity()); // reversed -> empty
}

#[test]
fn waveform_bins_match_naive_minmax() {
    let mut rng = Rng(0xDEADBEEFCAFEF00D);
    let samples: Vec<f32> = (0..50_000).map(|_| rng.next_f32()).collect();
    let words = bits(&samples);
    let az = Analyzer::new(&words, &ops());
    let (start, end, bins) = (137usize, 48_913usize, 800usize);
    let got = az.waveform(start, end, bins, &ops());
    assert_eq!(got.len(), bins);
    let span = end - start;
    for (b, &(gmin, gmax)) in got.iter().enumerate() {
        let bs = start + span * b / bins;
        let be = start + span * (b + 1) / bins;
        let (mut wmin, mut wmax) = (f32::INFINITY, f32::NEG_INFINITY);
        for &v in &samples[bs..be] {
            wmin = wmin.min(v);
            wmax = wmax.max(v);
        }
        assert_eq!(f(gmin), wmin, "bin {b} min");
        assert_eq!(f(gmax), wmax, "bin {b} max");
    }
}

#[test]
fn waveform_handles_more_bins_than_samples() {
    let samples = bits(&[0.1f32, -0.2, 0.3]);
    let az = Analyzer::new(&samples, &ops());
    let got = az.waveform(0, 3, 10, &ops());
    assert_eq!(got.len(), 10);
    // Each of the 3 samples lands in its own bin; the rest are empty (0,0).
    assert!(got.iter().filter(|&&(mn, mx)| f(mn) != 0.0 || f(mx) != 0.0).count() <= 3);
}

#[test]
fn with_pyramid_matches_owned_analyzer() {
    let mut rng = Rng(0x5EED_1234_ABCD_9876);
    // Sizes spanning partial leaves, exact leaves, and several pyramid levels.
    for &len in &[1usize, LEAF - 1, LEAF, LEAF + 1, 9_999, 60_000] {
        let samples: Vec<u32> = (0..len).map(|_| rng.next_f32().to_bits()).collect();
        let owned = Analyzer::new(&samples, &ops());
        let pyramid = Pyramid::build(&samples, &ops());
        let borrowed = Analyzer::with_pyramid(&samples, &pyramid);

        for _ in 0..50 {
            let a = rng.below(len);
            let b = rng.below(len);
            let (s, e) = (a.min(b), a.max(b) + 1);
            assert_agg_eq(&borrowed.range(s, e, &ops()), &owned.range(s, e, &ops()));
        }
        assert_eq!(borrowed.waveform(0, len, 64, &ops()), owned.waveform(0, len, 64, &ops()));
        assert_eq!(borrowed.len(), owned.len());
    }
}

#[test]
fn a_pyramid_knows_what_it_was_built_over() {
    let short = bits(&vec![0.5f32; 100]);
    let long = bits(&vec![0.5f32; 10_000]);
    let pyramid = Pyramid::build(&short, &ops());
    assert_eq!(pyramid.len(), 100);
    assert!(!pyramid.is_empty());
    assert_ne!(pyramid.len(), long.len());
    // The matching buffer is of course accepted.
    assert_eq!(Analyzer::with_pyramid(&short, &pyramid).len(), 100);
    let none = Pyramid::build(&[], &ops());
    assert!(none.is_empty());
    assert!(Analyzer::with_pyramid(&[], &none).is_empty());
}

#[test]
fn one_pyramid_serves_many_analyzers() {
    // Build once, query through many short-lived analyzers.
    let samples: Vec<u32> = (0..20_000).map(|i| ((i as f32) * 0.003).sin().to_bits()).collect();
    let pyramid = Pyramid::build(&samples, &ops());
    let want = naive(&samples, 100, 19_000);
    for _ in 0..5 {
        let az = Analyzer::with_pyramid(&samples, &pyramid);
        assert_agg_eq(&az.range(100, 19_000, &ops()), &want);
    }
}

#[test]
fn clamps_out_of_bounds() {
    let samples = bits(&[0.1f32, 0.2, 0.3]);
    let az = Analyzer::new(&samples, &ops());
    assert_eq!(az.range(0, 999, &ops()), naive(&samples, 0, 3));
    assert_eq!(az.range(2, 999, &ops()).n, 1);
}

#[test]
fn a_stale_pyramid_answers_for_whole_leaves() {
    // A pyramid of the right length over other samples goes unnoticed: its leaves answer for the
    // aligned middle, the buffer itself for the ends.
    let old = bits(&vec![0.5f32; 3 * LEAF]);
    let new = bits(&vec![0.25f32; 3 * LEAF]);
    let pyramid = Pyramid::build(&old, &ops());
    let az = Analyzer::with_pyramid(&new, &pyramid);
    let a = az.range(1, 2 * LEAF + 1, &ops());
    assert_eq!((f(a.max), a.max_pos), (0.5, LEAF as u64));
    assert_eq!((f(a.min), a.min_pos), (0.25, 1));
    assert_eq!(f(az.range(0, 10, &ops()).max), 0.25);
}

#[test]
fn the_bins_of_a_waveform_tile_its_range() {
    let samples = bits(&[0.1, -0.2, 0.3, -0.4, 0.5]);
    let az = Analyzer::new(&samples, &ops());
    let got: Vec<(f32, f32)> = az.waveform(0, 5, 2, &ops()).iter().map(|p| (f(p.0), f(p.1))).collect();
    assert_eq!(got, vec![(-0.2, 0.1), (-0.4, 0.5)]);
    assert_eq!(az.waveform(4, 2, 3, &ops()), vec![(0, 0); 3]);
    assert!(az.waveform(0, 5, 0, &ops()).is_empty());
}

#[test]
fn full_scale_sine_has_expected_rms_and_dc() {
    // 1 kHz sine at 48 kHz, exactly 48 periods over 1 s -> whole number of cycles.
    let sr = 48_000u32;
    let n = sr as usize;
    let samples: Vec<u32> =
        (0..n).map(|i| (2.0 * PI * 1000.0 * i as f32 / sr as f32).sin().to_bits()).collect();
    let az = Analyzer::new(&samples, &ops());
    let st = RangeStats::from_agg(&az.range(0, n, &ops()), 0, sr, &units());

    assert!((f(st.peak) - 1.0).abs() < 1e-3, "peak {}", f(st.peak));
    // RMS of a full-scale sine ~ 1/sqrt(2) ~ 0.7071.
    assert!((d(st.rms) - std::f64::consts::FRAC_1_SQRT_2).abs() < 1e-3, "rms {}", d(st.rms));
    // DC offset of a whole number of cycles ~ 0.
    assert!(d(st.dc).abs() < 1e-3, "dc {}", d(st.dc));
    assert!((d(st.duration_s) - 1.0).abs() < 1e-9);
    // Zero-crossing frequency of a 1 kHz sine ~ 1000 Hz.
    assert!((d(st.freq_hz) - 1000.0).abs() < 2.0, "freq {}", d(st.freq_hz));
}

#[test]
fn silence_is_all_zero() {
    let samples = bits(&vec![0.0f32; 4096]);
    let az = Analyzer::new(&samples, &ops());
    let st = RangeStats::from_agg(&az.range(0, samples.len(), &ops()), 0, 44_100, &units());
    assert_eq!(f(st.peak), 0.0);
    assert_eq!(d(st.rms), 0.0);
    assert_eq!(d(st.dc), 0.0);
    assert_eq!(st.zero_crossings, 0);
    assert_eq!(db(f(st.peak) as f64), f64::NEG_INFINITY);
}

#[test]
fn dc_bias_detected() {
    let samples = bits(&vec![0.5f32; 1000]);
    let az = Analyzer::new(&samples, &ops());
    let st = RangeStats::from_agg(&az.range(0, 1000, &ops()), 0, 44_100, &units());
    assert!((d(st.dc) - 0.5).abs() < 1e-6);
    assert!((d(st.rms) - 0.5).abs() < 1e-6);
    assert_eq!(st.zero_crossings, 0);
}

#[test]
fn statistics_carry_times_and_extremes() {
    let samples = bits(&[0.25, -0.75, 0.5, 0.5]);
    let az = Analyzer::new(&samples, &ops());
    let st = RangeStats::from_agg(&az.range(1, 4, &ops()), 1, 4, &units());
    assert_eq!(st.n, 3);
    assert_eq!(d(st.start_s), 0.25);
    assert_eq!(d(st.duration_s), 0.75);
    assert_eq!((f(st.min), d(st.min_pos_s)), (-0.75, 0.25));
    assert_eq!((f(st.max), d(st.max_pos_s)), (0.5, 0.5));
    assert_eq!(f(st.peak), 0.75);
    assert_eq!(d(st.freq_hz), 1.0 / 1.5);
    let none = RangeStats::from_agg(&az.range(2, 2, &ops()), 2, 4, &units());
    assert_eq!((none.n, none.start_s, none.duration_s, none.rms, none.peak), (0, 0, 0, 0, 0));
    assert_eq!((none.min, none.min_pos_s, none.max, none.max_pos_s, none.dc, none.freq_hz), (0, 0, 0, 0, 0, 0));
}

#[test]
fn decibels_of_full_scale_are_zero() {
    assert_eq!(db(1.0), 0.0);
    assert_eq!(db(10.0), 20.0);
    assert_eq!(db(0.0), f64::NEG_INFINITY);
    assert_eq!(db(-0.0), f64::NEG_INFINITY);
    assert_eq!(db(-3.0), f64::NEG_INFINITY);
    assert!(db(f64::NAN).is_nan());
}

/// Arithmetic that tells bracketings apart.
fn ordered() -> Arith<impl Fn(u64, u64) -> u64, impl Fn(u32) -> (u64, u64)> {
    Arith {
        add: |a: u64, b: u64| a.wrapping_mul(31).wrapping_add(b.wrapping_mul(b | 1)).wrapping_add(7),
        lift: |v: u32| (v as u64, (v as u64).wrapping_mul(v as u64)),
    }
}

#[test]
fn a_sum_is_bracketed_by_the_blocks_of_the_pyramid() {
    let ops = ordered();
    let samples: Vec<u32> = (0..10 * LEAF as u32).map(|i| i.wrapping_mul(2_654_435_761)).collect();
    let az = Analyzer::new(&samples, &ops);
    let scan = |from: usize, to: usize| {
        samples[from..to].iter().fold(0u64, |acc, &v| (ops.add)(acc, (ops.lift)(v).0))
    };
    let leaf = |j: usize| scan(j * LEAF, (j + 1) * LEAF);

    // The whole buffer: the first eight leaves as one block, then two leaves.
    let eight = (1..8).fold(leaf(0), |acc, j| (ops.add)(acc, leaf(j)));
    let mut want = (ops.add)(eight, leaf(8));
    want = (ops.add)(want, leaf(9));
    assert_eq!(az.range(0, samples.len(), &ops).sum, want);

    // An unaligned start: a head, the leaves one by one up to the end of the eighth, and a tail.
    let (start, end) = (5, 8 * LEAF + 17);
    let mut want = scan(start, LEAF);
    for j in 1..8 {
        want = (ops.add)(want, leaf(j));
    }
    want = (ops.add)(want, scan(8 * LEAF, end));
    assert_eq!(az.range(start, end, &ops).sum, want);

    // No whole leaf: one scan.
    assert_eq!(az.range(5, LEAF + 900, &ops).sum, scan(5, LEAF + 900));
}

#[test]
fn a_query_takes_few_additions_whatever_its_range() {
    let adds = std::cell::Cell::new(0usize);
    let ops = Arith {
        add: |a: u64, b: u64| {
            adds.set(adds.get() + 1);
            a.wrapping_add(b)
        },
        lift: |v: u32| (v as u64, v as u64),
    };
    let n = 1usize << 20;
    let samples: Vec<u32> = vec![1; n];
    let az = Analyzer::new(&samples, &ops);
    // A million samples make 1024 leaves and five levels.
    let levels = 5;
    for &(start, end) in &[(0, n), (1, n - 1), (1023, n), (1025, n - 1025), (500_000, 500_001), (7, 900_001)] {
        adds.set(0);
        let r = az.range(start, end, &ops);
        assert_eq!(r.sum, (end - start) as u64);
        // Two sums for each sample of the head and the tail and for each block.
        assert!(adds.get() <= 2 * (2 * LEAF + 2 * FANOUT * levels + 1), "[{start},{end}): {}", adds.get());
    }
}
