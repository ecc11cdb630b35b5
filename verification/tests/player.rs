use memmap2::MmapMut;
use soundforge::decode::PcmCache;
use soundforge::player::{
    choose_output, commanded, ending_of, idle_dto, next_action, next_step, pick_config, play_range, playback_ring, pump,
    render, ring_capacity, started, take_count, Action, Chosen, Cmd, ConfigRange, Cursor, Ending, Event, Heard, Launch,
    Mixer, PlayError, PlayState, Shared, Source, Step,
};
use std::f32::consts::PI;
use std::sync::Arc;

/// A cache over planar channel data.
fn pcm(channels: &[Vec<f32>], sample_rate: u32) -> Arc<PcmCache> {
    let mut bytes = Vec::new();
    for ch in channels {
        for s in ch {
            bytes.extend_from_slice(&s.to_ne_bytes());
        }
    }
    let mut map = MmapMut::map_anon(bytes.len()).unwrap();
    map.copy_from_slice(&bytes);
    Arc::new(PcmCache::open_planar(map, channels.len(), sample_rate).unwrap())
}

/// `0, 1, 2, ...` — every frame identifiable, so a mapping or ordering slip is obvious.
fn ramp(n: usize) -> Vec<f32> {
    (0..n).map(|i| i as f32).collect()
}

fn mixer() -> Mixer<impl Fn(u32, u32, u32) -> u32, impl Fn(u32, u32) -> u32, impl Fn(u32, usize) -> u32> {
    Mixer {
        blend: |a: u32, b: u32, t: u32| {
            let (a, b, t) = (f32::from_bits(a), f32::from_bits(b), f32::from_bits(t));
            (a + (b - a) * t).to_bits()
        },
        sum: |a: u32, b: u32| (f32::from_bits(a) + f32::from_bits(b)).to_bits(),
        share: |a: u32, n: usize| (f32::from_bits(a) / n as f32).to_bits(),
    }
}

fn step(pos: u64, ratio: u64) -> Cursor {
    let p = f64::from_bits(pos) + f64::from_bits(ratio);
    let frame = p as usize;
    Cursor { pos: p.to_bits(), frame, frac: ((p - frame as f64) as f32).to_bits() }
}

fn over(a: u32, b: u32) -> u64 {
    (a as f64 / b as f64).to_bits()
}

/// A source with the arithmetic that it is played with.
struct Playing {
    src: Source,
}

fn source(cache: Arc<PcmCache>, start: usize, end: usize, channels: usize, rate: u32) -> Playing {
    Playing { src: Source::new(cache, start, end, channels, rate, (start as f64).to_bits(), &over) }
}

impl Playing {
    fn fill(&mut self, out: &mut [f32]) -> usize {
        let mut words: Vec<u32> = out.iter().map(|v| v.to_bits()).collect();
        let n = self.src.fill(&mut words, &step, &mixer());
        for (v, w) in out.iter_mut().zip(words) {
            *v = f32::from_bits(w);
        }
        n
    }
    fn finished(&self) -> bool {
        self.src.finished()
    }
    fn pump(&mut self, prod: &mut rtrb::Producer<u32>, shared: &mut Shared) {
        if pump(prod, &mut self.src, &step, &mixer()) {
            shared.feed_done = true;
        }
    }
}

fn play_out(cons: &mut rtrb::Consumer<u32>, out: &mut [f32], shared: &mut Shared) {
    let mut words: Vec<u32> = out.iter().map(|v| v.to_bits()).collect();
    let done = shared.feed_done;
    let rendered = render(cons, &mut words, shared.dev_channels, &|| done);
    shared.note(rendered);
    for (v, w) in out.iter_mut().zip(words) {
        *v = f32::from_bits(w);
    }
}

fn shared_for(dev_channels: usize, start: u64, end: u64, ratio: f64, rate: u32) -> Shared {
    let mut s = Shared::new(dev_channels, start, end, ratio.to_bits(), rate);
    s.state = PlayState::Playing;
    s
}

fn advanced(played: u64, ratio: u64) -> u64 {
    (played as f64 * f64::from_bits(ratio)) as u64
}

fn position(shared: &Shared) -> u64 {
    shared.position_frames(&advanced)
}

fn seconds(n: u64, rate: u32) -> u64 {
    (n as f64 / rate as f64).to_bits()
}

// ---------- Source: channel mapping ----------

#[test]
fn matched_stereo_is_copied_frame_for_frame() {
    let cache = pcm(&[ramp(4), vec![-1.0, -2.0, -3.0, -4.0]], 48_000);
    let mut src = source(cache, 0, 4, 2, 48_000);
    let mut out = [0.0f32; 8];
    assert_eq!(src.fill(&mut out), 4);
    assert_eq!(out, [0.0, -1.0, 1.0, -2.0, 2.0, -3.0, 3.0, -4.0]);
    assert!(src.finished());
}

#[test]
fn mono_file_is_duplicated_to_every_device_channel() {
    // Playing a mono file on a stereo device must be heard from both speakers, not one.
    let cache = pcm(&[vec![0.5, -0.5]], 48_000);
    let mut src = source(cache, 0, 2, 2, 48_000);
    let mut out = [0.0f32; 4];
    assert_eq!(src.fill(&mut out), 2);
    assert_eq!(out, [0.5, 0.5, -0.5, -0.5]);
}

#[test]
fn stereo_on_a_mono_device_is_downmixed_not_truncated() {
    // Dropping the right channel would silently lose half the mix.
    let cache = pcm(&[vec![1.0, 0.0], vec![0.0, 0.5]], 48_000);
    let mut src = source(cache, 0, 2, 1, 48_000);
    let mut out = [0.0f32; 2];
    assert_eq!(src.fill(&mut out), 2);
    assert_eq!(out, [0.5, 0.25]);
}

#[test]
fn a_file_with_more_channels_than_the_device_keeps_the_first_ones() {
    let cache = pcm(&[vec![1.0], vec![2.0], vec![3.0], vec![4.0]], 48_000);
    let mut src = source(cache, 0, 1, 2, 48_000);
    let mut out = [0.0f32; 2];
    assert_eq!(src.fill(&mut out), 1);
    assert_eq!(out, [1.0, 2.0]);
}

// ---------- Source: range ----------

#[test]
fn only_the_requested_range_is_played() {
    let cache = pcm(&[ramp(100)], 48_000);
    let mut src = source(cache, 10, 14, 1, 48_000);
    let mut out = [0.0f32; 16];
    assert_eq!(src.fill(&mut out), 4, "must stop at the end of the range");
    assert_eq!(out[..4], [10.0, 11.0, 12.0, 13.0]);
    assert!(src.finished());
    // Past the end there is nothing more, and nothing is overwritten.
    assert_eq!(src.fill(&mut out), 0);
}

#[test]
fn a_short_fill_leaves_the_rest_of_the_buffer_untouched() {
    let cache = pcm(&[ramp(3)], 48_000);
    let mut src = source(cache, 0, 3, 1, 48_000);
    let mut out = [-99.0f32; 6];
    assert_eq!(src.fill(&mut out), 3);
    assert_eq!(out[3..], [-99.0, -99.0, -99.0]);
}

#[test]
fn fill_across_several_calls_is_continuous() {
    let cache = pcm(&[ramp(6)], 48_000);
    let mut src = source(cache, 0, 6, 1, 48_000);
    let mut a = [0.0f32; 4];
    let mut b = [0.0f32; 4];
    assert_eq!(src.fill(&mut a), 4);
    assert_eq!(src.fill(&mut b), 2);
    assert_eq!(a, [0.0, 1.0, 2.0, 3.0]);
    assert_eq!(b[..2], [4.0, 5.0]);
}

#[test]
fn a_partial_frame_at_the_end_of_the_buffer_is_left_alone() {
    let cache = pcm(&[ramp(4), ramp(4)], 48_000);
    let mut src = source(cache, 0, 4, 2, 48_000);
    let mut out = [-9.0f32; 5];
    assert_eq!(src.fill(&mut out), 2);
    assert_eq!(out, [0.0, 0.0, 1.0, 1.0, -9.0]);
}

// ---------- Source: resampling ----------

#[test]
fn a_matched_rate_needs_no_interpolation() {
    let cache = pcm(&[ramp(8)], 44_100);
    let src = source(cache, 0, 8, 2, 44_100);
    assert_eq!(f64::from_bits(src.src.ratio()), 1.0);
}

#[test]
fn downsampling_a_ramp_interpolates_linearly() {
    // 4 kHz source on an 8 kHz device: ratio 0.5, so every other frame is a midpoint.
    let cache = pcm(&[ramp(4)], 4_000);
    let mut src = source(cache, 0, 4, 1, 8_000);
    let mut out = [0.0f32; 8];
    assert_eq!(src.fill(&mut out), 8);
    assert_eq!(out, [0.0, 0.5, 1.0, 1.5, 2.0, 2.5, 3.0, 3.0]);
    // The last frame holds rather than interpolating past the range.
}

#[test]
fn resampling_preserves_duration_and_frequency() {
    // The real risk in resampling is playing at the wrong speed. A 100 Hz sine at 8 kHz played on a
    // 48 kHz device must still be 100 Hz and still last 1 s.
    let sr = 8_000;
    let sine: Vec<f32> = (0..sr).map(|i| (2.0 * PI * 100.0 * i as f32 / sr as f32).sin()).collect();
    let cache = pcm(&[sine], sr as u32);
    let mut src = source(cache, 0, sr, 1, 48_000);
    let mut out = vec![0.0f32; 48_000 * 2];
    let frames = src.fill(&mut out);

    // 1 s at 48 kHz, within a frame of rounding.
    assert!((frames as i64 - 48_000).abs() <= 1, "expected ~48000 device frames, got {frames}");
    // Count zero crossings: 100 Hz for 1 s is 200, less the one at the buffer's end.
    let zc = out[..frames].windows(2).filter(|w| (w[0] < 0.0) != (w[1] < 0.0)).count();
    assert!((zc as i64 - 199).abs() <= 2, "frequency drifted: {zc} crossings");
    // Interpolation must not manufacture gain.
    let peak = out[..frames].iter().fold(0.0f32, |m, s| m.max(s.abs()));
    assert!((peak - 1.0).abs() < 0.01, "peak {peak}");
}

#[test]
fn resampling_starts_at_the_right_offset() {
    let cache = pcm(&[ramp(100)], 4_000);
    let mut src = source(cache, 20, 24, 1, 8_000);
    let mut out = [0.0f32; 8];
    assert_eq!(src.fill(&mut out), 8);
    assert_eq!(out[0], 20.0, "playback must begin at the range start");
}

// ---------- ring: pump + render ----------

#[test]
fn player_ring_capacity_is_a_whole_number_of_frames() {
    // A ring splits at its end, so an unaligned capacity would rotate the channels on every wrap.
    for (rate, ch) in [(48_000, 2), (44_100, 2), (44_100, 1), (96_000, 6)] {
        let cap = ring_capacity(rate, ch);
        assert_eq!(cap % ch, 0, "{rate} Hz / {ch} ch");
        assert!(cap >= ch);
    }
    assert_eq!(ring_capacity(48_000, 2), 24_000);
    assert_eq!(ring_capacity(44_101, 1), 11_026);
    assert_eq!(ring_capacity(0, 3), 3);
    assert_eq!(playback_ring(48_000, 2).0.slots(), 24_000);
}

#[test]
fn pump_then_render_reproduces_the_source_exactly() {
    let cache = pcm(&[ramp(64), ramp(64)], 48_000);
    let mut src = source(Arc::clone(&cache), 0, 64, 2, 48_000);
    let mut shared = shared_for(2, 0, 64, 1.0, 48_000);
    let (mut prod, mut cons) = rtrb::RingBuffer::<u32>::new(32);

    let mut heard = Vec::new();
    let mut out = [0.0f32; 6];
    for _ in 0..40 {
        src.pump(&mut prod, &mut shared);
        play_out(&mut cons, &mut out, &mut shared);
        heard.extend_from_slice(&out);
    }
    // Everything the source held, in order, interleaved.
    let want: Vec<f32> = (0..64).flat_map(|i| [i as f32, i as f32]).collect();
    assert_eq!(&heard[..want.len()], &want[..]);
    assert_eq!(shared.state, PlayState::Finished);
}

#[test]
fn the_ring_stays_frame_aligned_across_many_wraps() {
    // A ring smaller than the data, cycled many times with an awkward callback size: if a wrap ever
    // split a frame, the two channels would swap for the rest of the stream.
    let left: Vec<f32> = (0..500).map(|i| i as f32).collect();
    let right: Vec<f32> = (0..500).map(|i| -(i as f32)).collect();
    let cache = pcm(&[left, right], 48_000);
    let mut src = source(cache, 0, 500, 2, 48_000);
    let mut shared = shared_for(2, 0, 500, 1.0, 48_000);
    let (mut prod, mut cons) = rtrb::RingBuffer::<u32>::new(ring_capacity(48_000, 2).min(26));

    let mut heard = Vec::new();
    let mut out = [0.0f32; 14]; // 7 frames: not a divisor of the ring
    while shared.state != PlayState::Finished {
        src.pump(&mut prod, &mut shared);
        play_out(&mut cons, &mut out, &mut shared);
        heard.extend_from_slice(&out);
    }
    for f in 0..500 {
        assert_eq!(heard[f * 2], f as f32, "left channel at frame {f}");
        assert_eq!(heard[f * 2 + 1], -(f as f32), "right channel at frame {f}");
    }
}

#[test]
fn render_reports_the_playhead_in_source_frames() {
    let cache = pcm(&[ramp(100)], 48_000);
    let mut src = source(cache, 10, 90, 1, 48_000);
    let mut shared = shared_for(1, 10, 90, 1.0, 48_000);
    let (mut prod, mut cons) = rtrb::RingBuffer::<u32>::new(64);

    assert_eq!(position(&shared), 10, "playhead starts at the range start");
    src.pump(&mut prod, &mut shared);
    let mut out = [0.0f32; 20];
    play_out(&mut cons, &mut out, &mut shared);
    // The playhead follows what reached the device, not what the feeder has queued.
    assert_eq!(position(&shared), 30);
    let dto = shared.dto(&advanced, &seconds);
    assert_eq!(f64::from_bits(dto.position_s), 30.0 / 48_000.0);
}

#[test]
fn the_playhead_tracks_the_source_rate_not_the_device_rate() {
    // 4 kHz file on an 8 kHz device: 100 device frames is 50 source frames.
    let cache = pcm(&[ramp(200)], 4_000);
    let mut src = source(cache, 0, 200, 1, 8_000);
    let mut shared = shared_for(1, 0, 200, 0.5, 4_000);
    let (mut prod, mut cons) = rtrb::RingBuffer::<u32>::new(256);
    src.pump(&mut prod, &mut shared);
    let mut out = [0.0f32; 100];
    play_out(&mut cons, &mut out, &mut shared);
    assert_eq!(position(&shared), 50);
}

#[test]
fn the_playhead_never_runs_past_the_end_of_the_range() {
    let cache = pcm(&[ramp(10)], 48_000);
    let mut src = source(cache, 0, 10, 1, 48_000);
    let mut shared = shared_for(1, 0, 10, 1.0, 48_000);
    let (mut prod, mut cons) = rtrb::RingBuffer::<u32>::new(64);
    src.pump(&mut prod, &mut shared);
    let mut out = [0.0f32; 40];
    play_out(&mut cons, &mut out, &mut shared);
    assert_eq!(position(&shared), 10);
    assert_eq!(shared.dto(&advanced, &seconds).end_frame, 10);
    // Nor where the frames that were heard cannot be added to its start.
    shared.start_frame = 5;
    assert_eq!(shared.position_frames(&|_: u64, _: u64| u64::MAX), 10);
}

#[test]
fn an_underrun_yields_silence_and_is_counted() {
    // A starved callback must play silence, not stale audio, and must not claim the playhead
    // advanced through sound nobody heard.
    let cache = pcm(&[ramp(100)], 48_000);
    let mut src = source(cache, 0, 100, 1, 48_000);
    let mut shared = shared_for(1, 0, 100, 1.0, 48_000);
    let (mut prod, mut cons) = rtrb::RingBuffer::<u32>::new(8);
    src.pump(&mut prod, &mut shared); // only 8 samples available

    let mut out = [-99.0f32; 12];
    play_out(&mut cons, &mut out, &mut shared);
    assert_eq!(out[..8], ramp(8)[..]);
    assert_eq!(out[8..], [0.0; 4], "the gap must be silence");
    assert_eq!(shared.underruns, 1);
    assert_eq!(position(&shared), 8, "silence must not move the playhead");
    assert_eq!(shared.state, PlayState::Playing, "an underrun is not the end");
}

#[test]
fn finishing_is_not_reported_as_an_underrun() {
    let cache = pcm(&[ramp(4)], 48_000);
    let mut src = source(cache, 0, 4, 1, 48_000);
    let mut shared = shared_for(1, 0, 4, 1.0, 48_000);
    let (mut prod, mut cons) = rtrb::RingBuffer::<u32>::new(16);
    src.pump(&mut prod, &mut shared);
    assert!(shared.feed_done);

    let mut out = [0.0f32; 8];
    play_out(&mut cons, &mut out, &mut shared);
    assert_eq!(shared.state, PlayState::Finished);
    assert_eq!(shared.underruns, 0, "running out of range is not a dropout");
}

#[test]
fn a_playback_is_not_finished_while_samples_are_in_the_ring() {
    // Three samples are no whole number of stereo frames: one stays, and the end is not reached.
    let (mut prod, mut cons) = rtrb::RingBuffer::<u32>::new(8);
    prod.push_entire_slice(&[1, 2, 3]).unwrap();
    let mut out = [9u32; 4];
    let r = render(&mut cons, &mut out, 2, &|| true);
    assert_eq!((r.frames, r.ending), (1, Ending::Starved));
    assert_eq!(out, [1, 2, 0, 0]);
    prod.push_entire_slice(&[4]).unwrap();
    let r = render(&mut cons, &mut out, 2, &|| true);
    assert_eq!((r.frames, r.ending), (1, Ending::Finished));
    assert_eq!(out, [3, 4, 0, 0]);
}

#[test]
fn a_full_ring_is_not_overfilled() {
    let cache = pcm(&[ramp(1000)], 48_000);
    let mut src = source(cache, 0, 1000, 1, 48_000);
    let mut shared = shared_for(1, 0, 1000, 1.0, 48_000);
    let (mut prod, mut cons) = rtrb::RingBuffer::<u32>::new(16);
    for _ in 0..5 {
        src.pump(&mut prod, &mut shared);
    }
    assert_eq!(prod.slots(), 0);
    assert!(!shared.feed_done, "the source is not exhausted");
    // Nothing was lost: the ring holds the first 16 samples in order.
    let mut out = [0.0f32; 16];
    play_out(&mut cons, &mut out, &mut shared);
    assert_eq!(out, ramp(16)[..]);
}

#[test]
fn a_callback_takes_whole_frames_alone() {
    assert_eq!(take_count(7, 100, 2), 6);
    assert_eq!(take_count(100, 7, 2), 6);
    assert_eq!(take_count(1, 8, 2), 0);
    assert_eq!(ending_of(true, true, true), Ending::Full);
    assert_eq!(ending_of(false, true, true), Ending::Finished);
    assert_eq!(ending_of(false, true, false), Ending::Starved);
    assert_eq!(ending_of(false, false, true), Ending::Starved);
}

// ---------- device config choice ----------

#[test]
fn the_files_own_rate_is_preferred_so_no_resampling_happens() {
    let ranges = [ConfigRange { channels: 2, min_rate: 44_100, max_rate: 96_000, is_f32: true }];
    assert_eq!(pick_config(&ranges, 44_100), Some(Chosen { channels: 2, sample_rate: 44_100 }));
}

#[test]
fn an_unsupported_rate_falls_back_to_the_nearest_supported_one() {
    let ranges = [ConfigRange { channels: 2, min_rate: 48_000, max_rate: 48_000, is_f32: true }];
    // 8 kHz cannot be played natively; the device runs at 48 kHz and the source resamples.
    assert_eq!(pick_config(&ranges, 8_000), Some(Chosen { channels: 2, sample_rate: 48_000 }));
}

#[test]
fn an_exact_rate_beats_a_nicer_channel_count() {
    let ranges = [
        ConfigRange { channels: 2, min_rate: 48_000, max_rate: 48_000, is_f32: true },
        ConfigRange { channels: 8, min_rate: 44_100, max_rate: 44_100, is_f32: true },
    ];
    assert_eq!(pick_config(&ranges, 44_100), Some(Chosen { channels: 8, sample_rate: 44_100 }));
}

#[test]
fn stereo_is_preferred_among_equally_good_rates() {
    let ranges = [
        ConfigRange { channels: 8, min_rate: 44_100, max_rate: 48_000, is_f32: true },
        ConfigRange { channels: 2, min_rate: 44_100, max_rate: 48_000, is_f32: true },
        ConfigRange { channels: 1, min_rate: 44_100, max_rate: 48_000, is_f32: true },
    ];
    assert_eq!(pick_config(&ranges, 48_000), Some(Chosen { channels: 2, sample_rate: 48_000 }));
}

#[test]
fn non_f32_configs_are_ignored() {
    let ranges = [
        ConfigRange { channels: 2, min_rate: 44_100, max_rate: 44_100, is_f32: false },
        ConfigRange { channels: 6, min_rate: 96_000, max_rate: 96_000, is_f32: true },
    ];
    // The i16 stereo range at the exact rate must not win: we only render f32.
    assert_eq!(pick_config(&ranges, 44_100), Some(Chosen { channels: 6, sample_rate: 96_000 }));
    assert_eq!(pick_config(&ranges[..1], 44_100), None, "no f32 range at all");
    assert_eq!(pick_config(&[], 44_100), None);
}

#[test]
fn fewer_channels_win_a_tie_and_the_first_range_wins_a_full_one() {
    let range = |channels: u16, max_rate: u32| ConfigRange { channels, min_rate: 8_000, max_rate, is_f32: true };
    // One and three channels are equally far from stereo.
    assert_eq!(pick_config(&[range(3, 48_000), range(1, 48_000)], 48_000).unwrap().channels, 1);
    let first = ConfigRange { channels: 2, min_rate: 96_000, max_rate: 96_000, is_f32: true };
    let second = ConfigRange { channels: 2, min_rate: 88_200, max_rate: 88_200, is_f32: true };
    // The nearer of two rates is taken, wherever it stands in the list.
    assert_eq!(pick_config(&[first, second], 44_100).unwrap().sample_rate, 88_200);
    assert_eq!(pick_config(&[second, first], 44_100).unwrap().sample_rate, 88_200);
    let lower = ConfigRange { channels: 2, min_rate: 40_000, max_rate: 44_000, is_f32: true };
    let upper = ConfigRange { channels: 2, min_rate: 44_200, max_rate: 48_000, is_f32: true };
    assert_eq!(pick_config(&[lower, upper], 44_100).unwrap().sample_rate, 44_000);
    assert_eq!(pick_config(&[upper, lower], 44_100).unwrap().sample_rate, 44_200);
    // Empty ranges are passed over.
    assert_eq!(pick_config(&[range(2, 4_000), range(0, 48_000)], 8_000), None);
    assert!(matches!(choose_output(&[], 8_000), Err(PlayError::NoF32Config)));
    assert_eq!(choose_output(&[first], 1).unwrap(), Chosen { channels: 2, sample_rate: 96_000 });
}

#[test]
fn the_nearest_supported_rate_is_used() {
    let at = |rate: u32| ConfigRange { channels: 2, min_rate: rate, max_rate: rate, is_f32: true };
    let nearest = Some(Chosen { channels: 2, sample_rate: 48_000 });
    assert_eq!(pick_config(&[at(96_000), at(48_000)], 44_100), nearest);
    assert_eq!(pick_config(&[at(48_000), at(96_000)], 44_100), nearest);
    assert_eq!(pick_config(&[at(8_000), at(48_000), at(22_050)], 44_100), nearest);
}

// ---------- transport ----------

#[test]
fn an_idle_player_reports_stopped_without_a_device() {
    let dto = idle_dto();
    assert_eq!(dto.state, PlayState::Stopped);
    assert_eq!(dto.position_frames, 0);
    assert_eq!(idle_dto().state, PlayState::Stopped);
}

#[test]
fn playing_an_empty_range_is_an_error_not_a_silent_stream() {
    let cache = pcm(&[ramp(10)], 48_000);
    assert!(matches!(play_range(cache.frames(), 5, 5), Err(PlayError::EmptyRange)));
    assert!(matches!(play_range(cache.frames(), 9, 3), Err(PlayError::EmptyRange)));
    // A range entirely past the end clamps to empty rather than reading out of bounds.
    assert!(matches!(play_range(cache.frames(), 100, 200), Err(PlayError::EmptyRange)));
    assert_eq!(play_range(cache.frames(), 3, 200).unwrap(), (3, 10));
}

#[test]
fn play_state_round_trips_through_its_atomic_encoding() {
    for s in [PlayState::Stopped, PlayState::Playing, PlayState::Paused, PlayState::Finished] {
        assert_eq!(PlayState::from_u8(s.as_u8()), s);
    }
    assert_eq!(PlayState::from_u8(200), PlayState::Stopped);
}

#[test]
fn player_errors_all_describe_themselves() {
    for e in [
        PlayError::NoDocument,
        PlayError::NoDevice,
        PlayError::NoF32Config,
        PlayError::EmptyRange,
        PlayError::Device("boom".into()),
    ] {
        assert!(!e.message().is_empty());
    }
    assert_eq!(PlayError::Device("boom".into()).message(), "audio device error: boom");
    assert_eq!(PlayError::EmptyRange.message(), "nothing to play: the range is empty");
}

#[test]
fn a_playback_fills_its_ring_before_the_device_starts() {
    assert!(matches!(next_step(Launch::Begun), Step::Fill));
    assert!(matches!(next_step(Launch::Filled), Step::Build));
    assert!(matches!(next_step(Launch::Built(Ok(()))), Step::Start));
    assert!(matches!(next_step(Launch::Started(Ok(()))), Step::Show(PlayState::Playing)));
    assert!(matches!(next_step(Launch::Told { heard: true }), Step::Serve));
    assert!(matches!(next_step(Launch::Told { heard: false }), Step::Leave));
    for refused in [Launch::Built(Err("no".to_string())), Launch::Started(Err("no".to_string()))] {
        match next_step(refused) {
            Step::Fail(e) => assert_eq!(e.message(), "audio device error: no"),
            other => panic!("{other:?}"),
        }
    }
}

#[test]
fn commands_turn_the_playback_thread() {
    let heard = |cmd| next_action(Event::Heard(Heard::Command(cmd)));
    assert_eq!(heard(Cmd::Stop), Action::Leave);
    assert_eq!(heard(Cmd::Pause), Action::Pause);
    assert_eq!(heard(Cmd::Resume), Action::Resume);
    assert_eq!(next_action(Event::Heard(Heard::Closed)), Action::Leave);
    assert_eq!(next_action(Event::Heard(Heard::Nothing)), Action::Look);
    assert_eq!(next_action(Event::Obeyed { feed_done: false }), Action::Feed);
    assert_eq!(next_action(Event::Obeyed { feed_done: true }), Action::See);
    assert_eq!(next_action(Event::Fed { state: PlayState::Paused }), Action::Wait);
    assert_eq!(next_action(Event::Fed { state: PlayState::Finished }), Action::Leave);
    // A finished playback stays finished, and a command that was not sent changes nothing.
    assert_eq!(commanded(PlayState::Playing, true, PlayState::Paused), PlayState::Paused);
    assert_eq!(commanded(PlayState::Playing, false, PlayState::Paused), PlayState::Playing);
    assert_eq!(commanded(PlayState::Finished, true, PlayState::Playing), PlayState::Finished);
    assert!(started(Some(Ok(()))).is_ok());
    assert!(matches!(started(Some(Err(PlayError::NoDevice))), Err(PlayError::NoDevice)));
    assert_eq!(started(None).unwrap_err().message(), "audio device error: playback thread died on startup");
}
