use soundforge::capture::CaptureWriter;
use soundforge::decode::{sample_bytes, DecodeError, Join};
use soundforge::player::{Chosen, ConfigRange};
use soundforge::recorder::{
    choose_input, drain, idle_dto, ingest, next_action, next_step, pick_record_config, record_ring, ring_capacity,
    started, stopped, take_of, Action, Cmd, Event, Heard, Launch, RecordDto, RecordError, Stage, Step,
};

fn f32_range(channels: u16, min: u32, max: u32) -> ConfigRange {
    ConfigRange { channels, min_rate: min, max_rate: max, is_f32: true }
}

fn bits(samples: &[f32]) -> Vec<u32> {
    samples.iter().map(|v| v.to_bits()).collect()
}

/// A writer whose spills are kept in memory.
struct Take {
    writer: CaptureWriter,
    spills: Vec<Vec<u8>>,
}

fn take(channels: usize, rate: u32) -> Take {
    Take {
        writer: CaptureWriter::new("take.cache".to_string(), channels, rate),
        spills: vec![Vec::new(); channels],
    }
}

impl Take {
    fn drain(&mut self, cons: &mut rtrb::Consumer<u32>) -> Result<usize, DecodeError> {
        let batch = drain(cons, &self.writer);
        for (spill, lane) in self.spills.iter_mut().zip(&batch) {
            spill.extend_from_slice(sample_bytes(lane));
        }
        self.writer.pushed(&batch, Ok(()))
    }
    fn channel(&self, ch: usize) -> Vec<f32> {
        self.spills[ch].chunks_exact(4).map(|b| f32::from_ne_bytes([b[0], b[1], b[2], b[3]])).collect()
    }
}

// ---------- pick_record_config ----------

#[test]
fn records_at_the_devices_default_rate_and_channels() {
    // A device that prefers 48 kHz mono must be recorded exactly there, not upmixed.
    let ranges = [f32_range(1, 8_000, 96_000), f32_range(2, 8_000, 96_000)];
    assert_eq!(pick_record_config(&ranges, 48_000, 1), Some(Chosen { channels: 1, sample_rate: 48_000 }));
}

#[test]
fn an_unsupported_default_rate_falls_back_to_the_nearest() {
    let ranges = [f32_range(2, 44_100, 44_100)];
    // The device default claims 48 kHz but only 44.1 is actually offered.
    assert_eq!(pick_record_config(&ranges, 48_000, 2), Some(Chosen { channels: 2, sample_rate: 44_100 }));
}

#[test]
fn of_several_unsupported_rates_the_nearest_is_recorded() {
    let ranges = [f32_range(2, 96_000, 96_000), f32_range(2, 48_000, 48_000), f32_range(2, 8_000, 16_000)];
    assert_eq!(pick_record_config(&ranges, 44_100, 2), Some(Chosen { channels: 2, sample_rate: 48_000 }));
    assert_eq!(pick_record_config(&ranges, 20_000, 2), Some(Chosen { channels: 2, sample_rate: 16_000 }));
}

#[test]
fn the_channel_count_closest_to_the_default_wins() {
    let ranges = [f32_range(1, 48_000, 48_000), f32_range(2, 48_000, 48_000), f32_range(6, 48_000, 48_000)];
    // Default is stereo: the stereo range must win over mono and 5.1 at the same rate.
    assert_eq!(pick_record_config(&ranges, 48_000, 2), Some(Chosen { channels: 2, sample_rate: 48_000 }));
}

#[test]
fn non_f32_input_configs_are_ignored() {
    let ranges = [
        ConfigRange { channels: 1, min_rate: 48_000, max_rate: 48_000, is_f32: false },
        f32_range(2, 96_000, 96_000),
    ];
    assert_eq!(pick_record_config(&ranges, 48_000, 1), Some(Chosen { channels: 2, sample_rate: 96_000 }));
    assert_eq!(pick_record_config(&ranges[..1], 48_000, 1), None);
    assert_eq!(pick_record_config(&[], 48_000, 1), None);
    assert!(matches!(choose_input(&ranges[..1], 48_000, 1), Err(RecordError::NoF32Config)));
    assert_eq!(choose_input(&ranges, 48_000, 1).unwrap().channels, 2);
}

// ---------- ring_capacity ----------

#[test]
fn recorder_ring_capacity_is_a_whole_number_of_frames() {
    for (rate, ch) in [(48_000, 1), (44_100, 2), (96_000, 6)] {
        let cap = ring_capacity(rate, ch);
        assert_eq!(cap % ch, 0, "{rate} Hz / {ch} ch");
        assert!(cap >= ch);
    }
    assert_eq!(ring_capacity(44_100, 2), 88_200);
    assert_eq!(ring_capacity(0, 2), 2);
    assert_eq!(record_ring(8_000, 2).0.slots(), 16_000);
}

// ---------- ingest + drain ----------

#[test]
fn ingest_then_drain_reproduces_the_input_exactly() {
    let mut t = take(2, 48_000);
    let (mut prod, mut cons) = rtrb::RingBuffer::<u32>::new(ring_capacity(48_000, 2));

    // Two interleaved stereo batches.
    let mut overruns = ingest(&mut prod, &bits(&[1.0, -1.0, 2.0, -2.0]), 2);
    overruns += ingest(&mut prod, &bits(&[3.0, -3.0]), 2);

    let drained = t.drain(&mut cons).unwrap();
    assert_eq!(drained, 3);
    assert_eq!(overruns, 0);
    assert_eq!(t.writer.frames(), 3);

    assert!(matches!(t.writer.finish(), Ok(Join::Copy)));
    assert_eq!(t.channel(0), &[1.0, 2.0, 3.0]);
    assert_eq!(t.channel(1), &[-1.0, -2.0, -3.0]);
}

#[test]
fn a_full_ring_drops_the_newest_frames_and_counts_them() {
    // The writer has fallen behind: the callback must not block, it drops and records.
    let mut t = take(1, 8_000);
    // A ring that holds only 4 frames.
    let (mut prod, mut cons) = rtrb::RingBuffer::<u32>::new(4);

    let overruns = ingest(&mut prod, &bits(&[0.0, 1.0, 2.0, 3.0, 4.0, 5.0]), 1);
    assert_eq!(overruns, 2, "two frames dropped");

    t.drain(&mut cons).unwrap();
    // Only the frames that fit were kept, in order.
    assert_eq!(t.channel(0), &[0.0, 1.0, 2.0, 3.0]);
}

#[test]
fn draining_an_empty_ring_is_a_no_op() {
    let mut t = take(2, 8_000);
    let (_prod, mut cons) = rtrb::RingBuffer::<u32>::new(8);
    assert_eq!(t.drain(&mut cons).unwrap(), 0);
}

#[test]
fn drain_survives_a_ring_wrap_without_swapping_channels() {
    // Cycle a small ring many times with an awkward batch size: if a wrap ever split a frame, the
    // stereo image would swap for the rest of the take.
    let mut t = take(2, 48_000);
    let (mut prod, mut cons) = rtrb::RingBuffer::<u32>::new(ring_capacity(48_000, 2).min(26));
    let mut overruns = 0;

    let mut next = 0i32;
    // Feed 500 frames through in 7-frame batches, draining between each so the ring wraps.
    while next < 500 {
        let mut batch = Vec::new();
        for _ in 0..7 {
            if next >= 500 {
                break;
            }
            batch.push((next as f32).to_bits());
            batch.push((-(next as f32)).to_bits());
            next += 1;
        }
        overruns += ingest(&mut prod, &batch, 2);
        t.drain(&mut cons).unwrap();
    }
    assert_eq!(overruns, 0, "the ring was drained each round");
    let (left, right) = (t.channel(0), t.channel(1));
    assert_eq!((left.len(), right.len(), t.writer.frames()), (500, 500, 500));
    for f in 0..500 {
        assert_eq!(left[f], f as f32, "left at frame {f}");
        assert_eq!(right[f], -(f as f32), "right at frame {f}");
    }
}

#[test]
fn a_partial_frame_is_neither_ingested_nor_counted() {
    let (mut prod, cons) = rtrb::RingBuffer::<u32>::new(8);
    assert_eq!(ingest(&mut prod, &bits(&[1.0, 2.0, 3.0]), 2), 0);
    assert_eq!(cons.slots(), 2);
    assert_eq!(ingest(&mut prod, &bits(&[1.0]), 2), 0);
    assert_eq!(cons.slots(), 2);
}

#[test]
fn a_take_holds_what_went_into_the_ring_in_order() {
    // Batches of changing size through a small ring, drained in between: some frames are dropped, and
    // those that went in come out in order.
    let mut t = take(2, 48_000);
    let (mut prod, mut cons) = rtrb::RingBuffer::<u32>::new(10);
    let mut went_in: Vec<f32> = Vec::new();
    let mut next = 0.0f32;
    for round in 0..40usize {
        let batch: Vec<f32> = (0..2 * (round % 8)).map(|i| next + i as f32).collect();
        next += 100.0;
        let dropped = ingest(&mut prod, &bits(&batch), 2) as usize;
        went_in.extend_from_slice(&batch[..batch.len() - 2 * dropped]);
        if round % 3 == 0 {
            t.drain(&mut cons).unwrap();
        }
    }
    t.drain(&mut cons).unwrap();
    assert_eq!(t.drain(&mut cons).unwrap(), 0);
    for ch in 0..2 {
        let want: Vec<f32> = went_in.iter().skip(ch).step_by(2).copied().collect();
        assert_eq!(t.channel(ch), want, "channel {ch}");
    }
}

#[test]
fn a_failed_write_ends_the_drain_and_counts_nothing() {
    let mut t = take(2, 8_000);
    let (mut prod, mut cons) = rtrb::RingBuffer::<u32>::new(8);
    ingest(&mut prod, &bits(&[1.0, 2.0]), 2);
    let batch = drain(&mut cons, &t.writer);
    assert_eq!(batch, [[1.0f32.to_bits()], [2.0f32.to_bits()]]);
    let r = t.writer.pushed(&batch, Err(DecodeError::Io("disk full".to_string())));
    assert!(matches!(r, Err(DecodeError::Io(m)) if m == "disk full"));
    assert_eq!(t.writer.frames(), 0);
    assert_eq!(cons.slots(), 0);
}

// ---------- transport ----------

#[test]
fn an_idle_recorder_reports_not_recording_without_a_device() {
    let dto = idle_dto();
    assert!(!dto.recording);
    assert_eq!(dto.frames, 0);
    assert_eq!(RecordError::NotRecording.message(), "not recording");
}

#[test]
fn recorder_errors_all_describe_themselves() {
    for e in [
        RecordError::NoDevice,
        RecordError::NoF32Config,
        RecordError::Empty,
        RecordError::NotRecording,
        RecordError::Cache("disk full".into()),
        RecordError::Device("boom".into()),
    ] {
        assert!(!e.message().is_empty());
    }
    assert_eq!(RecordError::Cache("disk full".into()).message(), "could not save the recording: disk full");
}

#[test]
fn a_failed_take_says_why() {
    assert!(matches!(RecordError::of_decode(DecodeError::Empty), RecordError::Empty));
    let e = RecordError::of_decode(DecodeError::Io("disk full".to_string()));
    assert_eq!(e.message(), "could not save the recording: i/o error: disk full");
    let e = RecordError::of_spill(DecodeError::NoAudioTrack);
    assert!(matches!(&e, RecordError::Cache(m) if m == "could not save the recording: no audio track in source"));
    assert!(matches!(RecordError::of_spill(DecodeError::Empty), RecordError::Cache(m) if m == "nothing was recorded"));
}

#[test]
fn a_recording_has_files_before_the_device_starts() {
    assert!(matches!(next_step(Launch::Made(Ok(()))), Step::Build));
    assert!(matches!(next_step(Launch::Built(Ok(()))), Step::Start));
    assert!(matches!(next_step(Launch::Started(Ok(()))), Step::Tell));
    assert!(matches!(next_step(Launch::Told { heard: true }), Step::Serve));
    assert!(matches!(next_step(Launch::Told { heard: false }), Step::Leave));
    for refused in [Launch::Built(Err("no".to_string())), Launch::Started(Err("no".to_string()))] {
        match next_step(refused) {
            Step::Fail { word: RecordError::Device(a), outcome: RecordError::Device(b) } => {
                assert_eq!((a.as_str(), b.as_str()), ("no", "no"))
            }
            other => panic!("{other:?}"),
        }
    }
    match next_step(Launch::Made(Err(DecodeError::Io("denied".to_string())))) {
        Step::Fail { word: RecordError::Cache(a), outcome: RecordError::Cache(b) } => {
            assert_eq!(a, "could not save the recording: i/o error: denied");
            assert_eq!(b, "i/o error: denied");
        }
        other => panic!("{other:?}"),
    }
}

#[test]
fn commands_turn_the_recording_thread() {
    let capturing = |event| next_action(Stage::Capturing, event);
    let sealing = |event| next_action(Stage::Sealing, event);
    let heard = |cmd| Event::Heard(Heard::Command(cmd));
    assert!(matches!(capturing(heard(Cmd::Stop)), (Stage::Sealing, Action::Halt)));
    assert!(matches!(capturing(heard(Cmd::Abort)), (Stage::Capturing, Action::Leave(Ok(None)))));
    assert!(matches!(capturing(Event::Heard(Heard::Closed)), (Stage::Capturing, Action::Leave(Ok(None)))));
    assert!(matches!(capturing(Event::Heard(Heard::Nothing)), (Stage::Capturing, Action::Drain)));
    assert!(matches!(capturing(Event::Drained(Ok(3))), (Stage::Capturing, Action::Wait)));
    assert!(matches!(sealing(Event::Drained(Ok(3))), (Stage::Sealing, Action::Drain)));
    assert!(matches!(sealing(Event::Drained(Ok(0))), (Stage::Sealing, Action::Seal)));
    assert!(matches!(sealing(Event::Sealed(Ok(7))), (Stage::Sealing, Action::Leave(Ok(Some(7))))));
    assert!(matches!(
        sealing(Event::Sealed(Err(DecodeError::Empty))),
        (Stage::Sealing, Action::Leave(Err(RecordError::Empty)))
    ));
    match capturing(Event::Drained(Err(DecodeError::Io("full".into())))).1 {
        Action::Leave(Err(RecordError::Cache(m))) => {
            assert_eq!(m, "could not save the recording: i/o error: full")
        }
        other => panic!("{other:?}"),
    }
    assert_eq!(started(None).unwrap_err().message(), "audio input device error: record thread died on startup");
    assert!(started(Some(Ok(()))).is_ok());
    let dto = RecordDto::new(true, 24_000, 2, 48_000, 3, &|n: u64, rate: u32| (n as f64 / rate as f64).to_bits());
    assert_eq!((dto.frames, f64::from_bits(dto.duration_s), dto.overruns), (24_000, 0.5, 3));
}

#[test]
fn stopping_hands_out_the_take() {
    let stop = |outcome| stopped(outcome, "a.cache".to_string(), 2, 48_000);
    let s = stop(Some(Ok(Some(9)))).unwrap();
    assert_eq!((s.cache_path.as_str(), s.channels, s.sample_rate, s.frames), ("a.cache", 2, 48_000, 9));
    assert!(matches!(stop(Some(Ok(None))), Err(RecordError::Empty)));
    assert!(matches!(stop(None), Err(RecordError::Device(m)) if m == "record thread panicked"));
    assert!(matches!(stop(Some(Err(RecordError::Cache("x".into())))), Err(RecordError::Cache(_))));
    // A take without frames is no failure.
    assert!(take_of(stop(Some(Ok(None)))).unwrap().is_none());
    assert_eq!(take_of(stop(Some(Ok(Some(1))))).unwrap().unwrap().frames, 1);
    assert_eq!(take_of(stop(None)).unwrap_err(), "audio input device error: record thread panicked");
}
