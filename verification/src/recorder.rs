//! Recording: what is captured, and what becomes of it.
//!
//! The mirror image of playback. The input callback pushes the frames of the device into a ring, and
//! a writer thread takes them out and spills them to disk. A ring that is full drops the newest
//! frames and counts them.

use vstd::prelude::*;
use rtrb::{Consumer, Producer};
use crate::capture::{extended, CaptureWriter};
use crate::decode::{contents, lanes, law_batches_are_contiguous, DecodeError};
use crate::player::{pick_nearest, picks, Chosen, ConfigRange};
use crate::ring::{
    coming, filled_slots, free_slots, inflow, law_a_ring_keeps_the_order, left, lemma_coming, outflow, pop_slice,
    push_slice, read, ready, ring, room, size, spare, written,
};
use crate::summary::clamp;
use vstd::arithmetic::div_mod::{lemma_fundamental_div_mod, lemma_fundamental_div_mod_converse};

verus! {

/// What can stop a recording from starting or finishing.
#[derive(Debug)]
pub enum RecordError {
    /// There is no input device.
    NoDevice,
    /// The device has no configuration with float samples.
    NoF32Config,
    /// Nothing was captured.
    Empty,
    /// No recording is in progress.
    NotRecording,
    /// Saving the take failed.
    Cache(String),
    /// The device rejected the stream, or the record thread died.
    Device(String),
}

impl RecordError {
    /// What the error says.
    pub open spec fn text(self) -> Seq<char> {
        match self {
            RecordError::NoDevice => "no audio input device available"@,
            RecordError::NoF32Config => "input device supports no 32-bit float configuration"@,
            RecordError::Empty => "nothing was recorded"@,
            RecordError::NotRecording => "not recording"@,
            RecordError::Cache(e) => "could not save the recording: "@ + e@,
            RecordError::Device(e) => "audio input device error: "@ + e@,
        }
    }

    /// The error in words.
    pub fn message(&self) -> (r: String)
        ensures
            r@ == self.text(),
    {
        match self {
            RecordError::NoDevice => "no audio input device available".to_owned(),
            RecordError::NoF32Config => "input device supports no 32-bit float configuration".to_owned(),
            RecordError::Empty => "nothing was recorded".to_owned(),
            RecordError::NotRecording => "not recording".to_owned(),
            RecordError::Cache(e) => "could not save the recording: ".to_owned().concat(e.as_str()),
            RecordError::Device(e) => "audio input device error: ".to_owned().concat(e.as_str()),
        }
    }

    /// The error of a recording that failed with `e`: a take without frames is empty, anything else
    /// is a take that could not be saved.
    pub fn of_decode(e: DecodeError) -> (r: RecordError)
        ensures
            seal_failure(e, r),
    {
        match e {
            DecodeError::Empty => RecordError::Empty,
            other => RecordError::Cache(other.message()),
        }
    }

    /// The error of a spill that failed with `e`: the take could not be saved, for the reason that
    /// the recording failed.
    pub fn of_spill(e: DecodeError) -> (r: RecordError)
        ensures
            r matches RecordError::Cache(m) && m@ == spill_text(e),
    {
        RecordError::Cache(RecordError::of_decode(e).message())
    }
}

/// `r` is the error of a recording whose writer failed with `e`.
pub open spec fn seal_failure(e: DecodeError, r: RecordError) -> bool {
    if e is Empty {
        r == RecordError::Empty
    } else {
        r matches RecordError::Cache(m) && m@ == e.text()
    }
}

/// What is said of a spill that failed with `e`.
pub open spec fn spill_text(e: DecodeError) -> Seq<char> {
    if e is Empty {
        RecordError::Empty.text()
    } else {
        "could not save the recording: "@ + e.text()
    }
}

/// What a recording is doing.
#[derive(Debug, Clone, Copy, PartialEq, Eq, Structural)]
pub struct RecordDto {
    /// Whether a take is in progress.
    pub recording: bool,
    /// Frames captured so far.
    pub frames: u64,
    /// Duration in seconds, as a double-precision pattern.
    pub duration_s: u64,
    /// Number of channels.
    pub channels: usize,
    /// Sampling rate in Hz.
    pub sample_rate: u32,
    /// Frames that were dropped. There are gaps in the take where it is not zero.
    pub overruns: u64,
}

impl RecordDto {
    /// What a recording shows. `seconds` divides frames by a rate.
    pub fn new<S: Fn(u64, u32) -> u64>(
        recording: bool,
        frames: u64,
        channels: usize,
        sample_rate: u32,
        overruns: u64,
        seconds: &S,
    ) -> (r: RecordDto)
        requires
            call_requires(*seconds, (frames, sample_rate)),
        ensures
            call_ensures(*seconds, (frames, sample_rate), r.duration_s),
            r == (RecordDto { recording, frames, duration_s: r.duration_s, channels, sample_rate, overruns }),
    {
        RecordDto { recording, frames, duration_s: seconds(frames, sample_rate), channels, sample_rate, overruns }
    }
}

/// What shows when nothing is being recorded.
pub fn idle_dto() -> (r: RecordDto)
    ensures
        r == (RecordDto { recording: false, frames: 0, duration_s: 0, channels: 0, sample_rate: 0, overruns: 0 }),
{
    RecordDto { recording: false, frames: 0, duration_s: 0, channels: 0, sample_rate: 0, overruns: 0 }
}

/// What a finished recording produced.
#[derive(Debug)]
pub struct RecordSummary {
    /// The path of the cache.
    pub cache_path: String,
    /// Number of channels.
    pub channels: usize,
    /// Sampling rate in Hz.
    pub sample_rate: u32,
    /// Number of frames.
    pub frames: usize,
}

/// Chooses an input configuration: one that captures at the preferred rate, then the channel count
/// closest to the preferred one, then fewer channels. Where no range has the rate, the nearest rate
/// that is supported with that channel count is taken.
pub fn pick_record_config(ranges: &[ConfigRange], preferred_rate: u32, preferred_channels: u16) -> (r: Option<Chosen>)
    ensures
        picks(ranges@, preferred_rate, preferred_channels, r),
{
    pick_nearest(ranges, preferred_rate, preferred_channels)
}

/// The configuration that a device records with.
pub fn choose_input(ranges: &[ConfigRange], preferred_rate: u32, preferred_channels: u16) -> (r: Result<
    Chosen,
    RecordError,
>)
    ensures
        match r {
            Ok(c) => picks(ranges@, preferred_rate, preferred_channels, Some(c)),
            Err(e) => e == RecordError::NoF32Config && picks(ranges@, preferred_rate, preferred_channels, None),
        },
{
    match pick_record_config(ranges, preferred_rate, preferred_channels) {
        Some(c) => Ok(c),
        None => Err(RecordError::NoF32Config),
    }
}

/// A second of audio in frames, at least one.
pub open spec fn ring_frames(rate: u32) -> nat {
    if rate == 0 {
        1
    } else {
        rate as nat
    }
}

/// Ring size in samples for a device: a second of audio in whole frames.
pub fn ring_capacity(rate: u32, channels: usize) -> (r: usize)
    requires
        ring_frames(rate) * channels <= usize::MAX,
    ensures
        r == ring_frames(rate) * channels,
{
    let frames: usize = if rate == 0 {
        1
    } else {
        rate as usize
    };
    proof {
        assert(frames == ring_frames(rate));
        assert(frames * channels == ring_frames(rate) * channels);
    }
    frames * channels
}

/// The ring for a device, empty and with room for all of its capacity.
pub fn record_ring(rate: u32, channels: usize) -> (r: (Producer<u32>, Consumer<u32>))
    requires
        ring_frames(rate) * channels * 4 <= isize::MAX,
    ensures
        written(r.0) == Seq::<u32>::empty(),
        read(r.1) == Seq::<u32>::empty(),
        inflow(r.0) == outflow(r.1),
        size(r.0) == ring_frames(rate) * channels,
        room(r.0) == ring_frames(rate) * channels,
        spare(r.0) == ring_frames(rate) * channels,
        left(r.1) == 0,
{
    ring(ring_capacity(rate, channels))
}

/// How many frames of a batch fit into `free` free slots.
pub open spec fn fitting(len: nat, free: nat, channels: nat) -> nat {
    clamp((len / channels) as int, (free / channels) as int) as nat
}

/// Pushes a batch of interleaved frames into the ring: the body of the input callback. It writes as
/// many whole frames as fit and returns how many were dropped.
pub fn ingest(producer: &mut Producer<u32>, input: &[u32], channels: usize) -> (dropped: u64)
    requires
        channels > 0,
    ensures
        inflow(*final(producer)) == inflow(*old(producer)),
        size(*final(producer)) == size(*old(producer)),
        written(*old(producer)).is_prefix_of(inflow(*old(producer))) ==> written(*final(producer)).is_prefix_of(
            inflow(*final(producer)),
        ),
        exists|free: usize| #![trigger fitting(input@.len(), free as nat, channels as nat)]
            {
                let taken = fitting(input@.len(), free as nat, channels as nat);
                &&& spare(*old(producer)) <= free <= room(*old(producer))
                &&& if taken > 0 {
                    spare(*final(producer)) == room(*old(producer)) - taken * channels
                } else {
                    *final(producer) == *old(producer)
                }
                &&& size(*old(producer)) <= free + written(*old(producer)).len()
                &&& written(*final(producer)) == written(*old(producer)) + input@.take((taken * channels) as int)
                &&& dropped == input@.len() / channels as nat - taken
            },
{
    let free: usize = free_slots(producer);
    accept(producer, input, channels, free)
}

/// Pushes as many whole frames of `input` as fit into `free` free slots and returns how many were
/// dropped.
pub fn accept(producer: &mut Producer<u32>, input: &[u32], channels: usize, free: usize) -> (dropped: u64)
    requires
        channels > 0,
        free <= room(*old(producer)),
    ensures
        inflow(*final(producer)) == inflow(*old(producer)),
        size(*final(producer)) == size(*old(producer)),
        written(*old(producer)).is_prefix_of(inflow(*old(producer))) ==> written(*final(producer)).is_prefix_of(
            inflow(*final(producer)),
        ),
        written(*final(producer)) == written(*old(producer)) + input@.take(
            (fitting(input@.len(), free as nat, channels as nat) * channels) as int,
        ),
        dropped == input@.len() / channels as nat - fitting(input@.len(), free as nat, channels as nat),
        ({
            let taken = fitting(input@.len(), free as nat, channels as nat);
            if taken > 0 {
                spare(*final(producer)) == room(*old(producer)) - taken * channels
            } else {
                *final(producer) == *old(producer)
            }
        }),
{
    let frames: usize = input.len() / channels;
    let room_frames: usize = free / channels;
    let taken: usize = if frames < room_frames {
        frames
    } else {
        room_frames
    };
    proof {
        lemma_frames_fit(input@.len(), channels as nat, taken as nat);
        lemma_frames_fit(free as nat, channels as nat, taken as nat);
    }
    let n: usize = taken * channels;
    proof {
        assert(n > 0 <==> taken > 0) by (nonlinear_arith)
            requires
                n == taken * channels,
                channels > 0,
        ;
    }
    if n > 0 {
        let part: &[u32] = vstd::slice::slice_subrange(input, 0, n);
        let _fits: bool = push_slice(producer, part);
        proof {
            assert(part@ =~= input@.take(n as int));
        }
    } else {
        proof {
            assert(written(*producer) =~= written(*producer) + input@.take(0));
        }
    }
    (frames - taken) as u64
}

/// No more frames than there are take no more samples than there are.
proof fn lemma_frames_fit(len: nat, channels: nat, frames: nat)
    requires
        channels > 0,
        frames <= len / channels,
    ensures
        frames * channels <= len,
        (frames * channels) % channels == 0,
        (frames * channels) / channels == frames,
{
    lemma_fundamental_div_mod(len as int, channels as int);
    let q = len / channels;
    assert(frames * channels <= channels * q) by (nonlinear_arith)
        requires
            frames <= q,
    ;
    assert(frames * channels == channels * frames) by (nonlinear_arith);
    lemma_fundamental_div_mod_converse((frames * channels) as int, channels as int, frames as int, 0);
}

/// No frame gets lost unseen: the frames that go into the ring and those that are counted as dropped
/// are together the frames of the batch.
pub proof fn law_every_frame_is_written_or_counted(len: nat, free: nat, channels: nat)
    requires
        channels > 0,
    ensures
        ({
            let taken = fitting(len, free, channels);
            let dropped = len / channels - taken;
            &&& taken + dropped == len / channels
            &&& dropped > 0 ==> taken == free / channels
        }),
{
}

/// Takes every whole frame that is in the ring, as far as `writer` can count it, and returns what it
/// adds to each channel of the take.
pub fn drain(consumer: &mut Consumer<u32>, writer: &CaptureWriter) -> (r: Vec<Vec<u32>>)
    requires
        writer.wf(),
    ensures
        outflow(*final(consumer)) == outflow(*old(consumer)),
        read(*old(consumer)).is_prefix_of(outflow(*old(consumer))) ==> read(*final(consumer)).is_prefix_of(
            outflow(*final(consumer)),
        ),
        exists|slots: usize, batch: Seq<u32>|
            {
                &&& #[trigger] drained(slots as nat, *writer, batch)
                &&& left(*old(consumer)) <= slots <= ready(*old(consumer))
                &&& takes_out(*old(consumer), *final(consumer), batch)
                &&& contents(r@) == lanes(batch, writer.n_channels())
            },
{
    let slots: usize = filled_slots(consumer);
    spill(consumer, writer, slots)
}

/// `batch` is what a drain takes out of `slots` filled slots: all whole frames, as far as the frames
/// of the take can be counted.
pub open spec fn drained(slots: nat, writer: CaptureWriter, batch: Seq<u32>) -> bool {
    batch.len() == (clamp(
        (slots / writer.n_channels()) as int,
        usize::MAX - writer.n_frames(),
    ) as nat) * writer.n_channels()
}

/// Reading `batch` makes `after` of the reading end `before`. Nothing is read where it is empty.
pub open spec fn takes_out(before: Consumer<u32>, after: Consumer<u32>, batch: Seq<u32>) -> bool {
    &&& read(after) == read(before) + batch
    &&& if batch.len() > 0 {
        &&& batch == coming(before, batch.len())
        &&& left(after) == ready(before) - batch.len()
    } else {
        after == before
    }
}

/// Takes the whole frames out of `slots` filled slots of the ring, as far as `writer` can count them,
/// and returns what they add to each channel of the take.
pub fn spill(consumer: &mut Consumer<u32>, writer: &CaptureWriter, slots: usize) -> (r: Vec<Vec<u32>>)
    requires
        writer.wf(),
        slots <= ready(*old(consumer)),
    ensures
        outflow(*final(consumer)) == outflow(*old(consumer)),
        read(*old(consumer)).is_prefix_of(outflow(*old(consumer))) ==> read(*final(consumer)).is_prefix_of(
            outflow(*final(consumer)),
        ),
        exists|batch: Seq<u32>|
            {
                &&& #[trigger] drained(slots as nat, *writer, batch)
                &&& takes_out(*old(consumer), *final(consumer), batch)
                &&& contents(r@) == lanes(batch, writer.n_channels())
            },
{
    proof {
        writer.lemma_shape();
    }
    let channels: usize = writer.channels();
    let whole: usize = slots / channels;
    let most: usize = usize::MAX - writer.frames();
    let frames: usize = if whole < most {
        whole
    } else {
        most
    };
    proof {
        lemma_frames_fit(slots as nat, channels as nat, frames as nat);
    }
    let n: usize = frames * channels;
    let mut scratch: Vec<u32> = vec![0; n];
    if n > 0 {
        let _taken: bool = pop_slice(consumer, scratch.as_mut_slice());
        proof {
            lemma_coming(*old(consumer), *consumer, scratch@);
        }
    } else {
        proof {
            assert(read(*consumer) =~= read(*consumer) + scratch@);
        }
    }
    proof {
        assert(drained(slots as nat, *writer, scratch@));
        assert(takes_out(*old(consumer), *consumer, scratch@));
    }
    writer.push_interleaved(scratch.as_slice())
}

/// What a drain hands out can be counted: each channel gets the same number of samples, and the writer
/// has room for their count.
pub proof fn law_a_drained_batch_can_be_counted(slots: nat, writer: CaptureWriter, batch: Seq<u32>)
    requires
        writer.wf(),
        drained(slots, writer, batch),
    ensures
        forall|ch: int|
            0 <= ch < writer.n_channels() ==> (#[trigger] lanes(batch, writer.n_channels())[ch]).len() == batch.len()
                / writer.n_channels(),
        writer.n_frames() + batch.len() / writer.n_channels() <= usize::MAX,
{
    writer.lemma_shape();
    let channels = writer.n_channels();
    let frames = clamp((slots / channels) as int, usize::MAX - writer.n_frames()) as nat;
    assert(frames * channels == channels * frames) by (nonlinear_arith);
    lemma_fundamental_div_mod_converse(batch.len() as int, channels as int, frames as int, 0);
}

/// The take is what came through the ring: where the channels that a writer has captured are those of
/// all that was read, they are so after every drain that succeeds.
pub proof fn law_the_take_is_what_was_read(
    before: Seq<u32>,
    batch: Seq<u32>,
    captured: Seq<Seq<u32>>,
    channels: nat,
)
    requires
        channels > 0,
        before.len() % channels == 0,
        batch.len() % channels == 0,
        captured == lanes(before, channels),
    ensures
        extended(captured, lanes(batch, channels)) == lanes(before + batch, channels),
        (before + batch).len() % channels == 0,
{
    assert forall|ch: int| 0 <= ch < channels implies #[trigger] extended(captured, lanes(batch, channels))[ch]
        == lanes(before + batch, channels)[ch] by {
        law_batches_are_contiguous(before, batch, channels, ch);
    }
    assert(extended(captured, lanes(batch, channels)) =~= lanes(before + batch, channels));
    vstd::arithmetic::div_mod::lemma_mod_adds(before.len() as int, batch.len() as int, channels as int);
    vstd::arithmetic::div_mod::lemma_add_mod_noop(before.len() as int, batch.len() as int, channels as int);
    assert(0int % channels as int == 0) by {
        vstd::arithmetic::div_mod::lemma_small_mod(0, channels);
    }
}

/// The take is what the device delivered: the channels that were captured of all that was read from
/// the ring are those of the frames that were first written into it, in order. Where as much was read
/// as was written, they are those of all of them.
pub proof fn law_the_take_is_what_went_into_the_ring(
    p: Producer<u32>,
    c: Consumer<u32>,
    captured: Seq<Seq<u32>>,
    channels: nat,
)
    requires
        inflow(p) == outflow(c),
        written(p).is_prefix_of(inflow(p)),
        read(c).is_prefix_of(outflow(c)),
        captured == lanes(read(c), channels),
    ensures
        read(c).len() <= written(p).len() ==> captured == lanes(written(p).take(read(c).len() as int), channels),
        read(c).len() == written(p).len() ==> captured == lanes(written(p), channels),
{
    law_a_ring_keeps_the_order(p, c);
}

/// A command to the recording thread.
#[derive(Debug, Clone, Copy, PartialEq, Eq, Structural)]
pub enum Cmd {
    /// Stop and keep the take.
    Stop,
    /// Stop and throw the take away.
    Abort,
}

/// What waiting for a command gave.
#[derive(Debug, Clone, Copy, PartialEq, Eq, Structural)]
pub enum Heard {
    /// A command.
    Command(Cmd),
    /// Nothing for a while.
    Nothing,
    /// Nobody can send any more.
    Closed,
}

/// Where the recording thread stands.
#[derive(Debug, Clone, Copy, PartialEq, Eq, Structural)]
pub enum Stage {
    /// The device delivers frames.
    Capturing,
    /// The device has stopped, and the take is about to be sealed.
    Sealing,
}

/// What happened to the recording thread.
#[derive(Debug)]
pub enum Event {
    /// It waited for a command.
    Heard(Heard),
    /// It drained the ring: so many frames, or the error of the writer.
    Drained(Result<usize, DecodeError>),
    /// It sealed the take: so many frames, or the error of the writer.
    Sealed(Result<usize, DecodeError>),
}

/// What the recording thread does next.
#[derive(Debug)]
pub enum Action {
    /// Wait for a command.
    Wait,
    /// Drain the ring.
    Drain,
    /// Stop the device, then drain the ring.
    Halt,
    /// Seal the take.
    Seal,
    /// Leave with the frames of the sealed take, with nothing where it was thrown away, or with an
    /// error. What was not sealed is thrown away.
    Leave(Result<Option<usize>, RecordError>),
}

/// Commands are heard while the device runs, and a take is sealed when it has stopped.
pub open spec fn possible(stage: Stage, event: Event) -> bool {
    match event {
        Event::Heard(_) => stage == Stage::Capturing,
        Event::Drained(_) => true,
        Event::Sealed(_) => stage == Stage::Sealing,
    }
}

/// Where the recording thread stands after `event`: told to stop, it seals.
pub open spec fn stage_after(stage: Stage, event: Event) -> Stage {
    if event == Event::Heard(Heard::Command(Cmd::Stop)) {
        Stage::Sealing
    } else {
        stage
    }
}

/// Decides what the recording thread does. Told to stop, it halts the device and drains the ring
/// until a drain finds nothing, and then it seals the take. Where nobody can send any more, the take
/// is thrown away and not half-sealed.
pub fn next_action(stage: Stage, event: Event) -> (r: (Stage, Action))
    requires
        possible(stage, event),
    ensures
        r.0 == stage_after(stage, event),
        match event {
            Event::Heard(Heard::Command(Cmd::Stop)) => r.1 == Action::Halt,
            Event::Heard(Heard::Command(Cmd::Abort)) => r.1 == Action::Leave(Ok(None)),
            Event::Heard(Heard::Closed) => r.1 == Action::Leave(Ok(None)),
            Event::Heard(Heard::Nothing) => r.1 == Action::Drain,
            Event::Drained(Ok(frames)) => r.1 == (if stage == Stage::Capturing {
                Action::Wait
            } else if frames > 0 {
                Action::Drain
            } else {
                Action::Seal
            }),
            Event::Drained(Err(e)) => r.1 matches Action::Leave(Err(RecordError::Cache(m))) && m@ == spill_text(e),
            Event::Sealed(Ok(frames)) => r.1 == Action::Leave(Ok(Some(frames))),
            Event::Sealed(Err(e)) => r.1 matches Action::Leave(Err(x)) && seal_failure(e, x),
        },
{
    match event {
        Event::Heard(heard) => match heard {
            Heard::Command(Cmd::Stop) => (Stage::Sealing, Action::Halt),
            Heard::Command(Cmd::Abort) => (stage, Action::Leave(Ok(None))),
            Heard::Nothing => (stage, Action::Drain),
            Heard::Closed => (stage, Action::Leave(Ok(None))),
        },
        Event::Drained(Ok(frames)) => match stage {
            Stage::Capturing => (stage, Action::Wait),
            Stage::Sealing => {
                if frames > 0 {
                    (stage, Action::Drain)
                } else {
                    (stage, Action::Seal)
                }
            },
        },
        Event::Drained(Err(e)) => (stage, Action::Leave(Err(RecordError::of_spill(e)))),
        Event::Sealed(Ok(frames)) => (stage, Action::Leave(Ok(Some(frames)))),
        Event::Sealed(Err(e)) => (stage, Action::Leave(Err(RecordError::of_decode(e)))),
    }
}

/// What happened to the recording thread while it started.
#[derive(Debug)]
pub enum Launch {
    /// It made the spill files of the take, or could not.
    Made(Result<(), DecodeError>),
    /// It asked the device for a stream, which was built or refused.
    Built(Result<(), String>),
    /// It started the stream, or could not.
    Started(Result<(), String>),
    /// It told its caller that it records. `heard` tells whether the caller was still there.
    Told { heard: bool },
}

/// What the recording thread does next while it starts.
#[derive(Debug)]
pub enum Step {
    /// Build the stream.
    Build,
    /// Start the stream.
    Start,
    /// Tell the caller that it records.
    Tell,
    /// Tell the caller `word`, and leave with `outcome`.
    Fail { word: RecordError, outcome: RecordError },
    /// Wait for commands.
    Serve,
    /// Leave with nothing: the caller gave up, and there is nobody to record for.
    Leave,
}

/// Decides how the recording thread starts. There are files to write to before the device delivers
/// frames, and what fails is told to the caller.
pub fn next_step(event: Launch) -> (r: Step)
    ensures
        match event {
            Launch::Made(Ok(_)) => r == Step::Build,
            Launch::Made(Err(e)) => {
                &&& r matches Step::Fail { word: RecordError::Cache(m), outcome }
                &&& seal_failure(e, outcome)
                &&& m@ == outcome.text()
            },
            Launch::Built(Ok(_)) => r == Step::Start,
            Launch::Built(Err(text)) => refused(text@, r),
            Launch::Started(Ok(_)) => r == Step::Tell,
            Launch::Started(Err(text)) => refused(text@, r),
            Launch::Told { heard } => r == (if heard {
                Step::Serve
            } else {
                Step::Leave
            }),
        },
{
    match event {
        Launch::Made(Ok(_)) => Step::Build,
        Launch::Made(Err(e)) => {
            let outcome: RecordError = RecordError::of_decode(e);
            Step::Fail { word: RecordError::Cache(outcome.message()), outcome }
        },
        Launch::Built(Ok(_)) => Step::Start,
        Launch::Built(Err(text)) => refuse(text),
        Launch::Started(Ok(_)) => Step::Tell,
        Launch::Started(Err(text)) => refuse(text),
        Launch::Told { heard } => {
            if heard {
                Step::Serve
            } else {
                Step::Leave
            }
        },
    }
}

/// `step` says that the device gave `text` as its reason, to the caller and in the outcome.
pub open spec fn refused(text: Seq<char>, step: Step) -> bool {
    &&& step matches Step::Fail { word: RecordError::Device(a), outcome: RecordError::Device(b) }
    &&& a@ == text
    &&& b@ == text
}

/// The failure of a device that gave `text` as its reason.
fn refuse(text: String) -> (r: Step)
    ensures
        refused(text@, r),
{
    Step::Fail { word: RecordError::Device(text.clone()), outcome: RecordError::Device(text) }
}

/// `events` came to a recording thread one after the other, which stood at `stages` before each.
pub open spec fn happened(stages: Seq<Stage>, events: Seq<Event>) -> bool {
    &&& stages.len() == events.len()
    &&& stages.len() > 0 ==> stages[0] == Stage::Capturing
    &&& forall|k: int|
        0 <= k < stages.len() - 1 ==> stages[k + 1] == #[trigger] stage_after(stages[k], events[k])
}

/// Only a recording that was told to stop is sealed: before the thread seals, it heard the command.
pub proof fn law_only_a_stopped_take_is_sealed(stages: Seq<Stage>, events: Seq<Event>, k: int) -> (j: int)
    requires
        happened(stages, events),
        0 <= k < stages.len(),
        stages[k] == Stage::Sealing,
    ensures
        0 <= j < k,
        events[j] == Event::Heard(Heard::Command(Cmd::Stop)),
    decreases k,
{
    assert(stages[k - 1 + 1] == stage_after(stages[k - 1], events[k - 1]));
    if events[k - 1] == Event::Heard(Heard::Command(Cmd::Stop)) {
        k - 1
    } else {
        law_only_a_stopped_take_is_sealed(stages, events, k - 1)
    }
}

/// What the start of a record thread came to: its own word, or an error where it died without one.
pub fn started(word: Option<Result<(), RecordError>>) -> (r: Result<(), RecordError>)
    ensures
        match word {
            Some(w) => r == w,
            None => r matches Err(RecordError::Device(e)) && e@ == "record thread died on startup"@,
        },
{
    match word {
        Some(w) => w,
        None => Err(RecordError::Device("record thread died on startup".to_owned())),
    }
}

/// What stopping a recording comes to. `outcome` is what the record thread returned: the frames of a
/// sealed take, nothing for an aborted one, or its error; there is none where the thread panicked.
pub fn stopped(
    outcome: Option<Result<Option<usize>, RecordError>>,
    cache_path: String,
    channels: usize,
    sample_rate: u32,
) -> (r: Result<RecordSummary, RecordError>)
    ensures
        match outcome {
            None => r matches Err(RecordError::Device(e)) && e@ == "record thread panicked"@,
            Some(Err(e)) => r == Result::<RecordSummary, RecordError>::Err(e),
            Some(Ok(None)) => r == Result::<RecordSummary, RecordError>::Err(RecordError::Empty),
            Some(Ok(Some(frames))) => r == Result::<RecordSummary, RecordError>::Ok(
                RecordSummary { cache_path, channels, sample_rate, frames },
            ),
        },
{
    match outcome {
        None => Err(RecordError::Device("record thread panicked".to_owned())),
        Some(Err(e)) => Err(e),
        Some(Ok(None)) => Err(RecordError::Empty),
        Some(Ok(Some(frames))) => Ok(RecordSummary { cache_path, channels, sample_rate, frames }),
    }
}

/// The take that a stopped recording leaves: none where nothing was captured, which is no failure.
pub fn take_of(stopped: Result<RecordSummary, RecordError>) -> (r: Result<Option<RecordSummary>, String>)
    ensures
        match stopped {
            Ok(s) => r == Result::<Option<RecordSummary>, String>::Ok(Some(s)),
            Err(RecordError::Empty) => r == Result::<Option<RecordSummary>, String>::Ok(None),
            Err(e) => r matches Err(m) && m@ == e.text(),
        },
{
    match stopped {
        Ok(s) => Ok(Some(s)),
        Err(RecordError::Empty) => Ok(None),
        Err(e) => Err(e.message()),
    }
}

/// The ring for a recording holds a second: as many frames as the rate, and at least one.
pub proof fn law_a_ring_holds_a_second(rate: u32)
    ensures
        rate > 0 ==> ring_frames(rate) == rate,
        ring_frames(rate) >= 1,
        ring_frames(rate) > 1 ==> ring_frames(rate) == rate,
{
}

/// As many frames of a batch as fit go into the ring: they are in the batch and there is room for them,
/// and of one frame more one of the two would not hold.
pub proof fn law_as_many_frames_as_fit_are_written(len: nat, free: nat, channels: nat)
    requires
        channels > 0,
    ensures
        fitting(len, free, channels) * channels <= len,
        fitting(len, free, channels) * channels <= free,
        (fitting(len, free, channels) + 1) * channels > len || (fitting(len, free, channels) + 1) * channels > free,
{
    let taken = fitting(len, free, channels);
    lemma_frames_fit(len, channels, taken);
    lemma_frames_fit(free, channels, taken);
    lemma_fundamental_div_mod(len as int, channels as int);
    lemma_fundamental_div_mod(free as int, channels as int);
    assert((taken + 1) * channels == channels * taken + channels) by (nonlinear_arith);
}

/// A drain takes whole frames and leaves none behind, unless the frames of the take can be counted no
/// further.
pub proof fn law_a_drain_leaves_no_whole_frame(slots: nat, writer: CaptureWriter, batch: Seq<u32>)
    requires
        writer.wf(),
        drained(slots, writer, batch),
    ensures
        batch.len() % writer.n_channels() == 0,
        batch.len() <= slots,
        slots - batch.len() < writer.n_channels() || writer.n_frames() + batch.len() / writer.n_channels()
            == usize::MAX,
{
    writer.lemma_shape();
    let channels = writer.n_channels();
    let frames = clamp((slots / channels) as int, usize::MAX - writer.n_frames()) as nat;
    lemma_frames_fit(slots, channels, frames);
    lemma_fundamental_div_mod(slots as int, channels as int);
    let whole = slots / channels;
    assert(whole * channels == channels * whole) by (nonlinear_arith);
}

/// What is drained is what comes next out of the ring, in its order, and it counts as read. Nothing changes
/// where nothing is drained.
pub proof fn law_a_drain_reads_what_comes_next(before: Consumer<u32>, after: Consumer<u32>, batch: Seq<u32>)
    requires
        takes_out(before, after, batch),
        read(before).len() + batch.len() <= outflow(before).len(),
    ensures
        read(after).len() == read(before).len() + batch.len(),
        forall|i: int| 0 <= i < batch.len() ==> #[trigger] batch[i] == outflow(before)[read(before).len() + i],
        forall|i: int| 0 <= i < batch.len() ==> #[trigger] batch[i] == read(after)[read(before).len() + i],
        forall|i: int| 0 <= i < read(before).len() ==> #[trigger] read(after)[i] == read(before)[i],
        batch.len() > 0 ==> left(after) == ready(before) - batch.len(),
        batch.len() == 0 ==> after == before,
{
}

/// A recording that was told to stop is on its way to be sealed, and stays so.
pub proof fn law_a_stopped_recording_stays_stopped(stage: Stage, event: Event)
    ensures
        event == Event::Heard(Heard::Command(Cmd::Stop)) ==> stage_after(stage, event) == Stage::Sealing,
        stage == Stage::Sealing ==> stage_after(stage, event) == Stage::Sealing,
        stage == Stage::Capturing && event != Event::Heard(Heard::Command(Cmd::Stop)) ==> stage_after(stage, event)
            == Stage::Capturing,
{
}

/// A take that came out empty is told as such and not as a failure to save it; every other failure is one,
/// with the words of its reason.
pub proof fn law_an_empty_take_is_no_failure_to_save(e: DecodeError, r: RecordError)
    requires
        seal_failure(e, r),
    ensures
        e is Empty <==> r is Empty,
        !(e is Empty) ==> (r matches RecordError::Cache(m) && m@ == e.text()),
{
}

} // verus!
