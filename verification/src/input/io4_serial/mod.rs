//! The serial touch slider as an input backend.
//!
//! What the backend decides stands here: how it starts up, what a touch report means, what is
//! shown on the LEDs and when the slider is told to start again. Reading, writing and waiting
//! are done by the caller.

pub mod serial_slider;

use crate::feedback::{FeedbackEvent, LedEvent};
use crate::input::io4_serial::serial_slider::{
    frame, law_led_frame, law_plain_frames, led_colours, ReceiveError, SerialSlider, SliderCommand,
    CELLS,
};
use crate::input::{
    EventModel, InputEvent, InputEventPacket, KeyModel, KeyboardEvent, PacketModel,
};
use crate::text::{decimal, lemma_numeral_distinct, numeral, views};
use vstd::prelude::*;

verus! {

/// The value from which on a cell counts as touched.
pub const TOUCH_THRESHOLD: u8 = 128;

/// The number of reports that may be missed in a row before the slider is told to start again.
pub const MISSES_BEFORE_RESTART: u8 = 2;

/// How long to wait between the hardware query and the start of touch input, in milliseconds.
pub const STARTUP_PAUSE_MILLIS: u64 = 100;

/// How long to wait after a missed report or a written feedback packet, in milliseconds.
pub const SHORT_PAUSE_MILLIS: u64 = 10;

/// How long the feedback side waits while it has nothing to do, in milliseconds.
pub const IDLE_PAUSE_MILLIS: u64 = 100;

/// An input backend for a slider on a serial port.
///
/// `I` is the stream that input packets are sent to, `F` the one that feedback comes from.
pub struct SliderSerialBackend<I, F> {
    pub has_chuniio_proxy_config: bool,
    pub serial_port: String,
    pub input_stream: I,
    pub feedback_stream: F,
}

impl<I, F> SliderSerialBackend<I, F> {
    /// A backend of these parts.
    pub fn new(
        has_chuniio_proxy_config: bool,
        serial_port: String,
        input_stream: I,
        feedback_stream: F,
    ) -> (r: Self)
        ensures
            r.has_chuniio_proxy_config == has_chuniio_proxy_config,
            r.serial_port == serial_port,
            r.input_stream == input_stream,
            r.feedback_stream == feedback_stream,
    {
        SliderSerialBackend {
            has_chuniio_proxy_config,
            serial_port,
            input_stream,
            feedback_stream,
        }
    }
}

/// Why the slider could not be started.
#[derive(Clone, Copy, Debug, PartialEq, Eq, Structural)]
pub enum StartupError {
    /// The port could not be opened.
    Unreachable,
    /// The slider did not answer the initialization.
    NotInitialized,
    /// The hardware info could not be read.
    NoHwInfo,
}

impl StartupError {
    /// The text that describes the error.
    pub fn to_string(&self) -> (r: String)
        ensures
            r@ == match self {
                StartupError::Unreachable => "Failed to talk to slider"@,
                StartupError::NotInitialized =>
                    "Failed to initialize slider. Make sure it is connected"@,
                StartupError::NoHwInfo => "Failed to get slider hardware info"@,
            },
    {
        match self {
            StartupError::Unreachable => "Failed to talk to slider".to_owned(),
            StartupError::NotInitialized =>
                "Failed to initialize slider. Make sure it is connected".to_owned(),
            StartupError::NoHwInfo => "Failed to get slider hardware info".to_owned(),
        }
    }
}

/// What is to be done next while the slider is started.
#[derive(Clone, Copy, Debug, PartialEq, Eq, Structural)]
pub enum StartupStage {
    /// Open the port.
    Opening,
    /// Initialize the slider.
    Initializing,
    /// Read the hardware info.
    Querying,
    /// Wait for a moment.
    Pausing,
    /// Write the frames that start touch input, then read reports and write feedback.
    Running,
    /// Give up.
    Failed(StartupError),
}

impl StartupStage {
    /// The stage that follows when this one succeeded or failed.
    pub open spec fn after(self, ok: bool) -> StartupStage {
        match self {
            StartupStage::Opening => if ok {
                StartupStage::Initializing
            } else {
                StartupStage::Failed(StartupError::Unreachable)
            },
            StartupStage::Initializing => if ok {
                StartupStage::Querying
            } else {
                StartupStage::Failed(StartupError::NotInitialized)
            },
            StartupStage::Querying => if ok {
                StartupStage::Pausing
            } else {
                StartupStage::Failed(StartupError::NoHwInfo)
            },
            StartupStage::Pausing => StartupStage::Running,
            last => last,
        }
    }

    /// The stage that follows when this one succeeded or failed.
    pub fn next(self, ok: bool) -> (r: StartupStage)
        ensures
            r == self.after(ok),
    {
        match self {
            StartupStage::Opening => if ok {
                StartupStage::Initializing
            } else {
                StartupStage::Failed(StartupError::Unreachable)
            },
            StartupStage::Initializing => if ok {
                StartupStage::Querying
            } else {
                StartupStage::Failed(StartupError::NotInitialized)
            },
            StartupStage::Querying => if ok {
                StartupStage::Pausing
            } else {
                StartupStage::Failed(StartupError::NoHwInfo)
            },
            StartupStage::Pausing => StartupStage::Running,
            last => last,
        }
    }
}

/// The frames that start touch input, in the order of writing: the command to start, then all
/// LEDs as if nothing was touched.
pub fn start_frames(slider: &SerialSlider) -> (r: (Vec<u8>, Vec<u8>))
    ensures
        r.0@ == frame(SliderCommand::InputStart, None),
        r.1@ == frame(SliderCommand::LedSet, Some(led_colours(Seq::new(32, |i: int| 0u8), 31))),
{
    let start = slider.send_command(SliderCommand::InputStart, None);
    let untouched: [u8; 32] = [0; 32];
    assert(untouched@ =~= Seq::new(32, |i: int| 0u8));
    let dark = slider.send_led_reactive(untouched);
    (start, dark)
}

/// Whether a feedback event sets an LED.
pub open spec fn sets_led(event: FeedbackEvent) -> bool {
    event matches FeedbackEvent::Led(led) && led is SetLed
}

/// The feedback events that set an LED, in order.
pub fn led_set_events(events: &Vec<FeedbackEvent>) -> (r: Vec<FeedbackEvent>)
    ensures
        r@ == events@.filter(|event: FeedbackEvent| sets_led(event)),
{
    let ghost keep = |event: FeedbackEvent| sets_led(event);
    let mut r: Vec<FeedbackEvent> = Vec::new();
    let mut i: usize = 0;
    proof {
        reveal(Seq::filter);
        assert(events@.take(0) =~= Seq::empty());
    }
    while i < events.len()
        invariant
            i <= events@.len(),
            keep == (|event: FeedbackEvent| sets_led(event)),
            r@ == events@.take(i as int).filter(keep),
        decreases events@.len() - i,
    {
        proof {
            reveal(Seq::filter);
            assert(events@.take(i + 1).drop_last() =~= events@.take(i as int));
            assert(events@.take(i + 1).last() == events@[i as int]);
        }
        let event = events[i];
        match event {
            FeedbackEvent::Led(LedEvent::SetLed { .. }) => {
                r.push(event);
            },
            _ => {},
        }
        i += 1;
    }
    assert(events@.take(i as int) =~= events@);
    r
}

/// The key of a touch cell.
pub open spec fn cell_key(cell: int) -> Seq<char> {
    "CHUNIIO_SLIDER_"@ + numeral(cell as nat)
}

/// Whether a value means that the cell is touched.
pub open spec fn touched(value: u8) -> bool {
    value >= TOUCH_THRESHOLD
}

/// What the change of one cell is reported as.
pub open spec fn cell_change(cell: int, before: u8, after: u8) -> Seq<EventModel> {
    if !touched(before) && touched(after) {
        seq![EventModel::Keyboard(KeyModel::Press(cell_key(cell)))]
    } else if touched(before) && !touched(after) {
        seq![EventModel::Keyboard(KeyModel::Release(cell_key(cell)))]
    } else {
        Seq::empty()
    }
}

/// What the changes of the first `cells` cells are reported as.
pub open spec fn changes(before: Seq<u8>, after: Seq<u8>, cells: nat) -> Seq<EventModel>
    decreases cells,
{
    if cells == 0 {
        Seq::empty()
    } else {
        changes(before, after, (cells - 1) as nat) + cell_change(
            cells - 1,
            before[cells - 1],
            after[cells - 1],
        )
    }
}

/// The packet that a change of the cells is reported in, if there is anything to report.
pub open spec fn change_packet(before: Seq<u8>, after: Seq<u8>, timestamp: u64) -> Option<
    PacketModel,
> {
    let events = changes(before, after, CELLS as nat);
    if events.len() == 0 {
        None
    } else {
        Some(PacketModel { device_id: "io4_serial"@, timestamp, events })
    }
}

/// Tracks previous input state to emit only changed events.
pub struct SliderSerialInputStateTracker {
    prev_slider: Vec<u8>,
}

impl View for SliderSerialInputStateTracker {
    type V = Seq<u8>;

    closed spec fn view(&self) -> Seq<u8> {
        self.prev_slider@
    }
}

impl SliderSerialInputStateTracker {
    #[verifier::type_invariant]
    spec fn well_formed(self) -> bool {
        self.prev_slider@.len() == CELLS
    }

    /// A tracker that has seen no cell touched.
    pub fn new() -> (r: Self)
        ensures
            r@ == Seq::new(32, |i: int| 0u8),
    {
        let prev_slider: Vec<u8> = vec![0; 32];
        assert(prev_slider@ =~= Seq::new(32, |i: int| 0u8));
        SliderSerialInputStateTracker { prev_slider }
    }

    /// Takes the cells of a report and gives the packet of what has changed since the last one.
    ///
    /// `timestamp` is the time of the report, in milliseconds since the Unix epoch.
    pub fn diff_and_packet(&mut self, slider: &[u8], timestamp: u64) -> (r: Option<
        InputEventPacket,
    >)
        requires
            slider@.len() == CELLS,
        ensures
            final(self)@ == slider@,
            match change_packet(old(self)@, slider@, timestamp) {
                Some(out) => r matches Some(p) && p@ == out,
                None => r is None,
            },
    {
        proof {
            use_type_invariant(&*self);
        }
        let mut events: Vec<InputEvent> = Vec::new();
        let mut copy: Vec<u8> = Vec::new();
        let mut i: usize = 0;
        let ghost before = self.prev_slider@;
        assert(views(events@) =~= Seq::empty());
        while i < CELLS
            invariant
                i <= CELLS,
                before == self.prev_slider@,
                before.len() == CELLS,
                slider@.len() == CELLS,
                copy@ == slider@.take(i as int),
                views(events@) == changes(before, slider@, i as nat),
            decreases CELLS - i,
        {
            let prev: u8 = self.prev_slider[i];
            let curr: u8 = slider[i];
            let ghost reported = views(events@);
            if prev < TOUCH_THRESHOLD && curr >= TOUCH_THRESHOLD {
                let key = key_of_cell(i);
                events.push(InputEvent::Keyboard(KeyboardEvent::KeyPress { key }));
                assert(views(events@) =~= reported + cell_change(i as int, prev, curr));
            } else if prev >= TOUCH_THRESHOLD && curr < TOUCH_THRESHOLD {
                let key = key_of_cell(i);
                events.push(InputEvent::Keyboard(KeyboardEvent::KeyRelease { key }));
                assert(views(events@) =~= reported + cell_change(i as int, prev, curr));
            } else {
                assert(views(events@) =~= reported + cell_change(i as int, prev, curr));
            }
            copy.push(curr);
            assert(copy@ =~= slider@.take(i + 1));
            i += 1;
        }
        assert(copy@ =~= slider@);
        self.prev_slider = copy;
        assert(views(events@).len() == events@.len());
        if events.is_empty() {
            None
        } else {
            Some(InputEventPacket { device_id: "io4_serial".to_owned(), timestamp, events })
        }
    }
}

/// The key of a touch cell.
fn key_of_cell(cell: usize) -> (r: String)
    ensures
        r@ == cell_key(cell as int),
{
    let mut key = "CHUNIIO_SLIDER_".to_owned();
    let number = decimal(cell);
    key.append(number.as_str());
    key
}

/// The cells of a report in the order of their keys, which is the reverse of the wire order.
fn reversed(report: &[u8; 32]) -> (r: Vec<u8>)
    ensures
        r@ == report@.reverse(),
{
    let mut r: Vec<u8> = Vec::new();
    let mut i: usize = 0;
    while i < CELLS
        invariant
            i <= CELLS,
            r@.len() == i,
            forall|k: int| 0 <= k < i ==> r@[k] == report@[31 - k],
        decreases CELLS - i,
    {
        r.push(report[31 - i]);
        i += 1;
    }
    assert(r@ =~= report@.reverse());
    r
}

/// What to do after an attempt to receive a touch report.
pub enum ReaderStep {
    /// Write the frame, if there is one, then send the packet, if there is one.
    Report { led_frame: Option<Vec<u8>>, packet: Option<InputEventPacket> },
    /// Write the frame, if there is one, then wait for a moment.
    Missed { restart_frame: Option<Vec<u8>> },
}

/// The model of a [`ReaderStep`].
pub enum ReaderStepModel {
    Report { led_frame: Option<Seq<u8>>, packet: Option<PacketModel> },
    Missed { restart_frame: Option<Seq<u8>> },
}

/// The bytes of a frame, if there is one.
pub open spec fn frame_view(bytes: Option<Vec<u8>>) -> Option<Seq<u8>> {
    match bytes {
        Some(bytes) => Some(bytes@),
        None => None,
    }
}

impl View for ReaderStep {
    type V = ReaderStepModel;

    open spec fn view(&self) -> ReaderStepModel {
        match self {
            ReaderStep::Report { led_frame, packet } => ReaderStepModel::Report {
                led_frame: frame_view(*led_frame),
                packet: match packet {
                    Some(packet) => Some(packet@),
                    None => None,
                },
            },
            ReaderStep::Missed { restart_frame } => ReaderStepModel::Missed {
                restart_frame: frame_view(*restart_frame),
            },
        }
    }
}

/// The report that was received, if one was.
pub open spec fn report_of(received: Result<Option<[u8; 32]>, ReceiveError>) -> Option<Seq<u8>> {
    match received {
        Ok(Some(report)) => Some(report@),
        _ => None,
    }
}

/// The model of a [`SliderReader`].
pub struct SliderReaderModel {
    /// Whether the LEDs are left to the feedback stream.
    pub proxy: bool,
    /// The cells of the last report.
    pub cells: Seq<u8>,
    /// The number of missed reports since the slider was last told to start again.
    pub misses: u8,
}

impl SliderReaderModel {
    /// After a report was received.
    pub open spec fn reported(self, report: Seq<u8>) -> SliderReaderModel {
        SliderReaderModel { cells: report.reverse(), ..self }
    }

    /// After a report was missed.
    pub open spec fn missed(self) -> SliderReaderModel {
        SliderReaderModel {
            misses: if self.restarts() {
                0
            } else {
                (self.misses + 1) as u8
            },
            ..self
        }
    }

    /// Whether the next missed report makes the slider be told to start again.
    pub open spec fn restarts(self) -> bool {
        self.misses + 1 >= MISSES_BEFORE_RESTART
    }

    /// After a report was received or missed, with what is to be done.
    pub open spec fn stepped(self, received: Option<Seq<u8>>, timestamp: u64) -> (
        SliderReaderModel,
        ReaderStepModel,
    ) {
        match received {
            Some(report) => (
                self.reported(report),
                ReaderStepModel::Report {
                    led_frame: if self.proxy {
                        None
                    } else {
                        Some(frame(SliderCommand::LedSet, Some(led_colours(report, 31))))
                    },
                    packet: change_packet(self.cells, report.reverse(), timestamp),
                },
            ),
            None => (
                self.missed(),
                ReaderStepModel::Missed {
                    restart_frame: if self.restarts() {
                        Some(frame(SliderCommand::InputStart, None))
                    } else {
                        None
                    },
                },
            ),
        }
    }
}

/// Turns touch reports into packets and keeps the slider going.
pub struct SliderReader {
    has_chuniio_proxy_config: bool,
    input_state_tracker: SliderSerialInputStateTracker,
    error_count: u8,
}

impl View for SliderReader {
    type V = SliderReaderModel;

    closed spec fn view(&self) -> SliderReaderModel {
        SliderReaderModel {
            proxy: self.has_chuniio_proxy_config,
            cells: self.input_state_tracker@,
            misses: self.error_count,
        }
    }
}

impl SliderReader {
    #[verifier::type_invariant]
    spec fn well_formed(self) -> bool {
        self.error_count < MISSES_BEFORE_RESTART
    }

    /// A reader that has received and missed nothing.
    pub fn new(has_chuniio_proxy_config: bool) -> (r: Self)
        ensures
            r@ == (SliderReaderModel {
                proxy: has_chuniio_proxy_config,
                cells: Seq::new(32, |i: int| 0u8),
                misses: 0,
            }),
    {
        SliderReader {
            has_chuniio_proxy_config,
            input_state_tracker: SliderSerialInputStateTracker::new(),
            error_count: 0,
        }
    }

    /// Takes the outcome of an attempt to receive a report, and the time of it.
    ///
    /// A report is shown on the LEDs, unless they are left to the feedback stream, and its changes
    /// are packed for the input stream. Anything else counts as missed; every second miss makes
    /// the slider be told to start again.
    pub fn step(
        &mut self,
        slider: &SerialSlider,
        received: Result<Option<[u8; 32]>, ReceiveError>,
        timestamp: u64,
    ) -> (r: ReaderStep)
        ensures
            final(self)@ == old(self)@.stepped(report_of(received), timestamp).0,
            r@ == old(self)@.stepped(report_of(received), timestamp).1,
    {
        proof {
            use_type_invariant(&*self);
        }
        match received {
            Ok(Some(touch)) => {
                let led_frame = if !self.has_chuniio_proxy_config {
                    Some(slider.send_led_reactive(touch))
                } else {
                    None
                };
                let cells = reversed(&touch);
                let mut tracker = SliderSerialInputStateTracker::new();
                std::mem::swap(&mut tracker, &mut self.input_state_tracker);
                let packet = tracker.diff_and_packet(cells.as_slice(), timestamp);
                self.input_state_tracker = tracker;
                ReaderStep::Report { led_frame, packet }
            },
            _ => {
                let error_count: u8 = self.error_count + 1;
                if error_count >= MISSES_BEFORE_RESTART {
                    self.error_count = 0;
                    ReaderStep::Missed {
                        restart_frame: Some(slider.send_command(SliderCommand::InputStart, None)),
                    }
                } else {
                    self.error_count = error_count;
                    ReaderStep::Missed { restart_frame: None }
                }
            },
        }
    }
}

/// The stage that is reached when the stages end like this.
pub open spec fn startup_run(outcomes: Seq<bool>) -> StartupStage
    decreases outcomes.len(),
{
    if outcomes.len() == 0 {
        StartupStage::Opening
    } else {
        startup_run(outcomes.drop_last()).after(outcomes.last())
    }
}

/// Law: the first of opening, initializing and querying that failed is the error, and startup
/// stays there. While none has failed, the stages follow one another, and touch input is started
/// behind the fourth.
pub proof fn law_startup(outcomes: Seq<bool>)
    ensures
        startup_run(outcomes) == (if outcomes.len() >= 1 && !outcomes[0] {
            StartupStage::Failed(StartupError::Unreachable)
        } else if outcomes.len() >= 2 && !outcomes[1] {
            StartupStage::Failed(StartupError::NotInitialized)
        } else if outcomes.len() >= 3 && !outcomes[2] {
            StartupStage::Failed(StartupError::NoHwInfo)
        } else if outcomes.len() == 0 {
            StartupStage::Opening
        } else if outcomes.len() == 1 {
            StartupStage::Initializing
        } else if outcomes.len() == 2 {
            StartupStage::Querying
        } else if outcomes.len() == 3 {
            StartupStage::Pausing
        } else {
            StartupStage::Running
        }),
    decreases outcomes.len(),
{
    if outcomes.len() > 0 {
        law_startup(outcomes.drop_last());
    }
}

/// Law: of two missed reports in a row, exactly one makes the slider be told to start again.
pub proof fn law_restart_every_second_miss(state: SliderReaderModel)
    requires
        state.misses < MISSES_BEFORE_RESTART,
    ensures
        state.missed().misses < MISSES_BEFORE_RESTART,
        state.restarts() != state.missed().restarts(),
        state.missed().missed() == state,
{
}

/// What a series of received and missed reports does to a reader, with what is to be done for each.
pub open spec fn reader_run(start: SliderReaderModel, inputs: Seq<(Option<Seq<u8>>, u64)>) -> (
    SliderReaderModel,
    Seq<ReaderStepModel>,
)
    decreases inputs.len(),
{
    if inputs.len() == 0 {
        (start, Seq::empty())
    } else {
        let (before, steps) = reader_run(start, inputs.drop_last());
        let (after, step) = before.stepped(inputs.last().0, inputs.last().1);
        (after, steps.push(step))
    }
}

/// The number of missed reports in a series.
pub open spec fn miss_count(inputs: Seq<(Option<Seq<u8>>, u64)>) -> nat
    decreases inputs.len(),
{
    if inputs.len() == 0 {
        0
    } else {
        miss_count(inputs.drop_last()) + if inputs.last().0 is None {
            1nat
        } else {
            0nat
        }
    }
}

/// Whether `earlier` is the position of the last report before position `n`, or -1 if there is
/// none.
pub open spec fn last_report_before(
    inputs: Seq<(Option<Seq<u8>>, u64)>,
    n: int,
    earlier: int,
) -> bool {
    &&& -1 <= earlier < n
    &&& earlier >= 0 ==> inputs[earlier].0 is Some
    &&& forall|k: int| earlier < k < n ==> (#[trigger] inputs[k]).0 is None
}

/// The cells that the report at position `earlier` tells, those of the start for -1.
pub open spec fn cells_from(
    start: SliderReaderModel,
    inputs: Seq<(Option<Seq<u8>>, u64)>,
    earlier: int,
) -> Seq<u8> {
    if earlier < 0 {
        start.cells
    } else {
        inputs[earlier].0->0.reverse()
    }
}

/// The bytes that a report is compared with: those of the report at position `earlier`, or for -1
/// the ones that would tell the cells of the start.
pub open spec fn bytes_from(
    start: SliderReaderModel,
    inputs: Seq<(Option<Seq<u8>>, u64)>,
    earlier: int,
) -> Seq<u8> {
    if earlier < 0 {
        start.cells.reverse()
    } else {
        inputs[earlier].0->0
    }
}

/// The reader behind a series: the cells are those of the last report, and the misses are counted
/// in twos.
proof fn lemma_reader_run_state(
    start: SliderReaderModel,
    inputs: Seq<(Option<Seq<u8>>, u64)>,
    earlier: int,
)
    requires
        start.misses < MISSES_BEFORE_RESTART,
        last_report_before(inputs, inputs.len() as int, earlier),
    ensures
        reader_run(start, inputs).1.len() == inputs.len(),
        reader_run(start, inputs).0 == (SliderReaderModel {
            proxy: start.proxy,
            cells: cells_from(start, inputs, earlier),
            misses: ((start.misses + miss_count(inputs)) % 2) as u8,
        }),
    decreases inputs.len(),
{
    if inputs.len() > 0 {
        let init = inputs.drop_last();
        if earlier == inputs.len() - 1 {
            let before = lemma_last_report_exists(init, init.len() as int);
            lemma_reader_run_state(start, init, before);
        } else {
            assert(inputs[inputs.len() - 1].0 is None);
            assert forall|k: int| earlier < k < init.len() implies (#[trigger] init[k]).0 is None by {
                assert(inputs[k].0 is None);
            }
            lemma_reader_run_state(start, init, earlier);
        }
    }
}

proof fn lemma_last_report_exists(inputs: Seq<(Option<Seq<u8>>, u64)>, n: int) -> (earlier: int)
    requires
        0 <= n <= inputs.len(),
    ensures
        last_report_before(inputs, n, earlier),
    decreases n,
{
    if n == 0 {
        -1
    } else if inputs[n - 1].0 is Some {
        n - 1
    } else {
        lemma_last_report_exists(inputs, n - 1)
    }
}

proof fn lemma_reader_run_step(
    start: SliderReaderModel,
    inputs: Seq<(Option<Seq<u8>>, u64)>,
    n: int,
)
    requires
        0 <= n < inputs.len(),
    ensures
        reader_run(start, inputs).1.len() == inputs.len(),
        reader_run(start, inputs).1[n] == reader_run(start, inputs.take(n)).0.stepped(
            inputs[n].0,
            inputs[n].1,
        ).1,
    decreases inputs.len(),
{
    let init = inputs.drop_last();
    lemma_reader_run_len(start, init);
    if n < init.len() {
        lemma_reader_run_step(start, init, n);
        assert(init.take(n) =~= inputs.take(n));
    } else {
        assert(init =~= inputs.take(n));
    }
}

proof fn lemma_reader_run_len(start: SliderReaderModel, inputs: Seq<(Option<Seq<u8>>, u64)>)
    ensures
        reader_run(start, inputs).1.len() == inputs.len(),
    decreases inputs.len(),
{
    if inputs.len() > 0 {
        lemma_reader_run_len(start, inputs.drop_last());
    }
}

/// Law: in a series of reports, each is compared with the last one before it, however many were
/// missed in between, and with the cells of the start if there is none. It is shown on the LEDs
/// unless they are left to the feedback stream. A miss sends no packet; it makes the slider be told
/// to start again exactly if the number of misses before it, with those of the start, is odd.
pub proof fn law_reader_run(
    start: SliderReaderModel,
    inputs: Seq<(Option<Seq<u8>>, u64)>,
    n: int,
    earlier: int,
)
    requires
        start.misses < MISSES_BEFORE_RESTART,
        0 <= n < inputs.len(),
        last_report_before(inputs, n, earlier),
    ensures
        reader_run(start, inputs).1.len() == inputs.len(),
        reader_run(start, inputs).1[n] == (match inputs[n].0 {
            Some(report) => ReaderStepModel::Report {
                led_frame: if start.proxy {
                    None
                } else {
                    Some(frame(SliderCommand::LedSet, Some(led_colours(report, 31))))
                },
                packet: change_packet(
                    cells_from(start, inputs, earlier),
                    report.reverse(),
                    inputs[n].1,
                ),
            },
            None => ReaderStepModel::Missed {
                restart_frame: if (start.misses + miss_count(inputs.take(n))) % 2 == 1 {
                    Some(frame(SliderCommand::InputStart, None))
                } else {
                    None
                },
            },
        }),
{
    let before = inputs.take(n);
    lemma_reader_run_step(start, inputs, n);
    assert forall|k: int| earlier < k < n implies (#[trigger] before[k]).0 is None by {
        assert(inputs[k].0 is None);
    }
    lemma_reader_run_state(start, before, earlier);
}

/// Law: what a report sends, told by its bytes and those of the last report before it, which a fresh
/// reader takes to be all 0 if there is none. The packet is one of the slider's, at the time of the later report; byte `31 - cell` decides about
/// `cell`: it is reported as pressed exactly if the byte has reached the threshold, and as released
/// exactly if it has fallen below. Nothing is sent exactly if no byte did either.
pub proof fn law_reader_run_bytes(
    start: SliderReaderModel,
    inputs: Seq<(Option<Seq<u8>>, u64)>,
    n: int,
    earlier: int,
)
    requires
        start.misses < MISSES_BEFORE_RESTART,
        0 <= n < inputs.len(),
        last_report_before(inputs, n, earlier),
        inputs[n].0 is Some,
        inputs[n].0->0.len() == CELLS,
        bytes_from(start, inputs, earlier).len() == CELLS,
    ensures
        start.cells == Seq::new(32, |i: int| 0u8) && earlier < 0 ==> bytes_from(
            start,
            inputs,
            earlier,
        ) == Seq::new(32, |i: int| 0u8),
        ({
            let old_bytes = bytes_from(start, inputs, earlier);
            let new_bytes = inputs[n].0->0;
            let step = reader_run(start, inputs).1[n];
            &&& step is Report
            &&& step->packet is None <==> forall|cell: int|
                0 <= cell < CELLS ==> touched(#[trigger] old_bytes[31 - cell]) == touched(
                    new_bytes[31 - cell],
                )
            &&& step->packet matches Some(packet) ==> {
                &&& packet.device_id == "io4_serial"@
                &&& packet.timestamp == inputs[n].1
                &&& forall|cell: int|
                    0 <= cell < CELLS ==> (packet.events.contains(
                        EventModel::Keyboard(KeyModel::Press(#[trigger] cell_key(cell))),
                    ) <==> !touched(old_bytes[31 - cell]) && touched(new_bytes[31 - cell]))
                &&& forall|cell: int|
                    0 <= cell < CELLS ==> (packet.events.contains(
                        EventModel::Keyboard(KeyModel::Release(#[trigger] cell_key(cell))),
                    ) <==> touched(old_bytes[31 - cell]) && !touched(new_bytes[31 - cell]))
            }
        }),
{
    let old_bytes = bytes_from(start, inputs, earlier);
    let new_bytes = inputs[n].0->0;
    let before = old_bytes.reverse();
    assert(before =~= cells_from(start, inputs, earlier));
    if start.cells == Seq::new(32, |i: int| 0u8) {
        assert(start.cells.reverse() =~= Seq::new(32, |i: int| 0u8));
    }
    let after = new_bytes.reverse();
    let events = changes(before, after, CELLS as nat);
    law_reader_run(start, inputs, n, earlier);
    assert forall|cell: int| 0 <= cell < CELLS implies (events.contains(
        EventModel::Keyboard(KeyModel::Press(#[trigger] cell_key(cell))),
    ) <==> !touched(old_bytes[31 - cell]) && touched(new_bytes[31 - cell])) && (events.contains(
        EventModel::Keyboard(KeyModel::Release(cell_key(cell))),
    ) <==> touched(old_bytes[31 - cell]) && !touched(new_bytes[31 - cell])) by {
        assert(before[cell] == old_bytes[31 - cell]);
        assert(after[cell] == new_bytes[31 - cell]);
        law_reported_exactly(before, after, cell);
    }
    if forall|cell: int|
        0 <= cell < CELLS ==> touched(#[trigger] old_bytes[31 - cell]) == touched(
            new_bytes[31 - cell],
        ) {
        assert forall|i: int| 0 <= i < CELLS implies touched(#[trigger] before[i]) == touched(
            after[i],
        ) by {
            assert(touched(old_bytes[31 - i]) == touched(new_bytes[31 - i]));
        }
        law_unchanged_unreported(before, after, inputs[n].1);
    } else {
        let cell = choose|cell: int|
            0 <= cell < CELLS && touched(#[trigger] old_bytes[31 - cell]) != touched(
                new_bytes[31 - cell],
            );
        let key = cell_key(cell);
        assert(events.contains(EventModel::Keyboard(KeyModel::Press(key))) || events.contains(
            EventModel::Keyboard(KeyModel::Release(key)),
        ));
        assert(events.len() > 0);
    }
}

/// Law: different cells have different keys.
pub proof fn law_cell_keys_distinct(a: int, b: int)
    requires
        0 <= a,
        0 <= b,
        cell_key(a) == cell_key(b),
    ensures
        a == b,
{
    let prefix = "CHUNIIO_SLIDER_"@;
    assert(cell_key(a).skip(prefix.len() as int) =~= numeral(a as nat));
    assert(cell_key(b).skip(prefix.len() as int) =~= numeral(b as nat));
    lemma_numeral_distinct(a as nat, b as nat);
}

/// Law: nothing is reported when no cell has become touched or untouched.
pub proof fn law_unchanged_unreported(before: Seq<u8>, after: Seq<u8>, timestamp: u64)
    requires
        before.len() == CELLS,
        after.len() == CELLS,
        forall|i: int| 0 <= i < CELLS ==> touched(#[trigger] before[i]) == touched(after[i]),
    ensures
        change_packet(before, after, timestamp) is None,
{
    lemma_no_changes(before, after, CELLS as nat);
}

proof fn lemma_no_changes(before: Seq<u8>, after: Seq<u8>, cells: nat)
    requires
        cells <= before.len(),
        forall|i: int| 0 <= i < cells ==> touched(#[trigger] before[i]) == touched(after[i]),
    ensures
        changes(before, after, cells).len() == 0,
    decreases cells,
{
    if cells > 0 {
        lemma_no_changes(before, after, (cells - 1) as nat);
        assert(touched(before[cells - 1]) == touched(after[cells - 1]));
    }
}

/// An event is reported exactly if it is the change of one of the cells.
proof fn lemma_reported(before: Seq<u8>, after: Seq<u8>, cells: nat, event: EventModel)
    ensures
        changes(before, after, cells).contains(event) <==> exists|i: int|
            0 <= i < cells && #[trigger] cell_change(i, before[i], after[i]).contains(event),
    decreases cells,
{
    if cells > 0 {
        let rest = changes(before, after, (cells - 1) as nat);
        let last = cell_change(cells - 1, before[cells - 1], after[cells - 1]);
        let all = changes(before, after, cells);
        lemma_reported(before, after, (cells - 1) as nat, event);
        if all.contains(event) {
            let k = choose|k: int| 0 <= k < all.len() && all[k] == event;
            if k < rest.len() {
                assert(rest[k] == event);
            } else {
                assert(last[k - rest.len()] == event);
            }
        }
        if rest.contains(event) {
            let k = choose|k: int| 0 <= k < rest.len() && rest[k] == event;
            assert(all[k] == event);
        }
        if last.contains(event) {
            let k = choose|k: int| 0 <= k < last.len() && last[k] == event;
            assert(all[rest.len() + k] == event);
        }
    }
}

/// Law: a cell is reported as pressed exactly if it has become touched, and as released exactly if
/// it has become untouched.
pub proof fn law_reported_exactly(before: Seq<u8>, after: Seq<u8>, cell: int)
    requires
        before.len() == CELLS,
        after.len() == CELLS,
        0 <= cell < CELLS,
    ensures
        changes(before, after, CELLS as nat).contains(
            EventModel::Keyboard(KeyModel::Press(cell_key(cell))),
        ) <==> !touched(before[cell]) && touched(after[cell]),
        changes(before, after, CELLS as nat).contains(
            EventModel::Keyboard(KeyModel::Release(cell_key(cell))),
        ) <==> touched(before[cell]) && !touched(after[cell]),
{
    let press = EventModel::Keyboard(KeyModel::Press(cell_key(cell)));
    let release = EventModel::Keyboard(KeyModel::Release(cell_key(cell)));
    lemma_reported(before, after, CELLS as nat, press);
    lemma_reported(before, after, CELLS as nat, release);
    let own = cell_change(cell, before[cell], after[cell]);
    if own.len() > 0 {
        assert(own.contains(own[0]));
    }
    assert forall|i: int, event: EventModel|
        0 <= i < CELLS && #[trigger] cell_change(i, before[i], after[i]).contains(event) && (event
            == press || event == release) implies i == cell by {
        let change = cell_change(i, before[i], after[i]);
        let k = choose|k: int| 0 <= k < change.len() && change[k] == event;
        assert(k == 0);
        assert(event->Keyboard_0.key() == cell_key(i));
        law_cell_keys_distinct(i, cell);
    }
    if changes(before, after, CELLS as nat).contains(press) {
        let i = choose|i: int|
            0 <= i < CELLS && #[trigger] cell_change(i, before[i], after[i]).contains(press);
        assert(i == cell);
        let k = choose|k: int| 0 <= k < own.len() && own[k] == press;
        assert(own[k] == press);
    }
    if changes(before, after, CELLS as nat).contains(release) {
        let i = choose|i: int|
            0 <= i < CELLS && #[trigger] cell_change(i, before[i], after[i]).contains(release);
        assert(i == cell);
        let k = choose|k: int| 0 <= k < own.len() && own[k] == release;
        assert(own[k] == release);
    }
}

/// Whether the event at position `at` of the reported changes is that of `cell`.
pub open spec fn change_of_cell(
    before: Seq<u8>,
    after: Seq<u8>,
    cells: nat,
    at: int,
    cell: int,
) -> bool {
    0 <= cell < cells && cell_change(cell, before[cell], after[cell]) == seq![
        changes(before, after, cells)[at],
    ]
}

/// Law: changes are reported in the order of the cells, each cell at most once.
pub proof fn law_reported_in_order(before: Seq<u8>, after: Seq<u8>, cells: nat, a: int, b: int)
    requires
        0 <= a < b < changes(before, after, cells).len(),
    ensures
        exists|i: int, j: int|
            i < j && #[trigger] change_of_cell(before, after, cells, a, i)
                && #[trigger] change_of_cell(before, after, cells, b, j),
{
    let i = lemma_change_has_cell(before, after, cells, a);
    let j = lemma_change_has_cell(before, after, cells, b);
    lemma_cells_ascend(before, after, cells, a, b, i, j);
}

proof fn lemma_change_has_cell(before: Seq<u8>, after: Seq<u8>, cells: nat, at: int) -> (cell: int)
    requires
        0 <= at < changes(before, after, cells).len(),
    ensures
        change_of_cell(before, after, cells, at, cell),
    decreases cells,
{
    let rest = changes(before, after, (cells - 1) as nat);
    if at < rest.len() {
        lemma_change_has_cell(before, after, (cells - 1) as nat, at)
    } else {
        let last = cell_change(cells - 1, before[cells - 1], after[cells - 1]);
        assert(last =~= seq![changes(before, after, cells)[at]]);
        cells - 1
    }
}

proof fn lemma_cells_ascend(
    before: Seq<u8>,
    after: Seq<u8>,
    cells: nat,
    a: int,
    b: int,
    i: int,
    j: int,
)
    requires
        0 <= a < b < changes(before, after, cells).len(),
        change_of_cell(before, after, cells, a, i),
        change_of_cell(before, after, cells, b, j),
    ensures
        i < j,
    decreases cells,
{
    let fewer = (cells - 1) as nat;
    let rest = changes(before, after, fewer);
    let last = cell_change(cells - 1, before[cells - 1], after[cells - 1]);
    assert(changes(before, after, cells) == rest + last);
    assert(a < rest.len());
    let p = lemma_change_has_cell(before, after, fewer, a);
    lemma_same_cell(before, after, cells, a, i, p);
    if b < rest.len() {
        let q = lemma_change_has_cell(before, after, fewer, b);
        lemma_same_cell(before, after, cells, b, j, q);
        lemma_cells_ascend(before, after, fewer, a, b, p, q);
    } else {
        assert(last =~= seq![changes(before, after, cells)[b]]);
        lemma_same_cell(before, after, cells, b, j, cells - 1);
    }
}

proof fn lemma_same_cell(before: Seq<u8>, after: Seq<u8>, cells: nat, at: int, i: int, j: int)
    requires
        0 <= i,
        0 <= j,
        cell_change(i, before[i], after[i]) == seq![changes(before, after, cells)[at]],
        cell_change(j, before[j], after[j]) == seq![changes(before, after, cells)[at]],
    ensures
        i == j,
{
    let event = changes(before, after, cells)[at];
    assert(cell_change(i, before[i], after[i])[0] == event);
    assert(cell_change(j, before[j], after[j])[0] == event);
    assert(event->Keyboard_0.key() == cell_key(i));
    assert(event->Keyboard_0.key() == cell_key(j));
    law_cell_keys_distinct(i, j);
}

/// The keys that are down after `events`, when `down` were before.
pub open spec fn keys_after(down: Set<Seq<char>>, events: Seq<EventModel>) -> Set<Seq<char>>
    decreases events.len(),
{
    if events.len() == 0 {
        down
    } else {
        let earlier = keys_after(down, events.drop_last());
        match events.last() {
            EventModel::Keyboard(KeyModel::Press(key)) => earlier.insert(key),
            EventModel::Keyboard(KeyModel::Release(key)) => earlier.remove(key),
            _ => earlier,
        }
    }
}

/// Whether `key` is the key of a touched cell.
pub open spec fn key_down(cells: Seq<u8>, key: Seq<char>) -> bool {
    exists|i: int| 0 <= i < cells.len() && touched(#[trigger] cells[i]) && key == cell_key(i)
}

/// Law: whoever follows the reported events knows which cells are touched. If exactly the keys of
/// the touched cells were down before, they are so after.
pub proof fn law_reports_follow_cells(before: Seq<u8>, after: Seq<u8>, down: Set<Seq<char>>)
    requires
        before.len() == CELLS,
        after.len() == CELLS,
        forall|key: Seq<char>| #[trigger] down.contains(key) <==> key_down(before, key),
    ensures
        forall|key: Seq<char>| #[trigger]
            keys_after(down, changes(before, after, CELLS as nat)).contains(key) <==> key_down(
                after,
                key,
            ),
{
    lemma_follow(before, after, down, CELLS as nat);
    assert(mixed(before, after, CELLS as nat) =~= after);
}

/// The first `cells` cells as they are after, the others as they were before.
spec fn mixed(before: Seq<u8>, after: Seq<u8>, cells: nat) -> Seq<u8> {
    Seq::new(before.len(), |i: int| if i < cells { after[i] } else { before[i] })
}

proof fn lemma_follow(before: Seq<u8>, after: Seq<u8>, down: Set<Seq<char>>, cells: nat)
    requires
        before.len() == after.len(),
        cells <= before.len(),
        forall|key: Seq<char>| #[trigger] down.contains(key) <==> key_down(before, key),
    ensures
        forall|key: Seq<char>| #[trigger]
            keys_after(down, changes(before, after, cells)).contains(key) <==> key_down(
                mixed(before, after, cells),
                key,
            ),
    decreases cells,
{
    let now = mixed(before, after, cells);
    if cells == 0 {
        assert(now =~= before);
    } else {
        let at = cells - 1;
        let earlier = mixed(before, after, at as nat);
        let events = changes(before, after, at as nat);
        let change = cell_change(at, before[at], after[at]);
        lemma_follow(before, after, down, at as nat);
        let held = keys_after(down, events);
        let held_now = keys_after(down, changes(before, after, cells));
        assert(earlier[at] == before[at]);
        assert(now[at] == after[at]);
        if change.len() > 0 {
            assert((events + change).drop_last() =~= events);
            assert((events + change).last() == change[0]);
        } else {
            assert(events + change =~= events);
        }
        assert forall|key: Seq<char>| #[trigger] held_now.contains(key) <==> key_down(now, key) by {
            assert(held.contains(key) <==> key_down(earlier, key));
            if key == cell_key(at) {
                if key_down(now, key) {
                    let i = choose|i: int|
                        0 <= i < now.len() && touched(#[trigger] now[i]) && key == cell_key(i);
                    law_cell_keys_distinct(i, at);
                }
                if touched(now[at]) {
                    assert(key_down(now, key));
                }
                if key_down(earlier, key) {
                    let i = choose|i: int|
                        0 <= i < earlier.len() && touched(#[trigger] earlier[i]) && key == cell_key(
                            i,
                        );
                    law_cell_keys_distinct(i, at);
                }
                if touched(earlier[at]) {
                    assert(key_down(earlier, key));
                }
            } else {
                if key_down(now, key) {
                    let i = choose|i: int|
                        0 <= i < now.len() && touched(#[trigger] now[i]) && key == cell_key(i);
                    assert(earlier[i] == now[i]);
                }
                if key_down(earlier, key) {
                    let i = choose|i: int|
                        0 <= i < earlier.len() && touched(#[trigger] earlier[i]) && key == cell_key(
                            i,
                        );
                    assert(now[i] == earlier[i]);
                }
            }
        }
    }
}

/// Law: the key of a cell is the name of the slider's keys followed by the number of the cell in
/// decimal digits.
pub proof fn law_cell_key(cell: int)
    requires
        0 <= cell < 32,
    ensures
        cell < 10 ==> cell_key(cell) == "CHUNIIO_SLIDER_"@ + seq![('0' as u32 + cell) as char],
        cell >= 10 ==> cell_key(cell) == "CHUNIIO_SLIDER_"@ + seq![
            ('0' as u32 + cell / 10) as char,
            ('0' as u32 + cell % 10) as char,
        ],
{
    let n = cell as nat;
    if n >= 10 {
        assert(numeral(n / 10) =~= seq![('0' as u32 + cell / 10) as char]);
        assert(numeral(n) =~= seq![
            ('0' as u32 + cell / 10) as char,
            ('0' as u32 + cell % 10) as char,
        ]);
    } else {
        assert(numeral(n) =~= seq![('0' as u32 + cell) as char]);
    }
}

/// The cells whose changes are reported, in the order of the reports.
proof fn lemma_changed_cells(before: Seq<u8>, after: Seq<u8>, count: nat) -> (cells: Seq<int>)
    ensures
        cells.len() == changes(before, after, count).len(),
        forall|j: int, k: int|
            0 <= j < k < cells.len() ==> #[trigger] cells[j] < #[trigger] cells[k],
        forall|k: int|
            0 <= k < cells.len() ==> 0 <= #[trigger] cells[k] < count && match changes(
                before,
                after,
                count,
            )[k] {
                EventModel::Keyboard(KeyModel::Press(key)) => key == cell_key(cells[k])
                    && before[cells[k]] < 128 <= after[cells[k]],
                EventModel::Keyboard(KeyModel::Release(key)) => key == cell_key(cells[k])
                    && after[cells[k]] < 128 <= before[cells[k]],
                _ => false,
            },
        forall|cell: int|
            0 <= cell < count && (before[cell] < 128 <= after[cell] || after[cell] < 128
                <= before[cell]) ==> #[trigger] cells.contains(cell),
    decreases count,
{
    if count == 0 {
        Seq::empty()
    } else {
        let at = count - 1;
        let rest = changes(before, after, at as nat);
        let all = changes(before, after, count);
        let earlier = lemma_changed_cells(before, after, at as nat);
        let change = cell_change(at, before[at], after[at]);
        let cells = if change.len() > 0 {
            earlier.push(at)
        } else {
            earlier
        };
        assert forall|k: int| 0 <= k < cells.len() implies 0 <= #[trigger] cells[k] < count
            && match all[k] {
            EventModel::Keyboard(KeyModel::Press(key)) => key == cell_key(cells[k])
                && before[cells[k]] < 128 <= after[cells[k]],
            EventModel::Keyboard(KeyModel::Release(key)) => key == cell_key(cells[k])
                && after[cells[k]] < 128 <= before[cells[k]],
            _ => false,
        } by {
            if k < earlier.len() {
                assert(earlier[k] == cells[k]);
                assert(all[k] == rest[k]);
            } else {
                assert(all[k] == change[0]);
            }
        }
        assert forall|cell: int|
            0 <= cell < count && (before[cell] < 128 <= after[cell] || after[cell] < 128
                <= before[cell]) implies #[trigger] cells.contains(cell) by {
            if cell < at {
                assert(earlier.contains(cell));
                let k = choose|k: int| 0 <= k < earlier.len() && earlier[k] == cell;
                assert(cells[k] == cell);
            } else {
                assert(cells[earlier.len() as int] == cell);
            }
        }
        cells
    }
}

/// Law: a report tells exactly the cells that have passed the value 128, in ascending order: those
/// that have reached it as pressed and those that have fallen below it as released. There is no
/// packet exactly if no cell has. The tracker then knows the new values.
pub proof fn law_diff_tells_changes(
    tracker: &mut SliderSerialInputStateTracker,
    slider: &[u8],
    timestamp: u64,
    r: Option<InputEventPacket>,
)
    requires
        call_ensures(
            SliderSerialInputStateTracker::diff_and_packet,
            (tracker, slider, timestamp),
            r,
        ),
        slider@.len() == 32,
        old(tracker)@.len() == 32,
    ensures
        final(tracker)@ == slider@,
        r is None <==> forall|cell: int|
            0 <= cell < 32 ==> (#[trigger] slider@[cell] >= 128 <==> old(tracker)@[cell] >= 128),
        r matches Some(packet) ==> {
            &&& packet.device_id@ == "io4_serial"@
            &&& packet.timestamp == timestamp
            &&& exists|cells: Seq<int>|
                #![trigger cells.len()]
                {
                    &&& cells.len() == packet.events@.len()
                    &&& forall|j: int, k: int|
                        0 <= j < k < cells.len() ==> #[trigger] cells[j] < #[trigger] cells[k]
                    &&& forall|k: int|
                        0 <= k < cells.len() ==> 0 <= #[trigger] cells[k] < 32 && match packet.events@[k] {
                            InputEvent::Keyboard(KeyboardEvent::KeyPress { key }) => key@
                                == cell_key(cells[k]) && old(tracker)@[cells[k]] < 128 <= slider@[cells[k]],
                            InputEvent::Keyboard(KeyboardEvent::KeyRelease { key }) => key@
                                == cell_key(cells[k]) && slider@[cells[k]] < 128 <= old(tracker)@[cells[k]],
                            _ => false,
                        }
                    &&& forall|cell: int|
                        0 <= cell < 32 && (old(tracker)@[cell] < 128 <= slider@[cell] || slider@[cell] < 128 <= old(tracker)@[cell])
                            ==> #[trigger] cells.contains(cell)
                }
        },
{
    let before = old(tracker)@;
    lemma_packet_tells_changes(before, slider@, timestamp, r);
}

/// What holds of a packet that reports a change of the cells, or of its absence.
proof fn lemma_packet_tells_changes(
    before: Seq<u8>,
    after: Seq<u8>,
    timestamp: u64,
    r: Option<InputEventPacket>,
)
    requires
        match change_packet(before, after, timestamp) {
            Some(out) => r matches Some(p) && p@ == out,
            None => r is None,
        },
        before.len() == 32,
        after.len() == 32,
    ensures
        r is None <==> forall|cell: int|
            0 <= cell < 32 ==> (#[trigger] after[cell] >= 128 <==> before[cell] >= 128),
        r matches Some(packet) ==> {
            let events = packet.events@;
            &&& packet.device_id@ == "io4_serial"@
            &&& packet.timestamp == timestamp
            &&& exists|cells: Seq<int>|
                #![trigger cells.len()]
                {
                    &&& cells.len() == events.len()
                    &&& forall|j: int, k: int|
                        0 <= j < k < cells.len() ==> #[trigger] cells[j] < #[trigger] cells[k]
                    &&& forall|k: int|
                        0 <= k < cells.len() ==> 0 <= #[trigger] cells[k] < 32 && match events[k] {
                            InputEvent::Keyboard(KeyboardEvent::KeyPress { key }) => key@
                                == cell_key(cells[k]) && before[cells[k]] < 128 <= after[cells[k]],
                            InputEvent::Keyboard(KeyboardEvent::KeyRelease { key }) => key@
                                == cell_key(cells[k]) && after[cells[k]] < 128 <= before[cells[k]],
                            _ => false,
                        }
                    &&& forall|cell: int|
                        0 <= cell < 32 && (before[cell] < 128 <= after[cell] || after[cell] < 128 <= before[cell])
                            ==> #[trigger] cells.contains(cell)
                }
        },
{
    let cells = lemma_changed_cells(before, after, 32);
    let all = changes(before, after, 32);
    if r is None {
        assert forall|cell: int| 0 <= cell < 32 implies (#[trigger] after[cell] >= 128
            <==> before[cell] >= 128) by {
            assert(!cells.contains(cell));
        }
    } else {
        let events = r->0.events@;
        assert(views(events).len() == events.len());
        let first = cells[0];
        assert((after[first] >= 128) != (before[first] >= 128));
        assert forall|k: int| 0 <= k < cells.len() implies 0 <= #[trigger] cells[k] < 32
            && match events[k] {
            InputEvent::Keyboard(KeyboardEvent::KeyPress { key }) => key@ == cell_key(cells[k])
                && before[cells[k]] < 128 <= after[cells[k]],
            InputEvent::Keyboard(KeyboardEvent::KeyRelease { key }) => key@ == cell_key(cells[k])
                && after[cells[k]] < 128 <= before[cells[k]],
            _ => false,
        } by {
            let cell = cells[k];
            assert(views(events) == all);
            assert(views(events)[k] == events[k]@);
            assert(all[k] is Keyboard && all[k]->Keyboard_0.key() == cell_key(cell));
            assert(events[k]@ == all[k]);
        }
        assert(cells.len() == events.len());
    }
}

/// Law: every report that is received is taken as one, whatever its bytes are. Byte `31 - cell` is
/// what the reader then knows of `cell`. The packet tells exactly the cells that have passed the
/// value 128, in ascending order: those whose byte has reached it as pressed and those whose byte
/// has fallen below it as released. There is no packet exactly if no cell has. A report leaves the
/// count of misses as it is.
pub proof fn law_step_takes_every_report(
    reader: &mut SliderReader,
    slider: &SerialSlider,
    touch: [u8; 32],
    timestamp: u64,
    r: ReaderStep,
)
    requires
        call_ensures(SliderReader::step, (reader, slider, Ok(Some(touch)), timestamp), r),
        old(reader)@.cells.len() == 32,
    ensures
        r is Report,
        final(reader)@.cells.len() == 32,
        forall|cell: int|
            0 <= cell < 32 ==> #[trigger] final(reader)@.cells[cell] == touch@[31 - cell],
        final(reader)@.misses == old(reader)@.misses,
        final(reader)@.proxy == old(reader)@.proxy,
        r->packet is None <==> forall|cell: int|
            0 <= cell < 32 ==> (touch@[31 - cell] >= 128 <==> #[trigger] old(reader)@.cells[cell]
                >= 128),
        r->packet matches Some(packet) ==> {
            &&& packet.device_id@ == "io4_serial"@
            &&& packet.timestamp == timestamp
            &&& exists|cells: Seq<int>|
                #![trigger cells.len()]
                {
                    &&& cells.len() == packet.events@.len()
                    &&& forall|j: int, k: int|
                        0 <= j < k < cells.len() ==> #[trigger] cells[j] < #[trigger] cells[k]
                    &&& forall|k: int|
                        0 <= k < cells.len() ==> 0 <= #[trigger] cells[k] < 32 && match packet.events@[k] {
                            InputEvent::Keyboard(KeyboardEvent::KeyPress { key }) => key@
                                == cell_key(cells[k]) && old(reader)@.cells[cells[k]] < 128 <= touch@[31 - cells[k]],
                            InputEvent::Keyboard(KeyboardEvent::KeyRelease { key }) => key@
                                == cell_key(cells[k]) && touch@[31 - cells[k]] < 128 <= old(reader)@.cells[cells[k]],
                            _ => false,
                        }
                    &&& forall|cell: int|
                        0 <= cell < 32 && (old(reader)@.cells[cell] < 128 <= touch@[31 - cell] || touch@[31 - cell] < 128 <= old(reader)@.cells[cell])
                            ==> #[trigger] cells.contains(cell)
                }
        },
{
    let before = old(reader)@.cells;
    let after = touch@.reverse();
    let packet = r->packet;
    assert(report_of(Ok(Some(touch))) == Some(touch@));
    assert(match change_packet(before, after, timestamp) {
        Some(out) => packet matches Some(p) && p@ == out,
        None => packet is None,
    });
    lemma_packet_tells_changes(before, after, timestamp, packet);
    assert forall|cell: int| 0 <= cell < 32 implies after[cell] == #[trigger] touch@[31 - cell] by {}
    if packet is None {
        assert forall|cell: int| 0 <= cell < 32 implies (touch@[31 - cell] >= 128
            <==> #[trigger] before[cell] >= 128) by {
            assert(after[cell] >= 128 <==> before[cell] >= 128);
        }
    }
    if forall|cell: int|
        0 <= cell < 32 ==> (touch@[31 - cell] >= 128 <==> #[trigger] before[cell] >= 128) {
        assert forall|cell: int| 0 <= cell < 32 implies (#[trigger] after[cell] >= 128
            <==> before[cell] >= 128) by {
            assert(touch@[31 - cell] >= 128 <==> before[cell] >= 128);
        }
    }
}

/// Law: a report is shown on the LEDs exactly if they are not left to the feedback stream. Then a
/// LED of odd number has the bytes `7f 23 00`; one of even number has `23 00 7f` if the byte of its
/// number is not 0, whatever the next byte is; `00 7f 23` if that byte is 0 and the next is not; and
/// `00 00 00` if both are 0.
pub proof fn law_step_shows_report(
    reader: &mut SliderReader,
    slider: &SerialSlider,
    touch: [u8; 32],
    timestamp: u64,
    r: ReaderStep,
    led: int,
)
    requires
        call_ensures(SliderReader::step, (reader, slider, Ok(Some(touch)), timestamp), r),
        0 <= led < 31,
    ensures
        r is Report,
        r->led_frame is None <==> old(reader)@.proxy,
        r->led_frame matches Some(bytes) ==> {
            let colour = (bytes@[4 + 3 * led], bytes@[5 + 3 * led], bytes@[6 + 3 * led]);
            &&& bytes@.len() == 98
            &&& bytes@.take(4) == seq![0xffu8, 0x02, 0x5e, 0x7f]
            &&& bytes@.fold_left(0int, |sum: int, b: u8| sum + b) % 256 == 0
            &&& led % 2 == 1 ==> colour == (0x7fu8, 0x23u8, 0x00u8)
            &&& led % 2 == 0 && touch@[led] != 0 ==> colour == (0x23u8, 0x00u8, 0x7fu8)
            &&& led % 2 == 0 && touch@[led] == 0 && touch@[led + 1] != 0 ==> colour == (
                0x00u8,
                0x7fu8,
                0x23u8,
            )
            &&& led % 2 == 0 && touch@[led] == 0 && touch@[led + 1] == 0 ==> colour == (
                0x00u8,
                0x00u8,
                0x00u8,
            )
        },
{
    assert(report_of(Ok(Some(touch))) == Some(touch@));
    law_led_frame(touch@, led);
}

/// Law: a report counts as missed exactly if none was received, be it for silence or for an error.
/// A miss sends no packet and leaves the cells as they are known. It makes the slider be told to
/// start again, by the bytes `ff 03 00 fe`, exactly if one miss was counted before, and is counted
/// itself otherwise.
pub proof fn law_step_misses(
    reader: &mut SliderReader,
    slider: &SerialSlider,
    received: Result<Option<[u8; 32]>, ReceiveError>,
    timestamp: u64,
    r: ReaderStep,
)
    requires
        call_ensures(SliderReader::step, (reader, slider, received, timestamp), r),
        old(reader)@.misses < 2,
    ensures
        r is Missed <==> !(received is Ok && received->Ok_0 is Some),
        r is Missed ==> {
            &&& final(reader)@.cells == old(reader)@.cells
            &&& final(reader)@.proxy == old(reader)@.proxy
            &&& final(reader)@.misses == 1 - old(reader)@.misses
            &&& r->restart_frame is Some <==> old(reader)@.misses == 1
            &&& r->restart_frame matches Some(bytes) ==> bytes@ == seq![0xffu8, 0x03, 0x00, 0xfe]
        },
{
    law_plain_frames();
}

/// Law: a new reader knows all cells to be 0 and has counted no miss.
pub proof fn law_new_reader(proxy: bool, r: SliderReader)
    requires
        call_ensures(SliderReader::new, (proxy,), r),
    ensures
        r@.proxy == proxy,
        r@.cells.len() == 32,
        forall|cell: int| 0 <= cell < 32 ==> #[trigger] r@.cells[cell] == 0,
        r@.misses == 0,
{
}

/// Law: a new tracker knows all cells to be 0.
pub proof fn law_new_tracker(r: SliderSerialInputStateTracker)
    requires
        call_ensures(SliderSerialInputStateTracker::new, (), r),
    ensures
        r@.len() == 32,
        forall|cell: int| 0 <= cell < 32 ==> #[trigger] r@[cell] == 0,
{
}

/// Law: a finger that is put down and lifted presses and releases. If a new reader gets two reports,
/// the first presses exactly the cells whose byte is 128 or more, and the second releases exactly
/// those of them whose byte no longer is, be it that no cell is touched any more.
pub proof fn law_lifted_is_released(
    proxy: bool,
    first: &mut SliderReader,
    second: &mut SliderReader,
    slider: &SerialSlider,
    a: ([u8; 32], u64),
    b: ([u8; 32], u64),
    r: ReaderStep,
    s: ReaderStep,
    cell: int,
)
    requires
        call_ensures(SliderReader::new, (proxy,), *old(first)),
        call_ensures(SliderReader::step, (first, slider, Ok(Some(a.0)), a.1), r),
        *old(second) == *final(first),
        call_ensures(SliderReader::step, (second, slider, Ok(Some(b.0)), b.1), s),
        0 <= cell < 32,
    ensures
        r is Report && s is Report,
        a.0@[31 - cell] >= 128 <==> r->packet is Some && exists|k: int|
            0 <= k < r->packet->0.events@.len() && (#[trigger] r->packet->0.events@[k])@
                == EventModel::Keyboard(KeyModel::Press(cell_key(cell))),
        a.0@[31 - cell] >= 128 && b.0@[31 - cell] < 128 <==> s->packet is Some && exists|k: int|
            0 <= k < s->packet->0.events@.len() && (#[trigger] s->packet->0.events@[k])@
                == EventModel::Keyboard(KeyModel::Release(cell_key(cell))),
{
    law_new_reader(proxy, *old(first));
    law_step_takes_every_report(first, slider, a.0, a.1, r);
    law_step_takes_every_report(second, slider, b.0, b.1, s);
    lemma_step_reports(old(first)@.cells, a.0@, a.1, r->packet, cell);
    lemma_step_reports(old(second)@.cells, b.0@, b.1, s->packet, cell);
}

proof fn lemma_step_reports(
    before: Seq<u8>,
    touch: Seq<u8>,
    timestamp: u64,
    packet: Option<InputEventPacket>,
    cell: int,
)
    requires
        before.len() == 32,
        touch.len() == 32,
        match change_packet(before, touch.reverse(), timestamp) {
            Some(out) => packet matches Some(p) && p@ == out,
            None => packet is None,
        },
        0 <= cell < 32,
    ensures
        before[cell] < 128 <= touch[31 - cell] <==> packet is Some && exists|k: int|
            0 <= k < packet->0.events@.len() && (#[trigger] packet->0.events@[k])@
                == EventModel::Keyboard(KeyModel::Press(cell_key(cell))),
        touch[31 - cell] < 128 <= before[cell] <==> packet is Some && exists|k: int|
            0 <= k < packet->0.events@.len() && (#[trigger] packet->0.events@[k])@
                == EventModel::Keyboard(KeyModel::Release(cell_key(cell))),
{
    let after = touch.reverse();
    let events = changes(before, after, 32);
    law_reported_exactly(before, after, cell);
    assert(after[cell] == touch[31 - cell]);
    if packet is Some {
        let given = packet->0.events@;
        assert(views(given) == events);
        assert(views(given).len() == given.len());
        let press = EventModel::Keyboard(KeyModel::Press(cell_key(cell)));
        let release = EventModel::Keyboard(KeyModel::Release(cell_key(cell)));
        assert forall|e: EventModel| #[trigger]
            events.contains(e) <==> exists|k: int|
                0 <= k < given.len() && (#[trigger] given[k])@ == e by {
            if events.contains(e) {
                let k = choose|k: int| 0 <= k < events.len() && events[k] == e;
                assert(views(given)[k] == given[k]@);
                assert(given[k]@ == e);
            }
            if exists|k: int| 0 <= k < given.len() && (#[trigger] given[k])@ == e {
                let k = choose|k: int| 0 <= k < given.len() && (#[trigger] given[k])@ == e;
                assert(events[k] == views(given)[k]);
                assert(events[k] == e);
            }
        }
        assert(events.contains(press) <==> before[cell] < 128 <= touch[31 - cell]);
        assert(events.contains(release) <==> touch[31 - cell] < 128 <= before[cell]);
    }
}

/// Law: touch input is started by the bytes `ff 03 00 fe`, and then all LEDs are set as if no cell
/// was touched: `7f 23 00` for those of odd number and `00 00 00` for the others.
pub proof fn law_start_frames(slider: &SerialSlider, r: (Vec<u8>, Vec<u8>), led: int)
    requires
        call_ensures(start_frames, (slider,), r),
        0 <= led < 31,
    ensures
        r.0@ == seq![0xffu8, 0x03, 0x00, 0xfe],
        r.1@.len() == 98,
        r.1@.take(4) == seq![0xffu8, 0x02, 0x5e, 0x7f],
        r.1@.fold_left(0int, |sum: int, b: u8| sum + b) % 256 == 0,
        (r.1@[4 + 3 * led], r.1@[5 + 3 * led], r.1@[6 + 3 * led]) == if led % 2 == 1 {
            (0x7fu8, 0x23u8, 0x00u8)
        } else {
            (0x00u8, 0x00u8, 0x00u8)
        },
{
    law_plain_frames();
    law_led_frame(Seq::new(32, |i: int| 0u8), led);
}

/// Law: of the feedback, exactly the events that set an LED are kept, each as it is and in order.
pub proof fn law_led_set_events(events: &Vec<FeedbackEvent>, r: Vec<FeedbackEvent>)
    requires
        call_ensures(led_set_events, (events,), r),
    ensures
        r@ == events@.filter(
            |event: FeedbackEvent|
                event matches FeedbackEvent::Led(LedEvent::SetLed { .. }),
        ),
{
    lemma_same_filter(
        events@,
        |event: FeedbackEvent| sets_led(event),
        |event: FeedbackEvent| event matches FeedbackEvent::Led(LedEvent::SetLed { .. }),
    );
}

proof fn lemma_same_filter(
    events: Seq<FeedbackEvent>,
    p: spec_fn(FeedbackEvent) -> bool,
    q: spec_fn(FeedbackEvent) -> bool,
)
    requires
        forall|event: FeedbackEvent| #[trigger] p(event) == q(event),
    ensures
        events.filter(p) == events.filter(q),
    decreases events.len(),
{
    reveal(Seq::filter);
    if events.len() > 0 {
        lemma_same_filter(events.drop_last(), p, q);
        assert(p(events.last()) == q(events.last()));
    }
}

/// Law: opening, initializing and querying lead on only if they succeed, and otherwise to an error
/// that tells which of them failed. The pause always leads on, and touch input and errors stay.
pub proof fn law_startup_next(stage: StartupStage, ok: bool, r: StartupStage)
    requires
        call_ensures(StartupStage::next, (stage, ok), r),
    ensures
        r == StartupStage::Initializing <==> stage == StartupStage::Opening && ok,
        r == StartupStage::Querying <==> stage == StartupStage::Initializing && ok,
        r == StartupStage::Pausing <==> stage == StartupStage::Querying && ok,
        r == StartupStage::Running <==> stage == StartupStage::Pausing || stage
            == StartupStage::Running,
        r == StartupStage::Failed(StartupError::Unreachable) <==> (stage == StartupStage::Opening
            && !ok) || stage == StartupStage::Failed(StartupError::Unreachable),
        r == StartupStage::Failed(StartupError::NotInitialized) <==> (stage
            == StartupStage::Initializing && !ok) || stage == StartupStage::Failed(
            StartupError::NotInitialized,
        ),
        r == StartupStage::Failed(StartupError::NoHwInfo) <==> (stage == StartupStage::Querying
            && !ok) || stage == StartupStage::Failed(StartupError::NoHwInfo),
{
}

} // verus!
