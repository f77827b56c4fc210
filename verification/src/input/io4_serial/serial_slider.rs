//! The wire protocol of the serial touch slider.
//!
//! A command travels as a frame: `0xff`, the command code, a length part, the data and a checksum
//! that makes all bytes sum up to a multiple of 256. The slider itself is never touched here:
//! functions give the bytes to write and take the bytes that were read.

use vstd::prelude::*;
use vstd::utf8::{decode_utf8, valid_utf8};

verus! {

/// The speed of the serial line, in baud.
pub const BAUD_RATE: u32 = 115_200;

/// How long a read waits for bytes, in milliseconds.
pub const READ_TIMEOUT_MILLIS: u64 = 10;

/// How many times a request is repeated after the first attempt.
pub const MAX_RETRIES: u8 = 3;

/// The number of touch cells, and of bytes in a touch report.
pub const CELLS: usize = 32;

/// A command to the slider.
#[derive(Clone, Copy, Debug)]
pub enum SliderCommand {
    SliderInit,
    HwInfo,
    LedSet,
    InputStart,
}

impl SliderCommand {
    /// The code of the command on the wire.
    pub open spec fn wire_code(self) -> u8 {
        match self {
            SliderCommand::SliderInit => 0x10,
            SliderCommand::HwInfo => 0xf0,
            SliderCommand::LedSet => 0x02,
            SliderCommand::InputStart => 0x03,
        }
    }

    /// What stands between the command code and the data.
    pub open spec fn length_part(self) -> Seq<u8> {
        match self {
            SliderCommand::LedSet => seq![0x5e, 0x7f],
            _ => seq![0x00],
        }
    }

    /// The code of the command on the wire.
    pub fn code(&self) -> (r: u8)
        ensures
            r == self.wire_code(),
    {
        match self {
            SliderCommand::SliderInit => 0x10,
            SliderCommand::HwInfo => 0xf0,
            SliderCommand::LedSet => 0x02,
            SliderCommand::InputStart => 0x03,
        }
    }
}

/// The sum of all bytes.
pub open spec fn byte_sum(bytes: Seq<u8>) -> nat
    decreases bytes.len(),
{
    if bytes.len() == 0 {
        0
    } else {
        byte_sum(bytes.drop_last()) + bytes.last() as nat
    }
}

/// The byte that completes the sum of all bytes to a multiple of 256.
pub open spec fn checksum_of(bytes: Seq<u8>) -> u8 {
    ((256 - byte_sum(bytes) % 256) % 256) as u8
}

/// Optional data with nothing taken as no bytes.
pub open spec fn data_bytes(data: Option<Seq<u8>>) -> Seq<u8> {
    match data {
        Some(extra) => extra,
        None => Seq::empty(),
    }
}

/// A command without its checksum.
pub open spec fn unchecked_frame(command: SliderCommand, data: Option<Seq<u8>>) -> Seq<u8> {
    seq![0xff, command.wire_code()] + command.length_part() + data_bytes(data)
}

/// A command as it travels.
pub open spec fn frame(command: SliderCommand, data: Option<Seq<u8>>) -> Seq<u8> {
    let unchecked = unchecked_frame(command, data);
    unchecked.push(checksum_of(unchecked))
}

/// The content of optional data.
pub open spec fn data_view(data: Option<&[u8]>) -> Option<Seq<u8>> {
    match data {
        Some(extra) => Some(extra@),
        None => None,
    }
}

/// The three colour bytes of one LED, of which there are 31, when a touch report is shown.
///
/// LEDs of odd number separate the keys and have a fixed colour. The others show whether the
/// cell of the same number is touched, or else whether the next one is.
pub open spec fn led_colour(cells: Seq<u8>, led: int) -> Seq<u8> {
    if led % 2 == 1 {
        seq![0x7f, 0x23, 0]
    } else if cells[led] != 0 {
        seq![0x23, 0, 0x7f]
    } else if cells[led + 1] != 0 {
        seq![0, 0x7f, 0x23]
    } else {
        seq![0, 0, 0]
    }
}

/// The colours of the first `leds` LEDs.
pub open spec fn led_colours(cells: Seq<u8>, leds: nat) -> Seq<u8>
    decreases leds,
{
    if leds == 0 {
        Seq::empty()
    } else {
        led_colours(cells, (leds - 1) as nat) + led_colour(cells, leds - 1)
    }
}

/// What the slider answers to a successful initialization.
pub open spec fn init_reply() -> Seq<u8> {
    seq![0xff, 0x10, 0x00, 0xf1]
}

/// What the known slider model answers to a query for its hardware.
pub open spec fn known_hw_info() -> Seq<u8> {
    seq![
        0xff, 0xf0, 0x12, 0x31, 0x35, 0x33, 0x33, 0x30, 0x20, 0x20, 0x20, 0xa0, 0x30, 0x36, 0x37,
        0x31, 0x32, 0xfd, 0xfe, 0x90, 0x00, 0x64,
    ]
}

/// Whether two byte strings are equal.
fn same_bytes(a: &[u8], b: &[u8]) -> (r: bool)
    ensures
        r == (a@ == b@),
{
    if a.len() != b.len() {
        return false;
    }
    let mut i: usize = 0;
    while i < a.len()
        invariant
            a@.len() == b@.len(),
            i <= a@.len(),
            forall|k: int| 0 <= k < i ==> a@[k] == b@[k],
        decreases a@.len() - i,
    {
        if a[i] != b[i] {
            return false;
        }
        i += 1;
    }
    assert(a@ =~= b@);
    true
}

/// A touch slider on a serial port.
#[derive(Debug)]
pub struct SerialSlider {
    serial_port_name: String,
}

impl View for SerialSlider {
    type V = Seq<char>;

    closed spec fn view(&self) -> Seq<char> {
        self.serial_port_name@
    }
}

impl SerialSlider {
    /// A slider on the port of that name.
    pub fn new(serial_port_name: String) -> (r: Self)
        ensures
            r@ == serial_port_name@,
    {
        SerialSlider { serial_port_name }
    }

    /// The name of the port.
    pub fn port_name(&self) -> (r: &str)
        ensures
            r@ == self@,
    {
        self.serial_port_name.as_str()
    }

    /// The bytes of a command, without the checksum.
    pub fn create_command(command: SliderCommand, data: Option<&[u8]>) -> (r: Vec<u8>)
        ensures
            r@ == unchecked_frame(command, data_view(data)),
    {
        let mut buffer: Vec<u8> = Vec::new();
        buffer.push(0xff);
        buffer.push(command.code());
        match command {
            SliderCommand::LedSet => {
                buffer.push(0x5e);
                buffer.push(0x7f);
            },
            _ => {
                buffer.push(0x00);
            },
        }
        assert(buffer@ =~= seq![0xff, command.wire_code()] + command.length_part());
        match data {
            Some(extra) => {
                let ghost head = buffer@;
                buffer.extend_from_slice(extra);
                assert(buffer@ =~= head + extra@);
            },
            None => {
                assert(buffer@ =~= buffer@ + Seq::empty());
            },
        }
        buffer
    }

    /// The checksum of some bytes. The sum wraps around, so any number of bytes will do.
    pub fn checksum(&self, arr: &[u8]) -> (r: u8)
        ensures
            r == checksum_of(arr@),
    {
        let mut sum: u16 = 0;
        let mut i: usize = 0;
        assert(arr@.take(0) =~= Seq::empty());
        while i < arr.len()
            invariant
                i <= arr@.len(),
                sum as nat == byte_sum(arr@.take(i as int)) % 65536,
            decreases arr@.len() - i,
        {
            assert(arr@.take(i + 1).drop_last() =~= arr@.take(i as int));
            sum = sum.wrapping_add(arr[i] as u16);
            i += 1;
        }
        assert(arr@.take(i as int) =~= arr@);
        assert(sum as nat % 256 == byte_sum(arr@) % 256);
        let ghost folded: u16 = !sum & 0xff;
        assert(folded <= 0xff && folded == 255 - sum % 256) by (bit_vector)
            requires
                folded == !sum & 0xff,
        ;
        let mut checksum: u16 = (!sum & 0xff) + 1;
        assert(checksum & 0xff == checksum % 256) by (bit_vector);
        checksum = checksum & 0xff;
        checksum as u8
    }

    /// The bytes to write for a command.
    pub fn send_command(&self, command: SliderCommand, data: Option<&[u8]>) -> (r: Vec<u8>)
        ensures
            r@ == frame(command, data_view(data)),
    {
        let mut bytes = Self::create_command(command, data);
        let checksum = self.checksum(bytes.as_slice());
        bytes.push(checksum);
        bytes
    }

    /// The bytes to write for the LEDs to show a touch report.
    pub fn send_led_reactive(&self, input_data: [u8; 32]) -> (r: Vec<u8>)
        ensures
            r@ == frame(SliderCommand::LedSet, Some(led_colours(input_data@, 31))),
    {
        let mut data: Vec<u8> = Vec::new();
        let mut x: usize = 0;
        while x < 31
            invariant
                x <= 31,
                data@ == led_colours(input_data@, x as nat),
            decreases 31 - x,
        {
            let ghost before = data@;
            if x % 2 == 1 {
                data.push(0x7f);
                data.push(0x23);
                data.push(0);
            } else if input_data[x] != 0 {
                data.push(0x23);
                data.push(0);
                data.push(0x7f);
            } else if input_data[x + 1] != 0 {
                data.push(0);
                data.push(0x7f);
                data.push(0x23);
            } else {
                data.push(0);
                data.push(0);
                data.push(0);
            }
            assert(data@ =~= before + led_colour(input_data@, x as int));
            x += 1;
        }
        self.send_command(SliderCommand::LedSet, Some(data.as_slice()))
    }
}

/// The text that `String::from_utf8_lossy` makes out of some bytes.
pub uninterp spec fn utf8_lossy(bytes: Seq<u8>) -> Seq<char>;

/// Calls `String::from_utf8_lossy`.
///
/// The text depends on the bytes alone, and bytes that are UTF-8 give the text that they encode.
/// Which replacement characters stand for other bytes is left unsaid.
#[verifier::external_body]
fn text_of_bytes(bytes: &[u8]) -> (r: String)
    ensures
        r@ == utf8_lossy(bytes@),
        valid_utf8(bytes@) ==> r@ == decode_utf8(bytes@),
{
    String::from_utf8_lossy(bytes).into_owned()
}

/// What to do after an attempt to initialize the slider.
#[derive(Debug, PartialEq, Eq)]
pub enum InitStep {
    /// Send the command again; `counter` retries were decided on by now.
    Retry { counter: u8 },
    /// Stop; tells whether the slider is initialized.
    Finished(bool),
}

/// What to do after an attempt to read the hardware info.
#[derive(Debug, PartialEq, Eq)]
pub enum HwInfoStep {
    /// Send the command again; `counter` retries were decided on by now.
    Retry { counter: u8 },
    /// Stop with this text.
    Info(String),
    /// Stop because the answer could not be read.
    ReadFailed,
}

impl SerialSlider {
    /// Decides what follows an attempt to initialize the slider.
    ///
    /// `counter` counts the retries so far, and `response` is what stands in the read buffer
    /// after the attempt, whether or not the read succeeded.
    pub fn init_slider(&self, counter: u8, response: &[u8; 4]) -> (r: InitStep)
        ensures
            r == init_step(counter, response@),
    {
        let expected: [u8; 4] = [0xff, 0x10, 0x00, 0xf1];
        assert(expected@ =~= init_reply());
        if same_bytes(response.as_slice(), expected.as_slice()) {
            InitStep::Finished(true)
        } else if counter >= MAX_RETRIES {
            InitStep::Finished(false)
        } else {
            InitStep::Retry { counter: counter + 1 }
        }
    }

    /// Decides what follows an attempt to read the hardware info.
    ///
    /// `counter` counts the retries so far, and `response` is what was read, if it was.
    pub fn get_hw_info(&self, counter: u8, response: Option<&[u8; 22]>) -> (r: HwInfoStep)
        ensures
            match response {
                None => r == HwInfoStep::ReadFailed,
                Some(bytes) => if hw_info_complete(counter, bytes@) {
                    r matches HwInfoStep::Info(text) && text@ == utf8_lossy(bytes@) && (valid_utf8(
                        bytes@,
                    ) ==> text@ == decode_utf8(bytes@))
                } else {
                    r == (HwInfoStep::Retry { counter: (counter + 1) as u8 })
                },
            },
    {
        match response {
            None => HwInfoStep::ReadFailed,
            Some(bytes) => {
                let expected: [u8; 22] = [
                    0xff, 0xf0, 0x12, 0x31, 0x35, 0x33, 0x33, 0x30, 0x20, 0x20, 0x20, 0xa0, 0x30,
                    0x36, 0x37, 0x31, 0x32, 0xfd, 0xfe, 0x90, 0x00, 0x64,
                ];
                assert(expected@ =~= known_hw_info());
                if same_bytes(bytes.as_slice(), expected.as_slice()) || counter >= MAX_RETRIES {
                    HwInfoStep::Info(text_of_bytes(bytes.as_slice()))
                } else {
                    HwInfoStep::Retry { counter: counter + 1 }
                }
            },
        }
    }

    /// Starts to receive a touch report.
    pub fn receive_input(&self) -> (r: InputReader)
        ensures
            r@ == ReaderModel::Seeking,
    {
        InputReader { stage: Stage::Seeking, buffer: [0; 32], filled: 0 }
    }
}

/// What follows an attempt to initialize the slider.
pub open spec fn init_step(counter: u8, response: Seq<u8>) -> InitStep {
    if response == init_reply() {
        InitStep::Finished(true)
    } else if counter >= MAX_RETRIES {
        InitStep::Finished(false)
    } else {
        InitStep::Retry { counter: (counter + 1) as u8 }
    }
}

/// Whether an answer to a query for the hardware is taken as it is.
pub open spec fn hw_info_complete(counter: u8, response: Seq<u8>) -> bool {
    response == known_hw_info() || counter >= MAX_RETRIES
}

/// Why the bytes of a touch report were not understood.
#[derive(Debug, PartialEq, Eq)]
pub enum ReceiveError {
    /// The command code of the report is another one.
    UnexpectedCommand(u8),
    /// The announced number of bytes is another one.
    UnexpectedLength(u8),
}

impl ReceiveError {
    /// The text that describes the error.
    pub fn to_string(&self) -> (r: String)
        ensures
            r@ == match self {
                ReceiveError::UnexpectedCommand(_) => "Unexpected command type"@,
                ReceiveError::UnexpectedLength(_) => "Unexpected packet length"@,
            },
    {
        match self {
            ReceiveError::UnexpectedCommand(_) => "Unexpected command type".to_owned(),
            ReceiveError::UnexpectedLength(_) => "Unexpected packet length".to_owned(),
        }
    }
}

/// What to do after an attempt to read a byte of a touch report.
#[derive(Debug, PartialEq, Eq)]
pub enum ReceiveStep {
    /// Read the next byte.
    Read,
    /// Stop; tells the report, if it was complete.
    Finished(Result<Option<[u8; 32]>, ReceiveError>),
}

/// How far a report was read.
enum Stage {
    Seeking,
    Synced,
    Length,
    Payload,
    Trailer,
}

/// Reads a touch report byte by byte.
///
/// A report is `0xff` (once or more), `0x01`, `0x20`, 32 bytes and one byte that is not looked at.
/// Bytes before the first `0xff` are skipped.
pub struct InputReader {
    stage: Stage,
    buffer: [u8; 32],
    filled: usize,
}

/// The model of an [`InputReader`]: how far the report was read.
pub enum ReaderModel {
    /// Looking for the first `0xff`.
    Seeking,
    /// Behind an `0xff`.
    Synced,
    /// Behind the command code.
    Length,
    /// Behind these bytes of the report, fewer than 32.
    Payload(Seq<u8>),
    /// Behind the report.
    Trailer(Seq<u8>),
}

/// What one read brings about.
pub enum ReadModel {
    /// There is more to read.
    More(ReaderModel),
    /// The line was silent for too long.
    Silence,
    /// The report is of another kind.
    BadCommand(u8),
    /// The report is of another length.
    BadLength(u8),
    /// The report is complete.
    Report(Seq<u8>),
}

impl ReaderModel {
    /// What a read that gives `byte`, or nothing, brings about.
    pub open spec fn read(self, byte: Option<u8>) -> ReadModel {
        match (self, byte) {
            (ReaderModel::Trailer(report), _) => ReadModel::Report(report),
            (_, None) => ReadModel::Silence,
            (ReaderModel::Seeking, Some(b)) => if b == 0xff {
                ReadModel::More(ReaderModel::Synced)
            } else {
                ReadModel::More(ReaderModel::Seeking)
            },
            (ReaderModel::Synced, Some(b)) => if b == 0xff {
                ReadModel::More(ReaderModel::Synced)
            } else if b == 0x01 {
                ReadModel::More(ReaderModel::Length)
            } else {
                ReadModel::BadCommand(b)
            },
            (ReaderModel::Length, Some(b)) => if b == 0x20 {
                ReadModel::More(ReaderModel::Payload(Seq::empty()))
            } else {
                ReadModel::BadLength(b)
            },
            (ReaderModel::Payload(part), Some(b)) => if part.len() + 1 < CELLS {
                ReadModel::More(ReaderModel::Payload(part.push(b)))
            } else {
                ReadModel::More(ReaderModel::Trailer(part.push(b)))
            },
        }
    }
}

impl View for InputReader {
    type V = ReaderModel;

    closed spec fn view(&self) -> ReaderModel {
        match self.stage {
            Stage::Seeking => ReaderModel::Seeking,
            Stage::Synced => ReaderModel::Synced,
            Stage::Length => ReaderModel::Length,
            Stage::Payload => ReaderModel::Payload(self.buffer@.take(self.filled as int)),
            Stage::Trailer => ReaderModel::Trailer(self.buffer@),
        }
    }
}

impl InputReader {
    #[verifier::type_invariant]
    spec fn well_formed(self) -> bool {
        self.stage is Payload ==> self.filled < 32
    }

    /// Takes the result of reading one byte, `None` if the line was silent for too long.
    ///
    /// A reader that has finished starts over.
    pub fn step(&mut self, byte: Option<u8>) -> (r: ReceiveStep)
        ensures
            match old(self)@.read(byte) {
                ReadModel::More(next) => r == ReceiveStep::Read && final(self)@ == next,
                ReadModel::Silence => r == ReceiveStep::Finished(Ok(None)),
                ReadModel::BadCommand(b) => r == ReceiveStep::Finished(
                    Err(ReceiveError::UnexpectedCommand(b)),
                ),
                ReadModel::BadLength(b) => r == ReceiveStep::Finished(
                    Err(ReceiveError::UnexpectedLength(b)),
                ),
                ReadModel::Report(report) => r matches ReceiveStep::Finished(Ok(Some(bytes)))
                    && bytes@ == report,
            },
            r is Finished ==> final(self)@ == ReaderModel::Seeking,
    {
        proof {
            use_type_invariant(&*self);
        }
        match (&self.stage, byte) {
            (Stage::Trailer, _) => {
                self.stage = Stage::Seeking;
                ReceiveStep::Finished(Ok(Some(self.buffer)))
            },
            (_, None) => {
                self.stage = Stage::Seeking;
                ReceiveStep::Finished(Ok(None))
            },
            (Stage::Seeking, Some(b)) => {
                if b == 0xff {
                    self.stage = Stage::Synced;
                }
                ReceiveStep::Read
            },
            (Stage::Synced, Some(b)) => {
                if b == 0xff {
                    ReceiveStep::Read
                } else if b == 0x01 {
                    self.stage = Stage::Length;
                    ReceiveStep::Read
                } else {
                    self.stage = Stage::Seeking;
                    ReceiveStep::Finished(Err(ReceiveError::UnexpectedCommand(b)))
                }
            },
            (Stage::Length, Some(b)) => {
                if b == 0x20 {
                    self.filled = 0;
                    self.stage = Stage::Payload;
                    assert(self.buffer@.take(0) =~= Seq::empty());
                    ReceiveStep::Read
                } else {
                    self.stage = Stage::Seeking;
                    ReceiveStep::Finished(Err(ReceiveError::UnexpectedLength(b)))
                }
            },
            (Stage::Payload, Some(b)) => {
                let at: usize = self.filled;
                let ghost part = self.buffer@.take(at as int);
                let mut buffer = self.buffer;
                buffer[at] = b;
                assert(buffer@.take(at + 1) =~= part.push(b));
                self.buffer = buffer;
                if at + 1 < 32 {
                    self.filled = at + 1;
                } else {
                    assert(buffer@.take(32) =~= buffer@);
                    self.stage = Stage::Trailer;
                }
                ReceiveStep::Read
            },
        }
    }
}

/// Law: the bytes of every frame sum up to a multiple of 256.
pub proof fn law_frame_sum(command: SliderCommand, data: Option<Seq<u8>>)
    ensures
        byte_sum(frame(command, data)) % 256 == 0,
{
    let unchecked = unchecked_frame(command, data);
    assert(frame(command, data).drop_last() =~= unchecked);
}

/// Law: a frame tells its command and its data.
pub proof fn law_frame_unambiguous(
    a: SliderCommand,
    a_data: Option<Seq<u8>>,
    b: SliderCommand,
    b_data: Option<Seq<u8>>,
)
    requires
        frame(a, a_data) == frame(b, b_data),
    ensures
        a == b,
        data_bytes(a_data) == data_bytes(b_data),
{
    let fa = unchecked_frame(a, a_data);
    let fb = unchecked_frame(b, b_data);
    assert(fa =~= frame(a, a_data).drop_last());
    assert(fb =~= frame(b, b_data).drop_last());
    assert(fa[1] == a.wire_code());
    assert(fb[1] == b.wire_code());
    let head = 2 + a.length_part().len() as int;
    assert(data_bytes(a_data) =~= fa.skip(head));
    assert(data_bytes(b_data) =~= fb.skip(head));
}

/// Law: the colours of all LEDs are three bytes for each, in order.
pub proof fn law_led_colours(cells: Seq<u8>, leds: nat, led: int)
    requires
        0 <= led < leds,
    ensures
        led_colours(cells, leds).len() == 3 * leds,
        led_colours(cells, leds).subrange(3 * led, 3 * led + 3) == led_colour(cells, led),
    decreases leds,
{
    let rest = led_colours(cells, (leds - 1) as nat);
    if led < leds - 1 {
        law_led_colours(cells, (leds - 1) as nat, led);
        assert(led_colours(cells, leds).subrange(3 * led, 3 * led + 3) =~= rest.subrange(
            3 * led,
            3 * led + 3,
        ));
    } else {
        if leds > 1 {
            law_led_colours(cells, (leds - 1) as nat, 0);
        }
        assert(led_colours(cells, leds).subrange(3 * led, 3 * led + 3) =~= led_colour(cells, led));
    }
}

/// How initialization ends when the attempts leave these bytes in the read buffer, if it ends.
pub open spec fn init_outcome(responses: Seq<Seq<u8>>, counter: u8) -> Option<bool>
    decreases responses.len(),
{
    if responses.len() == 0 {
        None
    } else {
        match init_step(counter, responses[0]) {
            InitStep::Finished(ok) => Some(ok),
            InitStep::Retry { counter } => init_outcome(responses.drop_first(), counter),
        }
    }
}

/// Law: the slider is initialized as soon as one of the first four attempts is answered as
/// expected, and given up when four were made and none was. Before that, initialization goes on.
pub proof fn law_init_attempts(responses: Seq<Seq<u8>>)
    ensures
        init_outcome(responses, 0) == (if exists|i: int|
            0 <= i < 4 && i < responses.len() && #[trigger] responses[i] == init_reply() {
            Some(true)
        } else if responses.len() >= 4 {
            Some(false)
        } else {
            None
        }),
{
    reveal_with_fuel(init_outcome, 6);
    let r1 = responses.drop_first();
    let r2 = r1.drop_first();
    let r3 = r2.drop_first();
    let right = |i: int| i < responses.len() && responses[i] == init_reply();
    if responses.len() > 1 {
        assert(r1[0] == responses[1]);
    }
    if responses.len() > 2 {
        assert(r2[0] == responses[2]);
    }
    if responses.len() > 3 {
        assert(r3[0] == responses[3]);
    }
    if exists|i: int| 0 <= i < 4 && i < responses.len() && #[trigger] responses[i] == init_reply() {
        let i = choose|i: int|
            0 <= i < 4 && i < responses.len() && #[trigger] responses[i] == init_reply();
        assert(right(i));
        assert(right(0) || right(1) || right(2) || right(3));
    } else {
        assert(!right(0) && !right(1) && !right(2) && !right(3));
    }
}

/// How a query for the hardware ends when the attempts are answered like this, if it ends.
pub open spec fn hw_info_outcome(responses: Seq<Option<Seq<u8>>>, counter: u8) -> Option<
    Option<Seq<u8>>,
>
    decreases responses.len(),
{
    if responses.len() == 0 {
        None
    } else {
        match responses[0] {
            None => Some(None),
            Some(bytes) => if hw_info_complete(counter, bytes) {
                Some(Some(bytes))
            } else {
                hw_info_outcome(responses.drop_first(), (counter + 1) as u8)
            },
        }
    }
}

/// Whether the answer at position `i` was given and is the first that ends a query for the
/// hardware: a failed read, the known answer, or the fourth one whatever it is.
pub open spec fn hw_info_ends_at(responses: Seq<Option<Seq<u8>>>, i: int) -> bool {
    &&& 0 <= i < 4
    &&& i < responses.len()
    &&& i == 3 || responses[i] is None || responses[i] == Some(known_hw_info())
    &&& forall|k: int|
        0 <= k < i ==> #[trigger] responses[k] is Some && responses[k] != Some(known_hw_info())
}

/// Law: a query for the hardware gives the answer that ends it, at the latest the fourth, and goes
/// on as long as no such answer was given.
pub proof fn law_hw_info_attempts(responses: Seq<Option<Seq<u8>>>)
    ensures
        forall|i: int| #[trigger]
            hw_info_ends_at(responses, i) ==> hw_info_outcome(responses, 0) == Some(responses[i]),
        hw_info_outcome(responses, 0) is Some <==> exists|i: int| #[trigger]
            hw_info_ends_at(responses, i),
        responses.len() >= 4 ==> hw_info_outcome(responses, 0) is Some,
{
    reveal_with_fuel(hw_info_outcome, 6);
    let r1 = responses.drop_first();
    let r2 = r1.drop_first();
    let r3 = r2.drop_first();
    if responses.len() > 1 {
        assert(r1[0] == responses[1]);
    }
    if responses.len() > 2 {
        assert(r2[0] == responses[2]);
    }
    if responses.len() > 3 {
        assert(r3[0] == responses[3]);
    }
    assert forall|i: int| #[trigger]
        hw_info_ends_at(responses, i) implies hw_info_outcome(responses, 0) == Some(
        responses[i],
    ) by {
        if i > 0 {
            assert(responses[0] is Some && responses[0] != Some(known_hw_info()));
        }
        if i > 1 {
            assert(responses[1] is Some && responses[1] != Some(known_hw_info()));
        }
        if i > 2 {
            assert(responses[2] is Some && responses[2] != Some(known_hw_info()));
        }
    }
    let ends = |i: int|
        i < responses.len() && (responses[i] is None || responses[i] == Some(known_hw_info()));
    if ends(0) {
        assert(hw_info_ends_at(responses, 0));
    } else if ends(1) {
        assert(hw_info_ends_at(responses, 1));
    } else if ends(2) {
        assert(hw_info_ends_at(responses, 2));
    } else if responses.len() > 3 {
        assert(hw_info_ends_at(responses, 3));
    }
}

/// What a series of reads brings about, if it finishes.
pub open spec fn receive_outcome(state: ReaderModel, reads: Seq<Option<u8>>) -> Option<ReadModel>
    decreases reads.len(),
{
    if reads.len() == 0 {
        None
    } else {
        match state.read(reads[0]) {
            ReadModel::More(next) => receive_outcome(next, reads.drop_first()),
            done => Some(done),
        }
    }
}

/// Whether the reads are a report behind `skipped` other bytes: `syncs` times `0xff`, `0x01`,
/// `0x20`, the bytes of the report, and one more read.
pub open spec fn report_at(
    reads: Seq<Option<u8>>,
    skipped: int,
    syncs: int,
    report: Seq<u8>,
) -> bool {
    &&& 0 <= skipped
    &&& 1 <= syncs
    &&& report.len() == CELLS
    &&& reads.len() > skipped + syncs + 2 + CELLS
    &&& forall|k: int| 0 <= k < skipped ==> reads[k] is Some && #[trigger] reads[k] != Some(0xffu8)
    &&& forall|k: int|
        skipped <= k < skipped + syncs ==> #[trigger] reads[k] == Some(0xffu8)
    &&& reads[skipped + syncs] == Some(0x01u8)
    &&& reads[skipped + syncs + 1] == Some(0x20u8)
    &&& forall|k: int| 0 <= k < CELLS ==> reads[skipped + syncs + 2 + k] == Some(#[trigger] report[k])
}

/// Whether the reads complete a report of which `part` was read.
spec fn rest_at(reads: Seq<Option<u8>>, part: Seq<u8>, report: Seq<u8>) -> bool {
    &&& report.len() == CELLS
    &&& part.len() <= CELLS
    &&& part == report.take(part.len() as int)
    &&& reads.len() > CELLS - part.len()
    &&& forall|k: int|
        part.len() <= k < CELLS ==> reads[k - part.len()] == Some(#[trigger] report[k])
}

proof fn lemma_receive_payload(part: Seq<u8>, reads: Seq<Option<u8>>, report: Seq<u8>)
    requires
        part.len() <= CELLS,
    ensures
        receive_outcome(
            if part.len() < CELLS {
                ReaderModel::Payload(part)
            } else {
                ReaderModel::Trailer(part)
            },
            reads,
        ) == Some(ReadModel::Report(report)) <==> rest_at(reads, part, report),
    decreases CELLS - part.len(),
{
    if part.len() == CELLS {
        assert(report.len() == CELLS ==> report.take(CELLS as int) =~= report);
    } else if reads.len() > 0 && reads[0] is Some {
        let b = reads[0]->0;
        let longer = part.push(b);
        let rest = reads.drop_first();
        lemma_receive_payload(longer, rest, report);
        if rest_at(rest, longer, report) {
            assert(longer[part.len() as int] == report[part.len() as int]);
            assert(part =~= report.take(part.len() as int)) by {
                assert forall|k: int| 0 <= k < part.len() implies part[k] == report[k] by {
                    assert(longer[k] == report.take(longer.len() as int)[k]);
                }
            }
            assert forall|k: int| part.len() <= k < CELLS implies reads[k - part.len()] == Some(
                #[trigger] report[k],
            ) by {
                if k > part.len() {
                    assert(rest[k - longer.len()] == Some(report[k]));
                }
            }
        }
        if rest_at(reads, part, report) {
            assert(reads[0] == Some(report[part.len() as int]));
            assert(longer =~= report.take(longer.len() as int));
            assert forall|k: int| longer.len() <= k < CELLS implies rest[k - longer.len()] == Some(
                #[trigger] report[k],
            ) by {
                assert(reads[k - part.len()] == Some(report[k]));
            }
        }
    } else if rest_at(reads, part, report) {
        assert(reads[0] == Some(report[part.len() as int]));
    }
}

/// Whether the reads are a report behind a first `0xff`: `syncs` more of them, and the rest.
spec fn synced_at(reads: Seq<Option<u8>>, syncs: int, report: Seq<u8>) -> bool {
    &&& 0 <= syncs
    &&& report.len() == CELLS
    &&& reads.len() > syncs + 2 + CELLS
    &&& forall|k: int| 0 <= k < syncs ==> #[trigger] reads[k] == Some(0xffu8)
    &&& reads[syncs] == Some(0x01u8)
    &&& reads[syncs + 1] == Some(0x20u8)
    &&& forall|k: int| 0 <= k < CELLS ==> reads[syncs + 2 + k] == Some(#[trigger] report[k])
}

proof fn lemma_receive_synced(reads: Seq<Option<u8>>, report: Seq<u8>)
    ensures
        receive_outcome(ReaderModel::Synced, reads) == Some(ReadModel::Report(report)) <==> exists|
            syncs: int,
        | #[trigger]
            synced_at(reads, syncs, report),
    decreases reads.len(),
{
    let got = receive_outcome(ReaderModel::Synced, reads) == Some(ReadModel::Report(report));
    if reads.len() > 0 && reads[0] == Some(0xffu8) {
        let rest = reads.drop_first();
        lemma_receive_synced(rest, report);
        if got {
            let n = choose|n: int| #[trigger] synced_at(rest, n, report);
            assert forall|k: int| 0 <= k < CELLS implies reads[n + 1 + 2 + k] == Some(
                #[trigger] report[k],
            ) by {
                assert(rest[n + 2 + k] == Some(report[k]));
            }
            assert forall|k: int| 0 <= k < n + 1 implies #[trigger] reads[k] == Some(0xffu8) by {
                if k > 0 {
                    assert(rest[k - 1] == Some(0xffu8));
                }
            }
            assert(synced_at(reads, n + 1, report));
        }
        if exists|n: int| #[trigger] synced_at(reads, n, report) {
            let n = choose|n: int| #[trigger] synced_at(reads, n, report);
            assert(n > 0);
            assert forall|k: int| 0 <= k < CELLS implies rest[n - 1 + 2 + k] == Some(
                #[trigger] report[k],
            ) by {
                assert(reads[n + 2 + k] == Some(report[k]));
            }
            assert(synced_at(rest, n - 1, report));
        }
    } else if reads.len() > 1 && reads[0] == Some(0x01u8) && reads[1] == Some(0x20u8) {
        reveal_with_fuel(receive_outcome, 3);
        let rest = reads.drop_first().drop_first();
        let none = Seq::<u8>::empty();
        lemma_receive_payload(none, rest, report);
        assert(reads.drop_first()[0] == reads[1]);
        if got {
            assert forall|k: int| 0 <= k < CELLS implies reads[0 + 2 + k] == Some(
                #[trigger] report[k],
            ) by {
                assert(rest[k - none.len()] == Some(report[k]));
            }
            assert(synced_at(reads, 0, report));
        }
        if exists|n: int| #[trigger] synced_at(reads, n, report) {
            let n = choose|n: int| #[trigger] synced_at(reads, n, report);
            assert(n == 0) by {
                if n > 0 {
                    assert(reads[0] == Some(0xffu8));
                }
            }
            assert(report.take(0) =~= none);
            assert(rest_at(rest, none, report));
        }
    } else {
        reveal_with_fuel(receive_outcome, 3);
        assert forall|n: int| !#[trigger] synced_at(reads, n, report) by {
            if synced_at(reads, n, report) && n > 0 {
                assert(reads[0] == Some(0xffu8));
            }
        }
        if reads.len() > 1 {
            assert(reads.drop_first()[0] == reads[1]);
        }
        assert(!got);
    }
}

/// Law: a report is received exactly if the reads are one, behind any number of bytes other than
/// `0xff` and with any number of `0xff` in front.
pub proof fn law_receive_report(reads: Seq<Option<u8>>, report: Seq<u8>)
    ensures
        receive_outcome(ReaderModel::Seeking, reads) == Some(ReadModel::Report(report)) <==> exists|
            skipped: int,
            syncs: int,
        | #[trigger]
            report_at(reads, skipped, syncs, report),
    decreases reads.len(),
{
    let got = receive_outcome(ReaderModel::Seeking, reads) == Some(ReadModel::Report(report));
    if reads.len() > 0 && reads[0] is Some {
        let rest = reads.drop_first();
        if reads[0] == Some(0xffu8) {
            lemma_receive_synced(rest, report);
            if got {
                let n = choose|n: int| #[trigger] synced_at(rest, n, report);
                assert forall|k: int| 0 <= k < n + 1 implies #[trigger] reads[k] == Some(0xffu8) by {
                    if k > 0 {
                        assert(rest[k - 1] == Some(0xffu8));
                    }
                }
                assert forall|k: int| 0 <= k < CELLS implies reads[0 + (n + 1) + 2 + k] == Some(
                    #[trigger] report[k],
                ) by {
                    assert(rest[n + 2 + k] == Some(report[k]));
                }
                assert(report_at(reads, 0, n + 1, report));
            }
            if exists|m: int, n: int| #[trigger] report_at(reads, m, n, report) {
                let (m, n) = choose|m: int, n: int| #[trigger] report_at(reads, m, n, report);
                assert(m == 0) by {
                    if m > 0 {
                        assert(reads[0] != Some(0xffu8));
                    }
                }
                assert forall|k: int| 0 <= k < CELLS implies rest[n - 1 + 2 + k] == Some(
                    #[trigger] report[k],
                ) by {
                    assert(reads[m + n + 2 + k] == Some(report[k]));
                }
                assert(synced_at(rest, n - 1, report));
            }
        } else {
            law_receive_report(rest, report);
            if got {
                let (m, n) = choose|m: int, n: int| #[trigger] report_at(rest, m, n, report);
                assert forall|k: int| 0 <= k < m + 1 implies reads[k] is Some && #[trigger] reads[k]
                    != Some(0xffu8) by {
                    if k > 0 {
                        assert(rest[k - 1] != Some(0xffu8));
                    }
                }
                assert forall|k: int| m + 1 <= k < m + 1 + n implies #[trigger] reads[k] == Some(
                    0xffu8,
                ) by {
                    assert(rest[k - 1] == Some(0xffu8));
                }
                assert forall|k: int| 0 <= k < CELLS implies reads[(m + 1) + n + 2 + k] == Some(
                    #[trigger] report[k],
                ) by {
                    assert(rest[m + n + 2 + k] == Some(report[k]));
                }
                assert(report_at(reads, m + 1, n, report));
            }
            if exists|m: int, n: int| #[trigger] report_at(reads, m, n, report) {
                let (m, n) = choose|m: int, n: int| #[trigger] report_at(reads, m, n, report);
                assert(m > 0) by {
                    if m == 0 {
                        assert(reads[0] == Some(0xffu8));
                    }
                }
                assert forall|k: int| 0 <= k < CELLS implies rest[(m - 1) + n + 2 + k] == Some(
                    #[trigger] report[k],
                ) by {
                    assert(reads[m + n + 2 + k] == Some(report[k]));
                }
                assert(report_at(rest, m - 1, n, report));
            }
        }
    } else {
        assert forall|m: int, n: int| !#[trigger] report_at(reads, m, n, report) by {
            if report_at(reads, m, n, report) {
                if m == 0 {
                    assert(reads[0] == Some(0xffu8));
                } else {
                    assert(reads[0] is Some && reads[0] != Some(0xffu8));
                }
            }
        }
    }
}

/// Law: bytes before the first `0xff`, and how often it is repeated, make no difference to what
/// is received, be it a report, an error or nothing.
pub proof fn law_receive_resynchronizes(reads: Seq<Option<u8>>, skipped: int, syncs: int)
    requires
        0 <= skipped,
        1 <= syncs,
        skipped + syncs <= reads.len(),
        forall|k: int| 0 <= k < skipped ==> reads[k] is Some && #[trigger] reads[k] != Some(0xffu8),
        forall|k: int| skipped <= k < skipped + syncs ==> #[trigger] reads[k] == Some(0xffu8),
    ensures
        receive_outcome(ReaderModel::Seeking, reads) == receive_outcome(
            ReaderModel::Synced,
            reads.skip(skipped + syncs),
        ),
    decreases reads.len(),
{
    let rest = reads.drop_first();
    if skipped > 0 {
        assert(reads[0] is Some && reads[0] != Some(0xffu8));
        assert forall|k: int| 0 <= k < skipped - 1 implies rest[k] is Some && #[trigger] rest[k]
            != Some(0xffu8) by {
            assert(reads[k + 1] != Some(0xffu8));
        }
        law_receive_resynchronizes(rest, skipped - 1, syncs);
    } else {
        assert(reads[0] == Some(0xffu8));
        lemma_synced_skip(rest, syncs - 1);
    }
    assert(rest.skip(skipped + syncs - 1) =~= reads.skip(skipped + syncs));
}

proof fn lemma_synced_skip(reads: Seq<Option<u8>>, syncs: int)
    requires
        0 <= syncs <= reads.len(),
        forall|k: int| 0 <= k < syncs ==> #[trigger] reads[k] == Some(0xffu8),
    ensures
        receive_outcome(ReaderModel::Synced, reads) == receive_outcome(
            ReaderModel::Synced,
            reads.skip(syncs),
        ),
    decreases syncs,
{
    if syncs > 0 {
        let rest = reads.drop_first();
        assert(reads[0] == Some(0xffu8));
        assert forall|k: int| 0 <= k < syncs - 1 implies #[trigger] rest[k] == Some(0xffu8) by {
            assert(reads[k + 1] == Some(0xffu8));
        }
        lemma_synced_skip(rest, syncs - 1);
        assert(rest.skip(syncs - 1) =~= reads.skip(syncs));
    } else {
        assert(reads.skip(0) =~= reads);
    }
}

/// Law: a report that a silent line cuts short is given up, wherever it is cut.
pub proof fn law_receive_silence(state: ReaderModel)
    requires
        !(state is Trailer),
    ensures
        state.read(None) == ReadModel::Silence,
{
}

proof fn lemma_byte_sum_fold(bytes: Seq<u8>)
    ensures
        byte_sum(bytes) == bytes.fold_left(0int, |sum: int, b: u8| sum + b),
    decreases bytes.len(),
{
    if bytes.len() > 0 {
        lemma_byte_sum_fold(bytes.drop_last());
    }
}

/// Law: the checksum of some bytes completes their sum to a multiple of 256.
pub proof fn law_checksum(slider: &SerialSlider, bytes: &[u8], r: u8)
    requires
        call_ensures(SerialSlider::checksum, (slider, bytes), r),
    ensures
        (bytes@.fold_left(0int, |sum: int, b: u8| sum + b) + r) % 256 == 0,
{
    lemma_byte_sum_fold(bytes@);
}

/// Law: a command without its checksum is `0xff`, the code of the command, `0x5e` and `0x7f` if it
/// sets LEDs or else `0x00`, and the data, byte for byte.
pub proof fn law_create_command(command: SliderCommand, data: Option<&[u8]>, r: Vec<u8>)
    requires
        call_ensures(SerialSlider::create_command, (command, data), r),
    ensures
        ({
            let extra = match data {
                Some(bytes) => bytes@,
                None => Seq::empty(),
            };
            r@ == match command {
                SliderCommand::SliderInit => seq![0xffu8, 0x10, 0x00] + extra,
                SliderCommand::HwInfo => seq![0xffu8, 0xf0, 0x00] + extra,
                SliderCommand::LedSet => seq![0xffu8, 0x02, 0x5e, 0x7f] + extra,
                SliderCommand::InputStart => seq![0xffu8, 0x03, 0x00] + extra,
            }
        }),
{
    lemma_unchecked_bytes(command, data_view(data));
}

proof fn lemma_unchecked_bytes(command: SliderCommand, data: Option<Seq<u8>>)
    ensures
        ({
            let extra = match data {
                Some(bytes) => bytes,
                None => Seq::empty(),
            };
            unchecked_frame(command, data) == match command {
                SliderCommand::SliderInit => seq![0xffu8, 0x10, 0x00] + extra,
                SliderCommand::HwInfo => seq![0xffu8, 0xf0, 0x00] + extra,
                SliderCommand::LedSet => seq![0xffu8, 0x02, 0x5e, 0x7f] + extra,
                SliderCommand::InputStart => seq![0xffu8, 0x03, 0x00] + extra,
            }
        }),
{
    let extra = data_bytes(data);
    let all = unchecked_frame(command, data);
    match command {
        SliderCommand::SliderInit => assert(all =~= seq![0xffu8, 0x10, 0x00] + extra),
        SliderCommand::HwInfo => assert(all =~= seq![0xffu8, 0xf0, 0x00] + extra),
        SliderCommand::LedSet => assert(all =~= seq![0xffu8, 0x02, 0x5e, 0x7f] + extra),
        SliderCommand::InputStart => assert(all =~= seq![0xffu8, 0x03, 0x00] + extra),
    }
}

/// Law: what is written for a command starts like the command without its checksum and has one byte
/// more, which makes the sum of all bytes a multiple of 256.
pub proof fn law_send_command(
    slider: &SerialSlider,
    command: SliderCommand,
    data: Option<&[u8]>,
    r: Vec<u8>,
)
    requires
        call_ensures(SerialSlider::send_command, (slider, command, data), r),
    ensures
        r@.len() > 0,
        ({
            let extra = match data {
                Some(bytes) => bytes@,
                None => Seq::empty(),
            };
            r@.drop_last() == match command {
                SliderCommand::SliderInit => seq![0xffu8, 0x10, 0x00] + extra,
                SliderCommand::HwInfo => seq![0xffu8, 0xf0, 0x00] + extra,
                SliderCommand::LedSet => seq![0xffu8, 0x02, 0x5e, 0x7f] + extra,
                SliderCommand::InputStart => seq![0xffu8, 0x03, 0x00] + extra,
            }
        }),
        r@.fold_left(0int, |sum: int, b: u8| sum + b) % 256 == 0,
{
    law_frame_bytes(command, data_view(data));
}

/// Law: a frame starts like the command without its checksum and has one byte more, which makes the
/// sum of all bytes a multiple of 256.
pub proof fn law_frame_bytes(command: SliderCommand, data: Option<Seq<u8>>)
    ensures
        frame(command, data).len() > 0,
        ({
            let extra = match data {
                Some(bytes) => bytes,
                None => Seq::empty(),
            };
            frame(command, data).drop_last() == match command {
                SliderCommand::SliderInit => seq![0xffu8, 0x10, 0x00] + extra,
                SliderCommand::HwInfo => seq![0xffu8, 0xf0, 0x00] + extra,
                SliderCommand::LedSet => seq![0xffu8, 0x02, 0x5e, 0x7f] + extra,
                SliderCommand::InputStart => seq![0xffu8, 0x03, 0x00] + extra,
            }
        }),
        frame(command, data).fold_left(0int, |sum: int, b: u8| sum + b) % 256 == 0,
{
    lemma_unchecked_bytes(command, data);
    assert(frame(command, data).drop_last() =~= unchecked_frame(command, data));
    law_frame_sum(command, data);
    lemma_byte_sum_fold(frame(command, data));
}

/// Law: every command without data is written as these four bytes.
pub proof fn law_plain_frames()
    ensures
        frame(SliderCommand::SliderInit, None) == seq![0xffu8, 0x10, 0x00, 0xf1],
        frame(SliderCommand::HwInfo, None) == seq![0xffu8, 0xf0, 0x00, 0x11],
        frame(SliderCommand::InputStart, None) == seq![0xffu8, 0x03, 0x00, 0xfe],
{
    lemma_plain_frame(SliderCommand::SliderInit);
    lemma_plain_frame(SliderCommand::HwInfo);
    lemma_plain_frame(SliderCommand::InputStart);
}

proof fn lemma_plain_frame(command: SliderCommand)
    requires
        !(command is LedSet),
    ensures
        frame(command, None) == seq![
            0xffu8,
            command.wire_code(),
            0x00,
            ((257 - command.wire_code()) % 256) as u8,
        ],
{
    let all = unchecked_frame(command, None);
    assert(all =~= seq![0xffu8, command.wire_code(), 0x00]);
    let two = all.drop_last();
    let one = two.drop_last();
    assert(one.drop_last() =~= Seq::empty());
    assert(byte_sum(one.drop_last()) == 0);
    assert(byte_sum(one) == 0xff);
    assert(byte_sum(two) == 0xff + command.wire_code());
    assert(byte_sum(all) == 0xff + command.wire_code());
    assert(frame(command, None) =~= seq![
        0xffu8,
        command.wire_code(),
        0x00,
        ((257 - command.wire_code()) % 256) as u8,
    ]);
}

/// Law: what is written to show touches is a frame for 31 LEDs of three bytes each. A LED of odd
/// number always has the bytes `7f 23 00`. One of even number has `23 00 7f` if the cell of its
/// number is not 0, whatever the next cell is; `00 7f 23` if that cell is 0 and the next is not; and
/// `00 00 00` if both are 0.
pub proof fn law_leds_show_cells(slider: &SerialSlider, cells: [u8; 32], r: Vec<u8>, led: int)
    requires
        call_ensures(SerialSlider::send_led_reactive, (slider, cells), r),
        0 <= led < 31,
    ensures
        r@.len() == 98,
        r@.take(4) == seq![0xffu8, 0x02, 0x5e, 0x7f],
        r@.fold_left(0int, |sum: int, b: u8| sum + b) % 256 == 0,
        ({
            let colour = (r@[4 + 3 * led], r@[5 + 3 * led], r@[6 + 3 * led]);
            &&& led % 2 == 1 ==> colour == (0x7fu8, 0x23u8, 0x00u8)
            &&& led % 2 == 0 && cells@[led] != 0 ==> colour == (0x23u8, 0x00u8, 0x7fu8)
            &&& led % 2 == 0 && cells@[led] == 0 && cells@[led + 1] != 0 ==> colour == (
                0x00u8,
                0x7fu8,
                0x23u8,
            )
            &&& led % 2 == 0 && cells@[led] == 0 && cells@[led + 1] == 0 ==> colour == (
                0x00u8,
                0x00u8,
                0x00u8,
            )
        }),
{
    law_led_frame(cells@, led);
}

/// Law: the frame that shows some cells, told by its bytes.
pub proof fn law_led_frame(cells: Seq<u8>, led: int)
    requires
        0 <= led < 31,
    ensures
        ({
            let bytes = frame(SliderCommand::LedSet, Some(led_colours(cells, 31)));
            let colour = (bytes[4 + 3 * led], bytes[5 + 3 * led], bytes[6 + 3 * led]);
            &&& bytes.len() == 98
            &&& bytes.take(4) == seq![0xffu8, 0x02, 0x5e, 0x7f]
            &&& bytes.fold_left(0int, |sum: int, b: u8| sum + b) % 256 == 0
            &&& led % 2 == 1 ==> colour == (0x7fu8, 0x23u8, 0x00u8)
            &&& led % 2 == 0 && cells[led] != 0 ==> colour == (0x23u8, 0x00u8, 0x7fu8)
            &&& led % 2 == 0 && cells[led] == 0 && cells[led + 1] != 0 ==> colour == (
                0x00u8,
                0x7fu8,
                0x23u8,
            )
            &&& led % 2 == 0 && cells[led] == 0 && cells[led + 1] == 0 ==> colour == (
                0x00u8,
                0x00u8,
                0x00u8,
            )
        }),
{
    let data = led_colours(cells, 31);
    let bytes = frame(SliderCommand::LedSet, Some(data));
    law_frame_bytes(SliderCommand::LedSet, Some(data));
    assert(data.len() == 93 && data.subrange(3 * led, 3 * led + 3) == led_colour(cells, led)) by {
        law_led_colours(cells, 31, led);
    }
    lemma_bytes_of_led(bytes, data, led_colour(cells, led), led);
    lemma_colour_bytes(cells, led);
}

proof fn lemma_colour_bytes(cells: Seq<u8>, led: int)
    ensures
        ({
            let bytes = led_colour(cells, led);
            let colour = (bytes[0], bytes[1], bytes[2]);
            &&& led % 2 == 1 ==> colour == (0x7fu8, 0x23u8, 0x00u8)
            &&& led % 2 == 0 && cells[led] != 0 ==> colour == (0x23u8, 0x00u8, 0x7fu8)
            &&& led % 2 == 0 && cells[led] == 0 && cells[led + 1] != 0 ==> colour == (
                0x00u8,
                0x7fu8,
                0x23u8,
            )
            &&& led % 2 == 0 && cells[led] == 0 && cells[led + 1] == 0 ==> colour == (
                0x00u8,
                0x00u8,
                0x00u8,
            )
        }),
{
}

proof fn lemma_bytes_of_led(bytes: Seq<u8>, data: Seq<u8>, colour: Seq<u8>, led: int)
    requires
        0 <= led < 31,
        data.len() == 93,
        bytes.len() > 0,
        bytes.drop_last() == seq![0xffu8, 0x02, 0x5e, 0x7f] + data,
        data.subrange(3 * led, 3 * led + 3) == colour,
    ensures
        bytes.len() == 98,
        bytes.take(4) == seq![0xffu8, 0x02, 0x5e, 0x7f],
        bytes[4 + 3 * led] == colour[0],
        bytes[5 + 3 * led] == colour[1],
        bytes[6 + 3 * led] == colour[2],
{
    let start = seq![0xffu8, 0x02, 0x5e, 0x7f];
    let head = start + data;
    assert(head.len() == 97);
    assert(bytes.drop_last().len() == 97);
    assert forall|k: int| 0 <= k < 97 implies #[trigger] bytes[k] == head[k] by {
        assert(bytes.drop_last()[k] == bytes[k]);
    }
    assert(bytes.take(4) =~= start);
    assert(head[4 + 3 * led] == data[3 * led]);
    assert(head[5 + 3 * led] == data[3 * led + 1]);
    assert(head[6 + 3 * led] == data[3 * led + 2]);
    assert(colour[0] == data[3 * led]);
    assert(colour[1] == data[3 * led + 1]);
    assert(colour[2] == data[3 * led + 2]);
}

/// Law: the answer `ff 10 00 f1` initializes the slider, whenever it comes. With any other, the
/// command is sent again until three retries were made, and given up then.
pub proof fn law_init_slider(slider: &SerialSlider, counter: u8, response: &[u8; 4], r: InitStep)
    requires
        call_ensures(SerialSlider::init_slider, (slider, counter, response), r),
    ensures
        ({
            let right = response@[0] == 0xff && response@[1] == 0x10 && response@[2] == 0x00
                && response@[3] == 0xf1;
            &&& r == InitStep::Finished(true) <==> right
            &&& r == InitStep::Finished(false) <==> !right && counter >= 3
            &&& r is Retry <==> !right && counter < 3
            &&& r matches InitStep::Retry { counter: next } ==> next == counter + 1
        }),
{
    if response@[0] == 0xff && response@[1] == 0x10 && response@[2] == 0x00 && response@[3]
        == 0xf1 {
        assert(response@ =~= init_reply());
    }
}

/// Law: a query for the hardware fails exactly if the answer could not be read. The answer of the
/// known model ends it, and so does any answer behind three retries; the text is then made of the
/// bytes of that very answer. Any other answer makes the query be sent again.
pub proof fn law_get_hw_info(
    slider: &SerialSlider,
    counter: u8,
    response: Option<&[u8; 22]>,
    r: HwInfoStep,
)
    requires
        call_ensures(SerialSlider::get_hw_info, (slider, counter, response), r),
    ensures
        r is ReadFailed <==> response is None,
        response matches Some(bytes) ==> {
            let known = bytes@ == seq![
                0xffu8, 0xf0, 0x12, 0x31, 0x35, 0x33, 0x33, 0x30, 0x20, 0x20, 0x20, 0xa0, 0x30,
                0x36, 0x37, 0x31, 0x32, 0xfd, 0xfe, 0x90, 0x00, 0x64,
            ];
            &&& r is Info <==> known || counter >= 3
            &&& r matches HwInfoStep::Info(text) ==> text@ == utf8_lossy(bytes@) && (valid_utf8(
                bytes@,
            ) ==> text@ == decode_utf8(bytes@))
            &&& r matches HwInfoStep::Retry { counter: next } ==> next == counter + 1
        },
{
}

/// Law: what one read does to a reader. Behind the 32 bytes of a report, any read gives the report;
/// before, silence ends the attempt without one. Otherwise a byte is skipped, starts a report,
/// continues it or is refused as a wrong command or a wrong length.
pub proof fn law_reader_step(reader: &mut InputReader, byte: Option<u8>, r: ReceiveStep)
    requires
        call_ensures(InputReader::step, (reader, byte), r),
    ensures
        old(reader)@ matches ReaderModel::Trailer(report) ==> (r matches ReceiveStep::Finished(
            Ok(Some(bytes)),
        ) && bytes@ == report),
        !(old(reader)@ is Trailer) && byte is None ==> r == ReceiveStep::Finished(Ok(None)),
        byte matches Some(b) ==> match old(reader)@ {
            ReaderModel::Seeking => r == ReceiveStep::Read && (b == 0xff <==> final(reader)@
                == ReaderModel::Synced) && (b != 0xff <==> final(reader)@ == ReaderModel::Seeking),
            ReaderModel::Synced => {
                &&& b == 0xff ==> r == ReceiveStep::Read && final(reader)@ == ReaderModel::Synced
                &&& b == 0x01 ==> r == ReceiveStep::Read && final(reader)@ == ReaderModel::Length
                &&& b != 0xff && b != 0x01 ==> r == ReceiveStep::Finished(
                    Err(ReceiveError::UnexpectedCommand(b)),
                )
            },
            ReaderModel::Length => {
                &&& b == 0x20 ==> r == ReceiveStep::Read && final(reader)@ == ReaderModel::Payload(
                    Seq::empty(),
                )
                &&& b != 0x20 ==> r == ReceiveStep::Finished(
                    Err(ReceiveError::UnexpectedLength(b)),
                )
            },
            ReaderModel::Payload(part) => {
                &&& r == ReceiveStep::Read
                &&& part.len() + 1 < 32 ==> final(reader)@ == ReaderModel::Payload(part.push(b))
                &&& part.len() + 1 >= 32 ==> final(reader)@ == ReaderModel::Trailer(part.push(b))
            },
            ReaderModel::Trailer(_) => true,
        },
        r is Finished ==> final(reader)@ == ReaderModel::Seeking,
{
}

/// Law: behind `0xff`, a byte other than `0xff` and `0x01` is refused as a command, and behind `0x01`
/// a byte other than `0x20` as a length, whatever follows. A line that falls silent at either place
/// ends the attempt without a report and without an error.
pub proof fn law_receive_refused(reads: Seq<Option<u8>>)
    requires
        reads.len() > 0,
    ensures
        reads[0] matches Some(b) && b != 0xff && b != 0x01 ==> receive_outcome(
            ReaderModel::Synced,
            reads,
        ) == Some(ReadModel::BadCommand(reads[0]->0)),
        reads.len() > 1 && reads[0] == Some(0x01u8) && reads[1] is Some && reads[1] != Some(0x20u8)
            ==> receive_outcome(ReaderModel::Synced, reads) == Some(
            ReadModel::BadLength(reads[1]->0),
        ),
        reads[0] is None ==> receive_outcome(ReaderModel::Synced, reads) == Some(
            ReadModel::Silence,
        ),
        reads.len() > 1 && reads[0] == Some(0x01u8) && reads[1] is None ==> receive_outcome(
            ReaderModel::Synced,
            reads,
        ) == Some(ReadModel::Silence),
{
    reveal_with_fuel(receive_outcome, 3);
    if reads.len() > 1 {
        assert(reads.drop_first()[0] == reads[1]);
    }
}

/// Law: the code of a command is the second byte of its frame, and tells the command.
pub proof fn law_command_code(command: SliderCommand, r: u8)
    requires
        call_ensures(SliderCommand::code, (&command,), r),
    ensures
        frame(command, None)[1] == r,
        command is SliderInit <==> r == 0x10,
        command is HwInfo <==> r == 0xf0,
        command is LedSet <==> r == 0x02,
        command is InputStart <==> r == 0x03,
{
}

/// Law: a slider keeps the name of its port, and starts every report from the beginning.
pub proof fn law_slider_new(name: String, slider: &SerialSlider, r: &str, reader: InputReader)
    requires
        call_ensures(SerialSlider::new, (name,), *slider),
        call_ensures(SerialSlider::port_name, (slider,), r),
        call_ensures(SerialSlider::receive_input, (slider,), reader),
    ensures
        r@ == name@,
        reader@ == ReaderModel::Seeking,
{
}

} // verus!
