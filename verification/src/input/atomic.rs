//! Input processing with FIFO queuing and atomicity.
//!
//! A processor keeps one queue of packets per device and ensures
//! - per-client atomicity (device IDs are compound, like `device@client_addr`),
//! - timestamp-based ordering within each client's queue,
//! - immediate processing, so that no event gets stuck,
//! - isolation between clients.

use crate::input::{EventModel, InputEvent, InputEventPacket, PacketModel};
use crate::string_map::StringMap;
use crate::text::views;
use std::collections::VecDeque;
use vstd::prelude::*;

verus! {

/// Configuration for input batching behavior.
#[derive(Debug)]
pub struct BatchingConfig {
    /// Maximum time to wait for related events before processing a batch, in nanoseconds.
    pub max_batch_delay: u128,
    /// Maximum number of events to accumulate before forcing a batch.
    pub max_batch_size: usize,
    /// Maximum number of packets to buffer per device.
    pub max_buffer_per_device: usize,
}

impl Clone for BatchingConfig {
    fn clone(&self) -> (r: Self)
        ensures
            r == *self,
    {
        BatchingConfig {
            max_batch_delay: self.max_batch_delay,
            max_batch_size: self.max_batch_size,
            max_buffer_per_device: self.max_buffer_per_device,
        }
    }
}

impl Default for BatchingConfig {
    /// A delay of one millisecond, batches of one event and buffers of five packets.
    fn default() -> (r: Self)
        ensures
            r.max_batch_delay == 1_000_000,
            r.max_batch_size == 1,
            r.max_buffer_per_device == 5,
    {
        BatchingConfig {
            max_batch_delay: 1_000_000,
            max_batch_size: 1,
            max_buffer_per_device: 5,
        }
    }
}

/// What can go wrong while a packet is processed.
#[derive(Debug, PartialEq, Eq)]
pub enum ProcessingError {
    BufferOverflow,
    InvalidTimestamp,
    Timeout,
}

impl ProcessingError {
    /// The text that describes the error.
    pub fn to_string(&self) -> (r: String)
        ensures
            r@ == match self {
                ProcessingError::BufferOverflow => "Device buffer overflow"@,
                ProcessingError::InvalidTimestamp => "Invalid packet timestamp"@,
                ProcessingError::Timeout => "Processing timeout"@,
            },
    {
        match self {
            ProcessingError::BufferOverflow => "Device buffer overflow".to_owned(),
            ProcessingError::InvalidTimestamp => "Invalid packet timestamp".to_owned(),
            ProcessingError::Timeout => "Processing timeout".to_owned(),
        }
    }
}

/// A buffered packet waiting to be processed.
struct BufferedPacket {
    packet: InputEventPacket,
    received_at: u128,
}

/// The model of a buffered packet: the packet and when it arrived, in nanoseconds.
pub struct BufferedModel {
    pub packet: PacketModel,
    pub received_at: u128,
}

impl View for BufferedPacket {
    type V = BufferedModel;

    closed spec fn view(&self) -> BufferedModel {
        BufferedModel { packet: self.packet@, received_at: self.received_at }
    }
}

/// The queue of one device, oldest packet first.
struct Buffer {
    packets: VecDeque<BufferedPacket>,
}

impl View for Buffer {
    type V = Seq<BufferedModel>;

    closed spec fn view(&self) -> Seq<BufferedModel> {
        views(self.packets@)
    }
}

/// The model of an [`AtomicInputProcessor`].
pub struct ProcessorModel {
    pub config: BatchingConfig,
    /// The queue of each device that has sent a packet.
    pub pending: Map<Seq<char>, Seq<BufferedModel>>,
    /// The number of packets that were handed in, modulo 2^64.
    pub sequence: u64,
    /// The timestamp of the last accepted packet of each device.
    pub last: Map<Seq<char>, u64>,
}

/// The events of all packets of a queue, in order.
pub open spec fn queue_events(queue: Seq<BufferedModel>) -> Seq<EventModel>
    decreases queue.len(),
{
    if queue.len() == 0 {
        Seq::empty()
    } else {
        queue_events(queue.drop_last()) + queue.last().packet.events
    }
}

/// The latest timestamp in a queue, 0 for an empty one.
pub open spec fn queue_latest(queue: Seq<BufferedModel>) -> u64
    decreases queue.len(),
{
    if queue.len() == 0 {
        0
    } else {
        let before = queue_latest(queue.drop_last());
        let last = queue.last().packet.timestamp;
        if before >= last {
            before
        } else {
            last
        }
    }
}

/// The batch that a queue of a device makes up, if it holds any event.
pub open spec fn batch(device_id: Seq<char>, queue: Seq<BufferedModel>) -> Option<PacketModel> {
    if queue_events(queue).len() == 0 {
        None
    } else {
        Some(
            PacketModel {
                device_id,
                timestamp: queue_latest(queue),
                events: queue_events(queue),
            },
        )
    }
}

impl ProcessorModel {
    /// A processor that has seen nothing.
    pub open spec fn fresh(config: BatchingConfig) -> ProcessorModel {
        ProcessorModel { config, pending: Map::empty(), sequence: 0, last: Map::empty() }
    }

    /// Whether a packet is not older than the last one of its device.
    pub open spec fn accepts(self, packet: PacketModel) -> bool {
        self.last.contains_key(packet.device_id) ==> self.last[packet.device_id]
            <= packet.timestamp
    }

    /// The queue of a device.
    pub open spec fn queue(self, device_id: Seq<char>) -> Seq<BufferedModel> {
        if self.pending.contains_key(device_id) {
            self.pending[device_id]
        } else {
            Seq::empty()
        }
    }

    /// After the timestamp of an accepted packet was noted.
    pub open spec fn noted(self, packet: PacketModel) -> ProcessorModel {
        ProcessorModel { last: self.last.insert(packet.device_id, packet.timestamp), ..self }
    }

    /// After a packet was put into its device's queue; a full queue first loses its oldest packet.
    pub open spec fn buffered(self, packet: PacketModel, received_at: u128) -> ProcessorModel {
        let queue = self.queue(packet.device_id);
        let kept = if queue.len() > 0 && queue.len() >= self.config.max_buffer_per_device {
            queue.drop_first()
        } else {
            queue
        };
        ProcessorModel {
            pending: self.pending.insert(
                packet.device_id,
                kept.push(BufferedModel { packet, received_at }),
            ),
            ..self
        }
    }

    /// After the queue of a device was emptied.
    pub open spec fn flushed(self, device_id: Seq<char>) -> ProcessorModel {
        if self.pending.contains_key(device_id) {
            ProcessorModel { pending: self.pending.insert(device_id, Seq::empty()), ..self }
        } else {
            self
        }
    }

    /// After a packet was handed in, with what comes out.
    ///
    /// A packet that is not accepted changes nothing but the sequence number.
    pub open spec fn processed(self, packet: PacketModel, received_at: u128) -> (
        ProcessorModel,
        Option<PacketModel>,
    ) {
        let counted = ProcessorModel {
            sequence: ((self.sequence + 1) % 0x1_0000_0000_0000_0000) as u64,
            ..self
        };
        if self.accepts(packet) {
            let waiting = counted.noted(packet).buffered(packet, received_at);
            (
                waiting.flushed(packet.device_id),
                batch(packet.device_id, waiting.pending[packet.device_id]),
            )
        } else {
            (counted, None)
        }
    }

    /// Whether the oldest packet of a device has waited for the maximum delay or longer.
    pub open spec fn expired(self, device_id: Seq<char>, now: u128) -> bool {
        let queue = self.queue(device_id);
        queue.len() > 0 && waited(queue[0].received_at, now) >= self.config.max_batch_delay
    }

    /// Whether every queue holds packets of its own device only.
    pub open spec fn kept_apart(self) -> bool {
        forall|id: Seq<char>, i: int|
            0 <= i < self.queue(id).len() ==> (#[trigger] self.queue(id)[i]).packet.device_id == id
    }

    /// Whether no packet is waiting.
    pub open spec fn settled(self) -> bool {
        forall|id: Seq<char>| #[trigger]
            self.pending.contains_key(id) ==> self.pending[id].len() == 0
    }
}

/// The time from `since` to `now`, 0 if `now` is the earlier one.
pub open spec fn waited(since: u128, now: u128) -> int {
    if now >= since {
        now - since
    } else {
        0
    }
}

/// Whether `batches` are the batches of all queues: one for each device whose queue holds an
/// event, in any order.
pub open spec fn all_batches(
    pending: Map<Seq<char>, Seq<BufferedModel>>,
    batches: Seq<PacketModel>,
) -> bool {
    &&& forall|i: int|
        0 <= i < batches.len() ==> pending.contains_key((#[trigger] batches[i]).device_id) && batch(
            batches[i].device_id,
            pending[batches[i].device_id],
        ) == Some(batches[i])
    &&& forall|i: int, j: int|
        0 <= i < batches.len() && 0 <= j < batches.len() && i != j ==> (
        #[trigger] batches[i]).device_id != (#[trigger] batches[j]).device_id
    &&& forall|id: Seq<char>| #[trigger]
        pending.contains_key(id) && batch(id, pending[id]) is Some ==> batches.contains(
            batch(id, pending[id])->0,
        )
}

/// Input processor that keeps the packets of different devices apart and in order.
pub struct AtomicInputProcessor {
    config: BatchingConfig,
    /// Packets waiting to be batched, by device.
    pending_packets: StringMap<Buffer>,
    /// Sequence counter for packet ordering.
    sequence_counter: u64,
    /// Last processed timestamp per device.
    last_timestamps: StringMap<u64>,
}

impl View for AtomicInputProcessor {
    type V = ProcessorModel;

    closed spec fn view(&self) -> ProcessorModel {
        ProcessorModel {
            config: self.config,
            pending: self.pending_packets@,
            sequence: self.sequence_counter,
            last: self.last_timestamps@,
        }
    }
}

impl Clone for AtomicInputProcessor {
    /// A processor of the same configuration that has seen nothing.
    fn clone(&self) -> (r: Self)
        ensures
            r@ == ProcessorModel::fresh(self@.config),
    {
        AtomicInputProcessor::new(self.config.clone())
    }
}

impl AtomicInputProcessor {
    /// A processor that has seen nothing.
    pub fn new(config: BatchingConfig) -> (r: Self)
        ensures
            r@ == ProcessorModel::fresh(config),
    {
        AtomicInputProcessor {
            config,
            pending_packets: StringMap::new(),
            sequence_counter: 0,
            last_timestamps: StringMap::new(),
        }
    }

    /// Process a packet that arrived at the time `received_at`, handling batching and atomicity.
    pub fn process_packet(&mut self, packet: InputEventPacket, received_at: u128) -> (r: Result<
        Option<InputEventPacket>,
        ProcessingError,
    >)
        ensures
            final(self)@ == old(self)@.processed(packet@, received_at).0,
            match old(self)@.processed(packet@, received_at).1 {
                Some(out) => r matches Ok(Some(p)) && p@ == out,
                None => r matches Ok(None),
            },
    {
        self.sequence_counter = self.sequence_counter.wrapping_add(1);
        if !self.should_process_packet(&packet) {
            return Ok(None);
        }
        let device_id = packet.device_id.clone();
        self.buffer_packet(packet, received_at);
        if self.should_flush_batch(device_id.as_str()) {
            self.flush_device_batch(device_id.as_str())
        } else {
            Ok(None)
        }
    }

    /// Check if a packet should be processed based on timestamp ordering, and note its timestamp
    /// if so.
    pub fn should_process_packet(&mut self, packet: &InputEventPacket) -> (r: bool)
        ensures
            r == old(self)@.accepts(packet@),
            final(self)@ == (if r {
                old(self)@.noted(packet@)
            } else {
                old(self)@
            }),
    {
        match self.last_timestamps.get(packet.device_id.as_str()) {
            Some(last_timestamp) => {
                if packet.timestamp < *last_timestamp {
                    return false;
                }
            },
            None => {},
        }
        self.last_timestamps.insert(packet.device_id.clone(), packet.timestamp);
        true
    }

    /// Puts a packet into its device's queue. A full queue first loses its oldest packet.
    pub fn buffer_packet(&mut self, packet: InputEventPacket, received_at: u128)
        ensures
            final(self)@ == old(self)@.buffered(packet@, received_at),
    {
        let device_id = packet.device_id.clone();
        let mut buffer = match self.pending_packets.remove(device_id.as_str()) {
            Some(buffer) => buffer,
            None => {
                let buffer = Buffer { packets: VecDeque::new() };
                assert(buffer@ =~= Seq::empty());
                buffer
            },
        };
        let ghost queue = old(self)@.queue(packet@.device_id);
        assert(buffer@ == queue);
        if buffer.packets.len() >= self.config.max_buffer_per_device {
            let ghost before = buffer.packets@;
            let _ = buffer.packets.pop_front();
            proof {
                if before.len() > 0 {
                    assert(buffer@ =~= queue.drop_first());
                } else {
                    assert(buffer@ =~= queue);
                }
            }
        }
        let ghost kept = buffer@;
        buffer.packets.push_back(BufferedPacket { packet, received_at });
        assert(buffer@ =~= kept.push(BufferedModel { packet: packet@, received_at }));
        self.pending_packets.insert(device_id, buffer);
        assert(self.pending_packets@ =~= old(self).pending_packets@.insert(
            packet@.device_id,
            buffer@,
        ));
    }

    /// Check if we should flush a batch for a device: whether anything is waiting for it.
    pub fn should_flush_batch(&self, device_id: &str) -> (r: bool)
        ensures
            r == (self@.queue(device_id@).len() > 0),
    {
        match self.pending_packets.get(device_id) {
            Some(buffer) => buffer.packets.len() > 0,
            None => false,
        }
    }

    /// Flush all buffered packets for a device into a single atomic batch.
    pub fn flush_device_batch(&mut self, device_id: &str) -> (r: Result<
        Option<InputEventPacket>,
        ProcessingError,
    >)
        ensures
            final(self)@ == old(self)@.flushed(device_id@),
            match batch(device_id@, old(self)@.queue(device_id@)) {
                Some(out) => r matches Ok(Some(p)) && p@ == out,
                None => r matches Ok(None),
            },
    {
        match self.pending_packets.remove(device_id) {
            Some(buffer) => {
                let mut buffer = buffer;
                let ghost queue = buffer@;
                let mut all_events: Vec<InputEvent> = Vec::new();
                let mut latest_timestamp: u64 = 0;
                let ghost mut done: int = 0;
                assert(queue.skip(0) =~= queue);
                assert(queue.take(0) =~= Seq::empty());
                assert(views(all_events@) =~= Seq::empty());
                loop
                    invariant
                        0 <= done <= queue.len(),
                        buffer@ == queue.skip(done),
                        views(all_events@) == queue_events(queue.take(done)),
                        latest_timestamp == queue_latest(queue.take(done)),
                    ensures
                        done == queue.len(),
                        buffer@ == queue.skip(done),
                        views(all_events@) == queue_events(queue.take(done)),
                        latest_timestamp == queue_latest(queue.take(done)),
                    decreases queue.len() - done,
                {
                    let ghost before = buffer.packets@;
                    assert(views(before) == queue.skip(done));
                    match buffer.packets.pop_front() {
                        Some(buffered) => {
                            let mut packet = buffered.packet;
                            proof {
                                assert(views(before)[0] == queue.skip(done)[0]);
                                assert(views(before).drop_first() =~= queue.skip(done + 1));
                                assert(buffer@ =~= views(before).drop_first());
                                assert(queue.take(done + 1).drop_last() =~= queue.take(done));
                                assert(queue.take(done + 1).last() == queue[done]);
                                assert(views(all_events@ + packet.events@) =~= views(all_events@)
                                    + views(packet.events@));
                            }
                            all_events.append(&mut packet.events);
                            if latest_timestamp < packet.timestamp {
                                latest_timestamp = packet.timestamp;
                            }
                            proof {
                                done = done + 1;
                            }
                        },
                        None => {
                            assert(views(before).len() == 0);
                            break;
                        },
                    }
                }
                assert(queue.take(done) =~= queue);
                assert(buffer@ =~= Seq::empty());
                self.pending_packets.insert(device_id.to_owned(), buffer);
                assert(self.pending_packets@ =~= old(self).pending_packets@.insert(
                    device_id@,
                    Seq::empty(),
                ));
                assert(views(all_events@).len() == all_events@.len());
                if all_events.is_empty() {
                    return Ok(None);
                }
                Ok(
                    Some(
                        InputEventPacket {
                            device_id: device_id.to_owned(),
                            timestamp: latest_timestamp,
                            events: all_events,
                        },
                    ),
                )
            },
            None => {
                assert(self.pending_packets@ =~= old(self).pending_packets@);
                assert(queue_events(Seq::empty()).len() == 0);
                Ok(None)
            },
        }
    }

    /// Force flush all pending batches (useful for shutdown).
    pub fn flush_all(&mut self) -> (r: Vec<InputEventPacket>)
        ensures
            all_batches(old(self)@.pending, views(r@)),
            final(self)@.settled(),
            final(self)@ == (ProcessorModel { pending: final(self)@.pending, ..old(self)@ }),
            final(self)@.pending.dom() == old(self)@.pending.dom(),
    {
        let keys = self.pending_packets.keys();
        let mut r: Vec<InputEventPacket> = Vec::new();
        let mut i: usize = 0;
        let ghost start = self@;
        let ghost ids = views(keys@);
        while i < keys.len()
            invariant
                i <= keys@.len(),
                ids == views(keys@),
                ids.no_duplicates(),
                forall|id: Seq<char>| start.pending.contains_key(id) <==> #[trigger] ids.contains(id),
                self@ == (ProcessorModel { pending: self@.pending, ..start }),
                self@.pending.dom() == start.pending.dom(),
                forall|k: int|
                    0 <= k < ids.len() ==> self@.pending[#[trigger] ids[k]] == (if k < i {
                        Seq::empty()
                    } else {
                        start.pending[ids[k]]
                    }),
                forall|b: int|
                    0 <= b < r@.len() ==> start.pending.contains_key(
                        (#[trigger] views(r@)[b]).device_id,
                    ) && batch(views(r@)[b].device_id, start.pending[views(r@)[b].device_id])
                        == Some(views(r@)[b]) && ids.take(i as int).contains(
                        views(r@)[b].device_id,
                    ),
                forall|a: int, b: int|
                    0 <= a < r@.len() && 0 <= b < r@.len() && a != b ==> (
                    #[trigger] views(r@)[a]).device_id != (#[trigger] views(r@)[b]).device_id,
                forall|k: int|
                    0 <= k < i && batch(#[trigger] ids[k], start.pending[ids[k]]) is Some ==> views(
                        r@,
                    ).contains(batch(ids[k], start.pending[ids[k]])->0),
            decreases keys@.len() - i,
        {
            let ghost id = ids[i as int];
            let ghost before = self@;
            let ghost out = views(r@);
            assert(ids.contains(id));
            assert(before.pending.contains_key(id));
            assert(before.queue(id) == start.pending[id]);
            let flushed = self.flush_device_batch(keys[i].as_str());
            assert(self@.pending.dom() =~= start.pending.dom());
            assert(ids.take(i + 1) =~= ids.take(i as int).push(id));
            assert forall|x: Seq<char>| ids.take(i as int).contains(x) implies x != id
                && #[trigger] ids.take(i + 1).contains(x) by {
                let k = choose|k: int| 0 <= k < i && ids.take(i as int)[k] == x;
                assert(ids[k] == x);
                assert(ids.take(i + 1)[k] == x);
            }
            assert(ids.take(i + 1)[i as int] == id);
            match flushed {
                Ok(Some(packet)) => {
                    r.push(packet);
                    assert(views(r@) =~= out.push(packet@));
                    assert(views(r@)[out.len() as int] == packet@);
                    assert forall|k: int|
                        0 <= k < i + 1 && batch(
                            #[trigger] ids[k],
                            start.pending[ids[k]],
                        ) is Some implies views(r@).contains(
                        batch(ids[k], start.pending[ids[k]])->0,
                    ) by {
                        let b = batch(ids[k], start.pending[ids[k]])->0;
                        if k < i {
                            let j = choose|j: int| 0 <= j < out.len() && out[j] == b;
                            assert(views(r@)[j] == b);
                        } else {
                            assert(views(r@)[out.len() as int] == b);
                        }
                    }
                },
                _ => {},
            }
            i += 1;
        }
        proof {
            assert forall|id: Seq<char>| #[trigger]
                start.pending.contains_key(id) implies self@.pending[id].len() == 0 && (batch(
                id,
                start.pending[id],
            ) is Some ==> views(r@).contains(batch(id, start.pending[id])->0)) by {
                assert(ids.contains(id));
                let k = choose|k: int| 0 <= k < ids.len() && ids[k] == id;
                assert(self@.pending[ids[k]] == Seq::<BufferedModel>::empty());
            }
            assert forall|id: Seq<char>| #[trigger] self@.pending.contains_key(id) implies self@.pending[id].len() == 0 by {
                assert(self@.pending.dom().contains(id));
                assert(start.pending.contains_key(id));
            }
        }
        r
    }

    /// The devices whose oldest waiting packet has reached the maximum delay at the time `now`.
    pub fn expired_devices(&self, now: u128) -> (r: Vec<String>)
        ensures
            views(r@).no_duplicates(),
            forall|id: Seq<char>| #[trigger]
                views(r@).contains(id) <==> self@.expired(id, now),
    {
        let keys = self.pending_packets.keys();
        let ghost ids = views(keys@);
        let mut r: Vec<String> = Vec::new();
        let mut i: usize = 0;
        while i < keys.len()
            invariant
                i <= keys@.len(),
                ids == views(keys@),
                ids.no_duplicates(),
                forall|id: Seq<char>| self@.pending.contains_key(id) <==> #[trigger] ids.contains(id),
                views(r@).no_duplicates(),
                forall|id: Seq<char>| #[trigger]
                    views(r@).contains(id) <==> ids.take(i as int).contains(id) && self@.expired(
                        id,
                        now,
                    ),
            decreases keys@.len() - i,
        {
            let ghost id = ids[i as int];
            let ghost out = views(r@);
            assert(ids.contains(id));
            assert(ids.take(i + 1) =~= ids.take(i as int).push(id));
            assert(ids.take(i + 1)[i as int] == id);
            assert forall|x: Seq<char>| ids.take(i as int).contains(x) implies x != id
                && #[trigger] ids.take(i + 1).contains(x) by {
                let k = choose|k: int| 0 <= k < i && ids.take(i as int)[k] == x;
                assert(ids[k] == x);
                assert(ids.take(i + 1)[k] == x);
            }
            assert forall|x: Seq<char>| #[trigger] ids.take(i + 1).contains(x) implies x == id
                || ids.take(i as int).contains(x) by {
                let upto = ids.take(i + 1);
                let k = choose|k: int| 0 <= k < upto.len() && upto[k] == x;
                if k < i {
                    assert(ids.take(i as int)[k] == x);
                }
            }
            let due = match self.pending_packets.get(keys[i].as_str()) {
                Some(buffer) => if buffer.packets.len() > 0 {
                    let since: u128 = buffer.packets[0].received_at;
                    assert(buffer@[0].received_at == since);
                    let elapsed: u128 = if now >= since {
                        now - since
                    } else {
                        0
                    };
                    elapsed >= self.config.max_batch_delay
                } else {
                    false
                },
                None => false,
            };
            assert(due == self@.expired(id, now));
            if due {
                r.push(keys[i].clone());
                assert(views(r@) =~= out.push(id));
                assert(!out.contains(id));
                assert forall|x: Seq<char>| #[trigger] views(r@).contains(x) <==> out.contains(x)
                    || x == id by {
                    if out.contains(x) {
                        let k = choose|k: int| 0 <= k < out.len() && out[k] == x;
                        assert(views(r@)[k] == x);
                    }
                    assert(views(r@)[out.len() as int] == id);
                    if views(r@).contains(x) {
                        let k = choose|k: int| 0 <= k < views(r@).len() && views(r@)[k] == x;
                        if k < out.len() {
                            assert(out[k] == x);
                        }
                    }
                }
            }
            i += 1;
        }
        assert(ids.take(i as int) =~= ids);
        r
    }
}

/// What a run of packets does to a processor, with what comes out for each packet.
pub open spec fn run(start: ProcessorModel, inputs: Seq<(PacketModel, u128)>) -> (
    ProcessorModel,
    Seq<Option<PacketModel>>,
)
    decreases inputs.len(),
{
    if inputs.len() == 0 {
        (start, Seq::empty())
    } else {
        let (before, outputs) = run(start, inputs.drop_last());
        let (after, output) = before.processed(inputs.last().0, inputs.last().1);
        (after, outputs.push(output))
    }
}

/// Law: nothing gets stuck. A processor without waiting packets passes every packet it accepts
/// on at once and unchanged, unless it holds no event, and again has nothing waiting.
pub proof fn law_immediate(state: ProcessorModel, packet: PacketModel, received_at: u128)
    requires
        state.settled(),
    ensures
        state.processed(packet, received_at).0.settled(),
        state.processed(packet, received_at).1 == (if state.accepts(packet)
            && packet.events.len() > 0 {
            Some(packet)
        } else {
            None
        }),
{
    let after = state.processed(packet, received_at).0;
    let id = packet.device_id;
    if state.accepts(packet) {
        let queue = state.queue(id).push(BufferedModel { packet, received_at });
        assert(state.queue(id).len() == 0) by {
            if state.pending.contains_key(id) {
            }
        }
        assert(state.queue(id) =~= Seq::empty());
        assert(queue.drop_last() =~= Seq::empty());
        assert(queue_events(queue.drop_last()) =~= Seq::empty());
        assert(queue_events(queue) =~= packet.events);
        assert(queue_latest(queue.drop_last()) == 0);
        assert(queue_latest(queue) == packet.timestamp);
        assert forall|k: Seq<char>| #[trigger] after.pending.contains_key(k) implies after.pending[k].len()
            == 0 by {
            if k != id {
                assert(state.pending.contains_key(k));
            }
        }
    } else {
        assert forall|k: Seq<char>| #[trigger] after.pending.contains_key(k) implies after.pending[k].len()
            == 0 by {
            assert(state.pending.contains_key(k));
        }
    }
}

/// Law: a fresh processor has nothing waiting.
pub proof fn law_fresh_settled(config: BatchingConfig)
    ensures
        ProcessorModel::fresh(config).settled(),
{
}

/// Law: a packet older than the last one of its device is discarded and leaves no trace but its
/// sequence number.
pub proof fn law_out_of_order_discarded(
    state: ProcessorModel,
    packet: PacketModel,
    received_at: u128,
)
    requires
        state.last.contains_key(packet.device_id),
        packet.timestamp < state.last[packet.device_id],
    ensures
        state.processed(packet, received_at).1 is None,
        state.processed(packet, received_at).0 == (ProcessorModel {
            sequence: state.processed(packet, received_at).0.sequence,
            ..state
        }),
{
}

/// Law: devices do not interfere. A packet changes neither the queue nor the timestamp of another
/// device, and what comes out belongs to the packet's own device.
pub proof fn law_isolated(
    state: ProcessorModel,
    packet: PacketModel,
    received_at: u128,
    other: Seq<char>,
)
    requires
        other != packet.device_id,
    ensures
        ({
            let (after, output) = state.processed(packet, received_at);
            &&& after.pending.contains_key(other) == state.pending.contains_key(other)
            &&& after.queue(other) == state.queue(other)
            &&& after.last.contains_key(other) == state.last.contains_key(other)
            &&& state.last.contains_key(other) ==> after.last[other] == state.last[other]
            &&& output matches Some(out) ==> out.device_id == packet.device_id
        }),
{
}

/// Law: packets of different devices never get into one queue, and so never into one batch.
pub proof fn law_kept_apart(state: ProcessorModel, packet: PacketModel, received_at: u128)
    requires
        state.kept_apart(),
    ensures
        state.buffered(packet, received_at).kept_apart(),
        state.flushed(packet.device_id).kept_apart(),
        state.processed(packet, received_at).0.kept_apart(),
{
    let id = packet.device_id;
    let buffered = state.buffered(packet, received_at);
    let after = state.processed(packet, received_at).0;
    assert forall|d: Seq<char>, i: int| 0 <= i < buffered.queue(d).len() implies (
    #[trigger] buffered.queue(d)[i]).packet.device_id == d by {
        let queue = state.queue(d);
        if d != id {
            assert(queue[i].packet.device_id == d);
        } else if i < buffered.queue(d).len() - 1 {
            let at = if queue.len() > 0 && queue.len() >= state.config.max_buffer_per_device {
                i + 1
            } else {
                i
            };
            assert(queue[at].packet.device_id == d);
        }
    }
    assert forall|d: Seq<char>, i: int| 0 <= i < state.flushed(id).queue(d).len() implies (
    #[trigger] state.flushed(id).queue(d)[i]).packet.device_id == d by {
        assert(state.queue(d)[i].packet.device_id == d);
    }
    assert forall|d: Seq<char>, i: int| 0 <= i < after.queue(d).len() implies (
    #[trigger] after.queue(d)[i]).packet.device_id == d by {
        assert(state.queue(d)[i].packet.device_id == d);
    }
}

/// Law: what happens to a packet depends only on the state of its own device.
pub proof fn law_own_state_decides(
    a: ProcessorModel,
    b: ProcessorModel,
    packet: PacketModel,
    received_at: u128,
)
    requires
        a.config == b.config,
        a.queue(packet.device_id) == b.queue(packet.device_id),
        a.last.contains_key(packet.device_id) == b.last.contains_key(packet.device_id),
        a.last.contains_key(packet.device_id) ==> a.last[packet.device_id]
            == b.last[packet.device_id],
    ensures
        a.processed(packet, received_at).1 == b.processed(packet, received_at).1,
{
}

/// Law: the noted timestamp of a device never decreases.
pub proof fn law_timestamps_grow(
    state: ProcessorModel,
    packet: PacketModel,
    received_at: u128,
    device_id: Seq<char>,
)
    requires
        state.last.contains_key(device_id),
    ensures
        state.processed(packet, received_at).0.last.contains_key(device_id),
        state.last[device_id] <= state.processed(packet, received_at).0.last[device_id],
{
}

/// Law: a run that starts with nothing waiting passes packets on in the order of their arrival,
/// each as it came.
pub proof fn law_run_first_in_first_out(
    start: ProcessorModel,
    inputs: Seq<(PacketModel, u128)>,
    i: int,
)
    requires
        start.settled(),
        0 <= i < inputs.len(),
    ensures
        run(start, inputs).1.len() == inputs.len(),
        run(start, inputs).0.settled(),
        run(start, inputs).1[i] == (if run(start, inputs.take(i)).0.accepts(inputs[i].0)
            && inputs[i].0.events.len() > 0 {
            Some(inputs[i].0)
        } else {
            None
        }),
    decreases inputs.len(),
{
    let init = inputs.drop_last();
    lemma_run_settled(start, init);
    let before = run(start, init).0;
    law_immediate(before, inputs.last().0, inputs.last().1);
    if i == inputs.len() - 1 {
        assert(inputs.take(i) =~= init);
    } else {
        law_run_first_in_first_out(start, init, i);
        assert(init.take(i) =~= inputs.take(i));
        assert(init[i] == inputs[i]);
    }
}

proof fn lemma_run_settled(start: ProcessorModel, inputs: Seq<(PacketModel, u128)>)
    requires
        start.settled(),
    ensures
        run(start, inputs).0.settled(),
        run(start, inputs).1.len() == inputs.len(),
    decreases inputs.len(),
{
    if inputs.len() > 0 {
        let init = inputs.drop_last();
        lemma_run_settled(start, init);
        law_immediate(run(start, init).0, inputs.last().0, inputs.last().1);
    }
}

/// Once something came out for a device, its noted timestamp is at least that of the output.
proof fn lemma_run_noted(start: ProcessorModel, inputs: Seq<(PacketModel, u128)>, i: int)
    requires
        start.settled(),
        0 <= i < inputs.len(),
        run(start, inputs).1[i] is Some,
    ensures
        run(start, inputs).0.last.contains_key(run(start, inputs).1[i]->0.device_id),
        run(start, inputs).0.last[run(start, inputs).1[i]->0.device_id]
            >= run(start, inputs).1[i]->0.timestamp,
    decreases inputs.len(),
{
    let init = inputs.drop_last();
    lemma_run_settled(start, init);
    let before = run(start, init).0;
    law_immediate(before, inputs.last().0, inputs.last().1);
    if i < init.len() {
        lemma_run_noted(start, init, i);
        law_timestamps_grow(
            before,
            inputs.last().0,
            inputs.last().1,
            run(start, inputs).1[i]->0.device_id,
        );
    }
}

/// Law: what a run passes on for one device is in the order of the timestamps.
pub proof fn law_run_ordered(start: ProcessorModel, inputs: Seq<(PacketModel, u128)>, i: int, j: int)
    requires
        start.settled(),
        0 <= i < j < inputs.len(),
        run(start, inputs).1[i] is Some,
        run(start, inputs).1[j] is Some,
        run(start, inputs).1[i]->0.device_id == run(start, inputs).1[j]->0.device_id,
    ensures
        run(start, inputs).1[i]->0.timestamp <= run(start, inputs).1[j]->0.timestamp,
    decreases inputs.len(),
{
    let init = inputs.drop_last();
    lemma_run_settled(start, init);
    let before = run(start, init).0;
    law_immediate(before, inputs.last().0, inputs.last().1);
    if j < init.len() {
        law_run_ordered(start, init, i, j);
    } else {
        lemma_run_noted(start, init, i);
    }
}

/// Law: no queue grows beyond the configured number of packets, if that is at least one.
pub proof fn law_queue_bounded(state: ProcessorModel, packet: PacketModel, received_at: u128)
    requires
        state.config.max_buffer_per_device >= 1,
        forall|id: Seq<char>|
            (#[trigger] state.queue(id)).len() <= state.config.max_buffer_per_device,
    ensures
        forall|id: Seq<char>|
            (#[trigger] state.buffered(packet, received_at).queue(id)).len()
                <= state.config.max_buffer_per_device,
{
    let after = state.buffered(packet, received_at);
    assert forall|id: Seq<char>| (#[trigger] after.queue(id)).len()
        <= state.config.max_buffer_per_device by {
        assert(state.queue(id).len() <= state.config.max_buffer_per_device);
    }
}

/// Law: flushing a device takes everything it has waiting, so that a second flush gives nothing and
/// the device is not due for one at any time.
pub proof fn law_flush_once(state: ProcessorModel, device_id: Seq<char>)
    ensures
        state.flushed(device_id).queue(device_id).len() == 0,
        batch(device_id, state.flushed(device_id).queue(device_id)) is None,
        state.flushed(device_id).flushed(device_id) == state.flushed(device_id),
        forall|now: u128| !#[trigger] state.flushed(device_id).expired(device_id, now),
{
    let once = state.flushed(device_id);
    assert(once.queue(device_id) =~= Seq::empty());
    assert(once.flushed(device_id).pending =~= once.pending);
}

/// Law: when nothing is waiting, there is no batch to flush.
pub proof fn law_settled_no_batches(state: ProcessorModel, batches: Seq<PacketModel>)
    requires
        state.settled(),
        all_batches(state.pending, batches),
    ensures
        batches.len() == 0,
{
    if batches.len() > 0 {
        let id = batches[0].device_id;
        assert(state.pending.contains_key(id));
        assert(queue_events(state.pending[id]).len() == 0);
    }
}

/// Law: the timestamp of a batch is the latest of its packets.
pub proof fn law_latest(queue: Seq<BufferedModel>)
    ensures
        forall|i: int|
            0 <= i < queue.len() ==> (#[trigger] queue[i]).packet.timestamp <= queue_latest(queue),
        queue.len() > 0 ==> exists|i: int|
            0 <= i < queue.len() && (#[trigger] queue[i]).packet.timestamp == queue_latest(queue),
    decreases queue.len(),
{
    if queue.len() > 0 {
        let init = queue.drop_last();
        law_latest(init);
        assert forall|i: int| 0 <= i < queue.len() implies (#[trigger] queue[i]).packet.timestamp
            <= queue_latest(queue) by {
            if i < init.len() {
                assert(init[i].packet.timestamp <= queue_latest(init));
            }
        }
        if queue_latest(queue) == queue.last().packet.timestamp {
            assert(queue[queue.len() - 1].packet.timestamp == queue_latest(queue));
        } else {
            let i = choose|i: int|
                0 <= i < init.len() && (#[trigger] init[i]).packet.timestamp == queue_latest(init);
            assert(queue[i].packet.timestamp == queue_latest(queue));
        }
    }
}

proof fn lemma_queue_events_flat(queue: Seq<BufferedModel>)
    ensures
        queue_events(queue) == queue.map_values(|b: BufferedModel| b.packet.events).flatten(),
    decreases queue.len(),
{
    let f = |b: BufferedModel| b.packet.events;
    let parts = queue.map_values(f);
    parts.lemma_flatten_and_flatten_alt_are_equivalent();
    if queue.len() > 0 {
        let init = queue.drop_last();
        lemma_queue_events_flat(init);
        init.map_values(f).lemma_flatten_and_flatten_alt_are_equivalent();
        assert(parts.drop_last() =~= init.map_values(f));
        assert(parts.last() == queue.last().packet.events);
    }
}

/// Law: a packet is accepted exactly if its device has sent nothing yet or its timestamp is not
/// smaller than the one noted for the device, however much greater it may be. The timestamp of an
/// accepted packet is noted; nothing else changes.
pub proof fn law_accepted_exactly(
    processor: &mut AtomicInputProcessor,
    packet: &InputEventPacket,
    r: bool,
)
    requires
        call_ensures(AtomicInputProcessor::should_process_packet, (processor, packet), r),
    ensures
        r <==> !(old(processor)@.last.contains_key(packet.device_id@) && packet.timestamp < old(
            processor
        )@.last[packet.device_id@]),
        final(processor)@.last == (if r {
            old(processor)@.last.insert(packet.device_id@, packet.timestamp)
        } else {
            old(processor)@.last
        }),
        final(processor)@.pending == old(processor)@.pending,
        final(processor)@.config == old(processor)@.config,
        final(processor)@.sequence == old(processor)@.sequence,
{
}

/// Law: a packet that holds an event and is not older than the last one of its device comes out at
/// once and exactly as it is, if nothing of the device is waiting. Then its timestamp is the noted
/// one, nothing is waiting, and no other device has changed.
pub proof fn law_passed_on_unchanged(
    processor: &mut AtomicInputProcessor,
    packet: InputEventPacket,
    received_at: u128,
    r: Result<Option<InputEventPacket>, ProcessingError>,
)
    requires
        call_ensures(AtomicInputProcessor::process_packet, (processor, packet, received_at), r),
        old(processor)@.last.contains_key(packet.device_id@) ==> old(
            processor
        )@.last[packet.device_id@] <= packet.timestamp,
        old(processor)@.pending.contains_key(packet.device_id@) ==> old(
            processor
        )@.pending[packet.device_id@].len() == 0,
        packet.events@.len() > 0,
    ensures
        r matches Ok(Some(out)) && out.device_id@ == packet.device_id@ && out.timestamp
            == packet.timestamp && out.events@.len() == packet.events@.len() && forall|i: int|
            0 <= i < out.events@.len() ==> (#[trigger] out.events@[i])@ == packet.events@[i]@,
        final(processor)@.last == old(processor)@.last.insert(packet.device_id@, packet.timestamp),
        final(processor)@.pending == old(processor)@.pending.insert(
            packet.device_id@,
            Seq::empty(),
        ),
{
    let none = Seq::<BufferedModel>::empty();
    let before = old(processor)@;
    assert(before.queue(packet@.device_id) =~= none);
    law_accepted_packets(processor, packet, received_at, none, r);
    let events = none.map_values(|b: BufferedModel| b.packet.events);
    assert(events =~= Seq::empty());
    assert(events.flatten() + views(packet.events@) =~= views(packet.events@));
    assert(views(packet.events@).len() == packet.events@.len());
    let out = r->Ok_0->0;
    assert(views(out.events@).len() == out.events@.len());
    assert forall|i: int| 0 <= i < out.events@.len() implies (#[trigger] out.events@[i])@
        == packet.events@[i]@ by {
        assert(views(out.events@)[i] == views(packet.events@)[i]);
    }
}

/// Law: an accepted packet comes out together with all that its device has waiting and that a full
/// queue keeps, the events in the order of arrival and under the latest of all timestamps. Nothing
/// comes out exactly if there is no event among them.
pub proof fn law_accepted_packets(
    processor: &mut AtomicInputProcessor,
    packet: InputEventPacket,
    received_at: u128,
    kept: Seq<BufferedModel>,
    r: Result<Option<InputEventPacket>, ProcessingError>,
)
    requires
        call_ensures(AtomicInputProcessor::process_packet, (processor, packet, received_at), r),
        old(processor)@.last.contains_key(packet.device_id@) ==> old(
            processor
        )@.last[packet.device_id@] <= packet.timestamp,
        kept == (if !old(processor)@.pending.contains_key(packet.device_id@) {
            Seq::empty()
        } else if 0 < old(processor)@.pending[packet.device_id@].len() && old(
            processor
        )@.config.max_buffer_per_device <= old(processor)@.pending[packet.device_id@].len() {
            old(processor)@.pending[packet.device_id@].skip(1)
        } else {
            old(processor)@.pending[packet.device_id@]
        }),
    ensures
        ({
            let events = kept.map_values(|b: BufferedModel| b.packet.events).flatten() + views(
                packet.events@,
            );
            match r {
                Ok(Some(out)) => {
                    &&& events.len() > 0
                    &&& out.device_id@ == packet.device_id@
                    &&& views(out.events@) == events
                    &&& packet.timestamp <= out.timestamp
                    &&& forall|i: int|
                        0 <= i < kept.len() ==> (#[trigger] kept[i]).packet.timestamp
                            <= out.timestamp
                    &&& packet.timestamp == out.timestamp || exists|i: int|
                        0 <= i < kept.len() && (#[trigger] kept[i]).packet.timestamp
                            == out.timestamp
                },
                Ok(None) => events.len() == 0,
                Err(_) => false,
            }
        }),
        final(processor)@.config == old(processor)@.config,
        final(processor)@.last == old(processor)@.last.insert(packet.device_id@, packet.timestamp),
        final(processor)@.pending == old(processor)@.pending.insert(
            packet.device_id@,
            Seq::empty(),
        ),
{
    let before = old(processor)@;
    let id = packet.device_id@;
    let queue = kept.push(BufferedModel { packet: packet@, received_at });
    let out = before.processed(packet@, received_at);
    assert(before.accepts(packet@));
    assert(before.queue(id).drop_first() =~= before.queue(id).skip(1));
    assert(out.1 == batch(id, queue));
    assert(queue.drop_last() =~= kept);
    lemma_queue_events_flat(kept);
    law_latest(queue);
    assert(queue[kept.len() as int].packet == packet@);
    assert forall|i: int| 0 <= i < kept.len() implies (#[trigger] kept[i]).packet.timestamp
        <= queue_latest(queue) by {
        assert(queue[i] == kept[i]);
    }
    let i = choose|i: int|
        0 <= i < queue.len() && (#[trigger] queue[i]).packet.timestamp == queue_latest(queue);
    if i < kept.len() {
        assert(kept[i].packet.timestamp == queue_latest(queue));
    }
    assert(out.0.pending =~= before.pending.insert(id, Seq::empty()));
}

/// Law: a packet older than the last one of its device gives nothing and changes neither what is
/// waiting nor any noted timestamp.
pub proof fn law_older_discarded(
    processor: &mut AtomicInputProcessor,
    packet: InputEventPacket,
    received_at: u128,
    r: Result<Option<InputEventPacket>, ProcessingError>,
)
    requires
        call_ensures(AtomicInputProcessor::process_packet, (processor, packet, received_at), r),
        old(processor)@.last.contains_key(packet.device_id@),
        packet.timestamp < old(processor)@.last[packet.device_id@],
    ensures
        r matches Ok(None),
        final(processor)@.config == old(processor)@.config,
        final(processor)@.last == old(processor)@.last,
        final(processor)@.pending == old(processor)@.pending,
{
}

/// Law: every packet that is handed in counts, and the count starts over behind 2^64 - 1.
pub proof fn law_packets_counted(
    processor: &mut AtomicInputProcessor,
    packet: InputEventPacket,
    received_at: u128,
    r: Result<Option<InputEventPacket>, ProcessingError>,
)
    requires
        call_ensures(AtomicInputProcessor::process_packet, (processor, packet, received_at), r),
    ensures
        final(processor)@.sequence == (if old(processor)@.sequence == u64::MAX {
            0
        } else {
            old(processor)@.sequence + 1
        }),
{
}

/// Law: a key may be held for any time. Of two packets of a device, the second not older than the
/// first, a new processor passes on both, each as it came.
pub proof fn law_both_packets_pass(
    config: BatchingConfig,
    first: &mut AtomicInputProcessor,
    second: &mut AtomicInputProcessor,
    a: (InputEventPacket, u128),
    b: (InputEventPacket, u128),
    r: Result<Option<InputEventPacket>, ProcessingError>,
    s: Result<Option<InputEventPacket>, ProcessingError>,
)
    requires
        call_ensures(AtomicInputProcessor::new, (config,), *old(first)),
        call_ensures(AtomicInputProcessor::process_packet, (first, a.0, a.1), r),
        *old(second) == *final(first),
        call_ensures(AtomicInputProcessor::process_packet, (second, b.0, b.1), s),
        a.0.device_id@ == b.0.device_id@,
        a.0.timestamp <= b.0.timestamp,
        a.0.events@.len() > 0,
        b.0.events@.len() > 0,
    ensures
        r matches Ok(Some(p)) && p.timestamp == a.0.timestamp && views(p.events@) == views(
            a.0.events@,
        ),
        s matches Ok(Some(p)) && p.timestamp == b.0.timestamp && views(p.events@) == views(
            b.0.events@,
        ),
{
    law_new_processor(config, *old(first));
    law_passed_on_unchanged(first, a.0, a.1, r);
    law_passed_on_unchanged(second, b.0, b.1, s);
    let p = r->Ok_0->0;
    let q = s->Ok_0->0;
    assert(views(p.events@) =~= views(a.0.events@));
    assert(views(q.events@) =~= views(b.0.events@));
}

/// Law: a new processor has nothing waiting, has noted no timestamp and has counted no packet.
pub proof fn law_new_processor(config: BatchingConfig, r: AtomicInputProcessor)
    requires
        call_ensures(AtomicInputProcessor::new, (config,), r),
    ensures
        r@.config == config,
        r@.pending == Map::<Seq<char>, Seq<BufferedModel>>::empty(),
        r@.last == Map::<Seq<char>, u64>::empty(),
        r@.sequence == 0,
{
}

/// Law: a packet that is put into a queue comes last in that of its device, behind what was there,
/// of which a full queue first loses the oldest packet. Nothing else changes.
pub proof fn law_buffered_last(
    processor: &mut AtomicInputProcessor,
    packet: InputEventPacket,
    received_at: u128,
)
    requires
        call_ensures(AtomicInputProcessor::buffer_packet, (processor, packet, received_at), ()),
    ensures
        ({
            let before = old(processor)@.pending;
            let after = final(processor)@.pending;
            let id = packet.device_id@;
            let had = if before.contains_key(id) {
                before[id].len() as int
            } else {
                0
            };
            let lost: int = if 0 < had && old(processor)@.config.max_buffer_per_device <= had {
                1
            } else {
                0
            };
            &&& after == before.insert(id, after[id])
            &&& after[id].len() == had - lost + 1
            &&& forall|i: int| 0 <= i < had - lost ==> #[trigger] after[id][i] == before[id][i + lost]
            &&& after[id].last() == (BufferedModel { packet: packet@, received_at })
        }),
        final(processor)@.config == old(processor)@.config,
        final(processor)@.last == old(processor)@.last,
        final(processor)@.sequence == old(processor)@.sequence,
{
}

/// Law: a device is due for a flush exactly if a packet of it is waiting.
pub proof fn law_should_flush(processor: &AtomicInputProcessor, device_id: &str, r: bool)
    requires
        call_ensures(AtomicInputProcessor::should_flush_batch, (processor, device_id), r),
    ensures
        r <==> processor@.pending.contains_key(device_id@) && processor@.pending[device_id@].len()
            > 0,
{
}

/// Law: a flush gives all events that a device has waiting, in the order of arrival and under the
/// latest timestamp, and leaves its queue empty. It gives nothing exactly if there is no event.
pub proof fn law_flush_gives_all(
    processor: &mut AtomicInputProcessor,
    device_id: &str,
    queue: Seq<BufferedModel>,
    r: Result<Option<InputEventPacket>, ProcessingError>,
)
    requires
        call_ensures(AtomicInputProcessor::flush_device_batch, (processor, device_id), r),
        queue == (if old(processor)@.pending.contains_key(device_id@) {
            old(processor)@.pending[device_id@]
        } else {
            Seq::empty()
        }),
    ensures
        ({
            let events = queue.map_values(|b: BufferedModel| b.packet.events).flatten();
            match r {
                Ok(Some(out)) => {
                    &&& events.len() > 0
                    &&& out.device_id@ == device_id@
                    &&& views(out.events@) == events
                    &&& forall|i: int|
                        0 <= i < queue.len() ==> (#[trigger] queue[i]).packet.timestamp
                            <= out.timestamp
                    &&& exists|i: int|
                        0 <= i < queue.len() && (#[trigger] queue[i]).packet.timestamp
                            == out.timestamp
                },
                Ok(None) => events.len() == 0,
                Err(_) => false,
            }
        }),
        final(processor)@.pending == (if old(processor)@.pending.contains_key(device_id@) {
            old(processor)@.pending.insert(device_id@, Seq::empty())
        } else {
            old(processor)@.pending
        }),
        final(processor)@.config == old(processor)@.config,
        final(processor)@.last == old(processor)@.last,
        final(processor)@.sequence == old(processor)@.sequence,
{
    assert(old(processor)@.queue(device_id@) == queue);
    lemma_queue_events_flat(queue);
    law_latest(queue);
    if queue.len() == 0 {
        assert(queue_events(queue).len() == 0);
    }
}

/// Law: flushing everything gives one packet for each device that has an event waiting and none for
/// any other. Each holds all waiting events of its device, in the order of arrival and under the
/// latest timestamp, and every queue is empty behind it.
pub proof fn law_flush_all_gives_all(
    processor: &mut AtomicInputProcessor,
    r: Vec<InputEventPacket>,
    id: Seq<char>,
    queue: Seq<BufferedModel>,
)
    requires
        call_ensures(AtomicInputProcessor::flush_all, (processor,), r),
        queue == (if old(processor)@.pending.contains_key(id) {
            old(processor)@.pending[id]
        } else {
            Seq::empty()
        }),
    ensures
        ({
            let events = queue.map_values(|b: BufferedModel| b.packet.events).flatten();
            &&& events.len() > 0 <==> exists|k: int|
                0 <= k < r@.len() && (#[trigger] r@[k]).device_id@ == id
            &&& forall|j: int, k: int|
                0 <= j < k < r@.len() ==> (#[trigger] r@[j]).device_id@ != (
                #[trigger] r@[k]).device_id@
            &&& forall|k: int|
                0 <= k < r@.len() && (#[trigger] r@[k]).device_id@ == id ==> {
                    &&& views(r@[k].events@) == events
                    &&& forall|i: int|
                        0 <= i < queue.len() ==> (#[trigger] queue[i]).packet.timestamp
                            <= r@[k].timestamp
                    &&& exists|i: int|
                        0 <= i < queue.len() && (#[trigger] queue[i]).packet.timestamp
                            == r@[k].timestamp
                }
        }),
        final(processor)@.pending.contains_key(id) == old(processor)@.pending.contains_key(id),
        final(processor)@.pending.contains_key(id) ==> final(processor)@.pending[id].len() == 0,
        final(processor)@.config == old(processor)@.config,
        final(processor)@.last == old(processor)@.last,
        final(processor)@.sequence == old(processor)@.sequence,
{
    let before = old(processor)@;
    let after = final(processor)@;
    let out = views(r@);
    assert(out.len() == r@.len());
    assert forall|k: int| 0 <= k < r@.len() implies out[k] == (#[trigger] r@[k])@ by {}
    lemma_queue_events_flat(queue);
    law_latest(queue);
    assert(after.pending.dom().contains(id) == before.pending.dom().contains(id));
    if after.pending.contains_key(id) {
        assert(after.settled());
    }
    if queue_events(queue).len() > 0 {
        assert(before.pending.contains_key(id));
        let packet = batch(id, before.pending[id])->0;
        assert(out.contains(packet));
        let k = choose|k: int| 0 <= k < out.len() && out[k] == packet;
        assert(r@[k].device_id@ == id);
    }
    assert forall|j: int, k: int| 0 <= j < k < r@.len() implies (#[trigger] r@[j]).device_id@ != (
    #[trigger] r@[k]).device_id@ by {
        assert(out[j].device_id != out[k].device_id);
    }
    assert forall|k: int| 0 <= k < r@.len() && (#[trigger] r@[k]).device_id@ == id implies views(
        r@[k].events@,
    ) == queue_events(queue) && r@[k].timestamp == queue_latest(queue) && queue_events(queue).len()
        > 0 && queue.len() > 0 by {
        assert(out[k].device_id == id);
        assert(batch(id, before.pending[id]) == Some(out[k]));
        if queue.len() == 0 {
            assert(queue_events(queue).len() == 0);
        }
    }
}

/// Law: a device is listed as expired exactly if it has a packet waiting and the oldest one arrived
/// the maximum delay ago or longer. Each is listed once.
pub proof fn law_expired_exactly(
    processor: &AtomicInputProcessor,
    now: u128,
    r: Vec<String>,
    id: Seq<char>,
)
    requires
        call_ensures(AtomicInputProcessor::expired_devices, (processor, now), r),
    ensures
        ({
            let pending = processor@.pending;
            let delay = processor@.config.max_batch_delay;
            (exists|k: int| 0 <= k < r@.len() && (#[trigger] r@[k])@ == id) <==> {
                &&& pending.contains_key(id)
                &&& pending[id].len() > 0
                &&& delay == 0 || pending[id][0].received_at + delay <= now
            }
        }),
        forall|j: int, k: int|
            0 <= j < k < r@.len() ==> (#[trigger] r@[j])@ != (#[trigger] r@[k])@,
{
    let out = views(r@);
    assert(out.len() == r@.len());
    assert forall|k: int| 0 <= k < r@.len() implies out[k] == (#[trigger] r@[k])@ by {}
    assert(out.contains(id) <==> processor@.expired(id, now));
    if out.contains(id) {
        let k = choose|k: int| 0 <= k < out.len() && out[k] == id;
        assert(r@[k]@ == id);
    }
    if exists|k: int| 0 <= k < r@.len() && (#[trigger] r@[k])@ == id {
        let k = choose|k: int| 0 <= k < r@.len() && (#[trigger] r@[k])@ == id;
        assert(out[k] == id);
    }
    assert forall|j: int, k: int| 0 <= j < k < r@.len() implies (#[trigger] r@[j])@ != (
    #[trigger] r@[k])@ by {
        assert(out[j] != out[k]);
    }
}

/// Law: a copy of a processor has its configuration and has seen nothing.
pub proof fn law_copy_is_new(processor: &AtomicInputProcessor, r: AtomicInputProcessor)
    requires
        call_ensures(AtomicInputProcessor::clone, (processor,), r),
    ensures
        r@.config == processor@.config,
        r@.pending == Map::<Seq<char>, Seq<BufferedModel>>::empty(),
        r@.last == Map::<Seq<char>, u64>::empty(),
        r@.sequence == 0,
{
}

} // verus!
