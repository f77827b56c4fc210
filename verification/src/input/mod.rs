//! Input events and the packets that carry them.

pub mod atomic;
pub mod io4_serial;

use crate::text::views;
use vstd::prelude::*;

verus! {

/// A change of one key.
#[derive(Debug, PartialEq, Eq)]
pub enum KeyboardEvent {
    KeyPress { key: String },
    KeyRelease { key: String },
}

/// A sample of one analog axis.
#[derive(Debug, PartialEq, Eq)]
pub struct AnalogEvent {
    pub axis: String,
    pub value: i32,
}

/// One input event of a device.
#[derive(Debug, PartialEq, Eq)]
pub enum InputEvent {
    Keyboard(KeyboardEvent),
    Analog(AnalogEvent),
    /// An event that is carried through without being looked into.
    Other(Vec<u8>),
}

/// The events that one device sent at one time.
#[derive(Debug, PartialEq, Eq)]
pub struct InputEventPacket {
    pub device_id: String,
    pub timestamp: u64,
    pub events: Vec<InputEvent>,
}

/// The model of a [`KeyboardEvent`].
pub enum KeyModel {
    Press(Seq<char>),
    Release(Seq<char>),
}

/// The model of an [`InputEvent`].
pub enum EventModel {
    Keyboard(KeyModel),
    Analog(Seq<char>, i32),
    Other(Seq<u8>),
}

/// The model of an [`InputEventPacket`].
pub struct PacketModel {
    pub device_id: Seq<char>,
    pub timestamp: u64,
    pub events: Seq<EventModel>,
}

impl KeyModel {
    /// The key that changed.
    pub open spec fn key(self) -> Seq<char> {
        match self {
            KeyModel::Press(key) => key,
            KeyModel::Release(key) => key,
        }
    }

    /// The same change, of another key.
    pub open spec fn with_key(self, key: Seq<char>) -> KeyModel {
        match self {
            KeyModel::Press(_) => KeyModel::Press(key),
            KeyModel::Release(_) => KeyModel::Release(key),
        }
    }
}

impl View for KeyboardEvent {
    type V = KeyModel;

    open spec fn view(&self) -> KeyModel {
        match self {
            KeyboardEvent::KeyPress { key } => KeyModel::Press(key@),
            KeyboardEvent::KeyRelease { key } => KeyModel::Release(key@),
        }
    }
}

impl View for InputEvent {
    type V = EventModel;

    open spec fn view(&self) -> EventModel {
        match self {
            InputEvent::Keyboard(e) => EventModel::Keyboard(e@),
            InputEvent::Analog(e) => EventModel::Analog(e.axis@, e.value),
            InputEvent::Other(bytes) => EventModel::Other(bytes@),
        }
    }
}

impl View for InputEventPacket {
    type V = PacketModel;

    open spec fn view(&self) -> PacketModel {
        PacketModel {
            device_id: self.device_id@,
            timestamp: self.timestamp,
            events: views(self.events@),
        }
    }
}

impl Clone for KeyboardEvent {
    fn clone(&self) -> (r: Self)
        ensures
            r@ == self@,
    {
        match self {
            KeyboardEvent::KeyPress { key } => KeyboardEvent::KeyPress { key: key.clone() },
            KeyboardEvent::KeyRelease { key } => KeyboardEvent::KeyRelease { key: key.clone() },
        }
    }
}

impl Clone for AnalogEvent {
    fn clone(&self) -> (r: Self)
        ensures
            r.axis@ == self.axis@,
            r.value == self.value,
    {
        AnalogEvent { axis: self.axis.clone(), value: self.value }
    }
}

impl Clone for InputEvent {
    fn clone(&self) -> (r: Self)
        ensures
            r@ == self@,
    {
        match self {
            InputEvent::Keyboard(e) => InputEvent::Keyboard(e.clone()),
            InputEvent::Analog(e) => InputEvent::Analog(e.clone()),
            InputEvent::Other(bytes) => {
                let copy = bytes.clone();
                assert(copy@ =~= bytes@);
                InputEvent::Other(copy)
            },
        }
    }
}

impl Clone for InputEventPacket {
    fn clone(&self) -> (r: Self)
        ensures
            r@ == self@,
    {
        let events = self.events.clone();
        proof {
            assert(views(events@) =~= views(self.events@)) by {
                assert forall|i: int| 0 <= i < events@.len() implies events@[i]@
                    == self.events@[i]@ by {
                    assert(cloned(self.events@[i], events@[i]));
                }
            }
        }
        InputEventPacket {
            device_id: self.device_id.clone(),
            timestamp: self.timestamp,
            events,
        }
    }
}

impl InputEventPacket {
    /// A packet without events.
    pub fn new(device_id: String, timestamp: u64) -> (r: Self)
        ensures
            r@ == (PacketModel { device_id: device_id@, timestamp, events: Seq::empty() }),
    {
        let r = InputEventPacket { device_id, timestamp, events: Vec::new() };
        assert(views(r.events@) =~= Seq::empty());
        r
    }

    /// Appends an event to the packet.
    pub fn add_event(&mut self, event: InputEvent)
        ensures
            final(self)@ == (PacketModel {
                events: old(self)@.events.push(event@),
                ..old(self)@
            }),
    {
        self.events.push(event);
        assert(views(self.events@) =~= views(old(self).events@).push(event@));
    }
}

/// Law: the model of an event tells all of it. Events of the same model are of the same kind and
/// have the same contents.
pub proof fn law_event_model_tells_all(a: InputEvent, b: InputEvent)
    requires
        a@ == b@,
    ensures
        match (a, b) {
            (
                InputEvent::Keyboard(KeyboardEvent::KeyPress { key: k }),
                InputEvent::Keyboard(KeyboardEvent::KeyPress { key: l }),
            ) => k@ == l@,
            (
                InputEvent::Keyboard(KeyboardEvent::KeyRelease { key: k }),
                InputEvent::Keyboard(KeyboardEvent::KeyRelease { key: l }),
            ) => k@ == l@,
            (InputEvent::Analog(x), InputEvent::Analog(y)) => x.axis@ == y.axis@ && x.value
                == y.value,
            (InputEvent::Other(x), InputEvent::Other(y)) => x@ == y@,
            _ => false,
        },
{
}

/// Law: the model of a packet tells all of it.
pub proof fn law_packet_model_tells_all(a: InputEventPacket, b: InputEventPacket)
    requires
        a@ == b@,
    ensures
        a.device_id@ == b.device_id@,
        a.timestamp == b.timestamp,
        a.events@.len() == b.events@.len(),
        forall|i: int| 0 <= i < a.events@.len() ==> (#[trigger] a.events@[i])@ == b.events@[i]@,
{
    assert(views(a.events@).len() == views(b.events@).len());
    assert forall|i: int| 0 <= i < a.events@.len() implies (#[trigger] a.events@[i])@
        == b.events@[i]@ by {
        assert(views(a.events@)[i] == views(b.events@)[i]);
    }
}

/// Law: a new packet holds its device and its time and no event.
pub proof fn law_packet_new(device_id: String, timestamp: u64, r: InputEventPacket)
    requires
        call_ensures(InputEventPacket::new, (device_id, timestamp), r),
    ensures
        r.device_id@ == device_id@,
        r.timestamp == timestamp,
        r.events@.len() == 0,
{
    assert(views(r.events@).len() == 0);
}

/// Law: an added event comes behind those that were there, and changes nothing else.
pub proof fn law_packet_add_event(packet: &mut InputEventPacket, event: InputEvent)
    requires
        call_ensures(InputEventPacket::add_event, (packet, event), ()),
    ensures
        final(packet).device_id@ == old(packet).device_id@,
        final(packet).timestamp == old(packet).timestamp,
        final(packet).events@.len() == old(packet).events@.len() + 1,
        forall|i: int|
            0 <= i < old(packet).events@.len() ==> (#[trigger] final(packet).events@[i])@
                == old(packet).events@[i]@,
        final(packet).events@.last()@ == event@,
{
    let was = old(packet).events@;
    let now = final(packet).events@;
    let before = views(was);
    let after = views(now);
    assert(after == before.push(event@));
    assert(after.len() == before.len() + 1);
    assert forall|i: int| 0 <= i < was.len() implies (#[trigger] now[i])@ == was[i]@ by {
        assert(after[i] == before[i]);
    }
    assert(after[before.len() as int] == event@);
}

/// Law: a copy of a packet is the same packet.
pub proof fn law_packet_copied(packet: &InputEventPacket, r: InputEventPacket)
    requires
        call_ensures(InputEventPacket::clone, (packet,), r),
    ensures
        r.device_id@ == packet.device_id@,
        r.timestamp == packet.timestamp,
        r.events@.len() == packet.events@.len(),
        forall|i: int| 0 <= i < r.events@.len() ==> (#[trigger] r.events@[i])@ == packet.events@[i]@,
{
    law_packet_model_tells_all(r, *packet);
}

} // verus!
