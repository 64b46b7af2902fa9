//! MIDI short messages, their peer-tagged form, and the circular order of
//! per-peer sequence numbers.

use vstd::prelude::*;

verus! {

/// A raw three-byte MIDI short message.
#[derive(PartialEq, Eq, Structural, Clone, Copy, Debug)]
pub struct MidiEvent {
    pub status: u8,
    pub data1: u8,
    pub data2: u8,
}

/// A MIDI message tagged with the peer that produced it and that peer's
/// sequence number.
#[derive(PartialEq, Eq, Structural, Clone, Copy, Debug)]
pub struct MiditipEvent {
    pub status: u8,
    pub data1: u8,
    pub data2: u8,
    pub peer_id: u8,
    pub msg_id: u8,
}

/// The part of a channel that a message sets: one note, one controller, or
/// the program (instrument).
#[derive(PartialEq, Eq, Structural, Clone, Copy, Debug)]
pub enum Slot {
    Note(u8),
    Controller(u8),
    Program,
}

/// Where a message is stored in the merged state: a slot of a channel, in
/// the namespace of one peer.
#[derive(PartialEq, Eq, Structural, Clone, Copy, Debug)]
pub struct SlotKey {
    pub peer_id: u8,
    pub channel: u8,
    pub slot: Slot,
}

/// `a` comes after `b` in circular order: the forward distance from `b` to
/// `a`, modulo 256, lies in 1..=127.
pub open spec fn newer(a: u8, b: u8) -> bool {
    let d = (a as int - b as int) % 256;
    1 <= d <= 127
}

/// Counting `k` steps on from `a`, past 255 through 0, gives a later
/// sequence number exactly when `k` is 1 to 127; `a` is then not later than
/// it.
pub proof fn lemma_circular_order(a: u8, k: int)
    requires
        0 <= k <= 255,
    ensures
        newer(((a + k) % 256) as u8, a) <==> 1 <= k <= 127,
        1 <= k <= 127 ==> !newer(a, ((a + k) % 256) as u8),
{
}

/// Of two sequence numbers, at most one is later than the other.
pub proof fn lemma_newer_asymmetric(a: u8, b: u8)
    ensures
        !(newer(a, b) && newer(b, a)),
{
}

/// Whether `a` is a later sequence number than `b` under circular order.
pub fn is_newer(a: u8, b: u8) -> (r: bool)
    ensures
        r == newer(a, b),
{
    let d: u8 = a.wrapping_sub(b);
    1 <= d && d <= 127
}

/// The slot that a message with this status and first data byte sets, if
/// any. The high nibble of the status is the kind: note off (8) and note on
/// (9) set a note, control change (11) a controller, program change (12) the
/// program. Other kinds are relayed but not tracked.
pub open spec fn slot_of(status: u8, data1: u8) -> Option<Slot> {
    let kind = status / 16;
    if kind == 8 || kind == 9 {
        Some(Slot::Note(data1))
    } else if kind == 11 {
        Some(Slot::Controller(data1))
    } else if kind == 12 {
        Some(Slot::Program)
    } else {
        None
    }
}

/// The key under which an event is stored, if its kind is tracked.
pub open spec fn key_of(e: MiditipEvent) -> Option<SlotKey> {
    match slot_of(e.status, e.data1) {
        Some(slot) => Some(SlotKey { peer_id: e.peer_id, channel: e.status % 16, slot }),
        None => None,
    }
}

/// The five bytes of an event on the wire:
/// status, data1, data2, peer_id, msg_id.
pub open spec fn event_bytes(e: MiditipEvent) -> Seq<u8> {
    seq![e.status, e.data1, e.data2, e.peer_id, e.msg_id]
}

impl MiditipEvent {
    pub open spec fn midi(self) -> MidiEvent {
        MidiEvent { status: self.status, data1: self.data1, data2: self.data2 }
    }

    /// The MIDI message carried by this event.
    pub fn midi_event(&self) -> (r: MidiEvent)
        ensures
            r == self.midi(),
    {
        MidiEvent { status: self.status, data1: self.data1, data2: self.data2 }
    }

    /// Tags a MIDI message with its origin.
    pub fn from_midi(m: MidiEvent, peer_id: u8, msg_id: u8) -> (r: MiditipEvent)
        ensures
            r.midi() == m,
            r.peer_id == peer_id,
            r.msg_id == msg_id,
    {
        MiditipEvent { status: m.status, data1: m.data1, data2: m.data2, peer_id, msg_id }
    }

    /// The key under which this event is stored, if its kind is tracked.
    pub fn key(&self) -> (r: Option<SlotKey>)
        ensures
            r == key_of(*self),
    {
        let kind: u8 = self.status / 16;
        let channel: u8 = self.status % 16;
        if kind == 8 || kind == 9 {
            Some(SlotKey { peer_id: self.peer_id, channel, slot: Slot::Note(self.data1) })
        } else if kind == 11 {
            Some(SlotKey { peer_id: self.peer_id, channel, slot: Slot::Controller(self.data1) })
        } else if kind == 12 {
            Some(SlotKey { peer_id: self.peer_id, channel, slot: Slot::Program })
        } else {
            None
        }
    }

    /// The datagram form of this event.
    pub fn to_array(&self) -> (r: [u8; 5])
        ensures
            r@ == event_bytes(*self),
    {
        let r: [u8; 5] = [self.status, self.data1, self.data2, self.peer_id, self.msg_id];
        assert(r@ =~= event_bytes(*self));
        r
    }

    /// Reads an event from its datagram form.
    pub fn from_array(raw: &[u8; 5]) -> (r: MiditipEvent)
        ensures
            event_bytes(r) == raw@,
    {
        let r = MiditipEvent {
            status: raw[0],
            data1: raw[1],
            data2: raw[2],
            peer_id: raw[3],
            msg_id: raw[4],
        };
        assert(event_bytes(r) =~= raw@);
        r
    }
}

} // verus!
