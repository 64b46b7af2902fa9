use miditip::event::{is_newer, MidiEvent, MiditipEvent, Slot, SlotKey};
use miditip::midi_state::{ChannelState, MidiState};
use miditip::state::MiditipState;

fn ev(status: u8, data1: u8, data2: u8, peer_id: u8, msg_id: u8) -> MiditipEvent {
    MiditipEvent { status, data1, data2, peer_id, msg_id }
}

fn note_key(peer_id: u8, channel: u8, note: u8) -> SlotKey {
    SlotKey { peer_id, channel, slot: Slot::Note(note) }
}

#[test]
fn circular_order_crosses_the_wrap() {
    assert!(is_newer(2, 255));
    assert!(!is_newer(255, 2));
    assert!(is_newer(0, 255));
    assert!(is_newer(1, 0));
    assert!(!is_newer(5, 5));
    assert!(is_newer(127, 0));
    assert!(!is_newer(128, 0));
    assert!(!is_newer(0, 128));
}

#[test]
fn apply_accepts_a_sequence_across_255_to_0() {
    let mut s = MiditipState::new();
    for id in [253u8, 254, 255, 0, 1, 2] {
        assert!(s.apply(ev(0x90, 60, id, 3, id)));
    }
    // older events, before and across the wrap, are refused
    assert!(!s.apply(ev(0x80, 60, 0, 3, 255)));
    assert!(!s.apply(ev(0x80, 60, 0, 3, 1)));
    assert!(!s.apply(ev(0x80, 60, 0, 3, 200)));
    assert_eq!(s.lookup(note_key(3, 0, 60)), Some(ev(0x90, 60, 2, 3, 2)));
    assert!(s.apply(ev(0x80, 60, 0, 3, 3)));
    assert_eq!(s.lookup(note_key(3, 0, 60)), Some(ev(0x80, 60, 0, 3, 3)));
}

#[test]
fn apply_twice_changes_the_state_once() {
    let mut s = MiditipState::new();
    let e = ev(0x91, 64, 90, 2, 7);
    assert!(s.apply(e));
    assert!(!s.apply(e));
    assert_eq!(s.len(), 1);
    assert_eq!(s.lookup(note_key(2, 1, 64)), Some(e));
}

#[test]
fn last_writer_wins_in_either_order() {
    let e1 = ev(0x90, 60, 100, 1, 1);
    let e2 = ev(0x80, 60, 0, 1, 2);
    let mut a = MiditipState::new();
    a.apply(e1);
    a.apply(e2);
    let mut b = MiditipState::new();
    b.apply(e2);
    assert!(!b.apply(e1));
    assert_eq!(a.lookup(note_key(1, 0, 60)), Some(e2));
    assert_eq!(b.lookup(note_key(1, 0, 60)), Some(e2));
    assert_eq!(a.events(), vec![e2]);
    assert_eq!(b.events(), vec![e2]);
}

#[test]
fn peers_keep_separate_slots() {
    let mut s = MiditipState::new();
    assert!(s.apply(ev(0x90, 60, 100, 1, 9)));
    assert!(s.apply(ev(0x90, 60, 80, 2, 1)));
    assert_eq!(s.len(), 2);
    assert_eq!(s.lookup(note_key(1, 0, 60)), Some(ev(0x90, 60, 100, 1, 9)));
    assert_eq!(s.lookup(note_key(2, 0, 60)), Some(ev(0x90, 60, 80, 2, 1)));
}

#[test]
fn slots_by_kind() {
    assert_eq!(ev(0x93, 10, 1, 4, 1).key(), Some(note_key(4, 3, 10)));
    assert_eq!(ev(0x83, 10, 0, 4, 1).key(), Some(note_key(4, 3, 10)));
    assert_eq!(
        ev(0xB5, 7, 100, 4, 1).key(),
        Some(SlotKey { peer_id: 4, channel: 5, slot: Slot::Controller(7) })
    );
    assert_eq!(ev(0xCF, 12, 0, 4, 1).key(), Some(SlotKey { peer_id: 4, channel: 15, slot: Slot::Program }));
    assert_eq!(ev(0xE0, 0, 64, 4, 1).key(), None);
    let mut s = MiditipState::new();
    assert!(!s.apply(ev(0xE0, 0, 64, 4, 1)));
    assert_eq!(s.len(), 0);
}

#[test]
fn diff_twice_emits_once() {
    let mut reference = MiditipState::new();
    reference.apply(ev(0x90, 60, 100, 1, 1));
    reference.apply(ev(0xB0, 7, 90, 1, 2));
    reference.apply(ev(0x90, 62, 70, 2, 5));
    let mut local = MiditipState::new();
    local.apply(ev(0x90, 62, 70, 2, 5));
    let first = local.diff(&reference);
    assert_eq!(
        first,
        vec![
            MidiEvent { status: 0x90, data1: 60, data2: 100 },
            MidiEvent { status: 0xB0, data1: 7, data2: 90 },
        ]
    );
    let second = local.diff(&reference);
    assert!(second.is_empty());
}

#[test]
fn diff_follows_the_reference() {
    let mut reference = MiditipState::new();
    reference.apply(ev(0x90, 60, 100, 1, 1));
    let mut local = MiditipState::new();
    local.apply(ev(0x80, 60, 0, 1, 2));
    local.apply(ev(0x90, 64, 50, 2, 9));
    assert_eq!(local.diff(&reference), vec![MidiEvent { status: 0x90, data1: 60, data2: 100 }]);
    assert_eq!(local.lookup(note_key(1, 0, 60)), Some(ev(0x90, 60, 100, 1, 1)));
    // slots the reference does not hold are left alone
    assert_eq!(local.lookup(note_key(2, 0, 64)), Some(ev(0x90, 64, 50, 2, 9)));
    assert!(local.diff(&reference).is_empty());
}

#[test]
fn snapshot_and_from_events() {
    let mut s = MiditipState::new();
    s.apply(ev(0x90, 60, 100, 1, 1));
    s.apply(ev(0xC2, 5, 0, 1, 2));
    let copy = s.snapshot();
    assert_eq!(copy.events(), s.events());
    let rebuilt = MiditipState::from_events(&s.events()).unwrap();
    assert_eq!(rebuilt.events(), s.events());
    let dup = vec![ev(0x90, 60, 100, 1, 1), ev(0x80, 60, 0, 1, 2)];
    assert!(MiditipState::from_events(&dup).is_none());
    let untracked = vec![ev(0xE0, 0, 0, 1, 1)];
    assert!(MiditipState::from_events(&untracked).is_none());
}

#[test]
fn datagram_bytes_round_trip() {
    let e = ev(144, 60, 100, 1, 1);
    assert_eq!(e.to_array(), [144, 60, 100, 1, 1]);
    assert_eq!(MiditipEvent::from_array(&[128, 59, 0, 7, 200]), ev(128, 59, 0, 7, 200));
    assert_eq!(MiditipEvent::from_array(&e.to_array()), e);
    assert_eq!(e.midi_event(), MidiEvent { status: 144, data1: 60, data2: 100 });
}

#[test]
fn dense_state_starts_at_rest() {
    let channel = ChannelState::new();
    assert_eq!(channel.program(), 0);
    for n in 0..128 {
        assert_eq!(channel.controller(n), 0);
        assert_eq!(channel.note(n), 0);
    }
    let state = MidiState::new();
    for c in 0..16 {
        let ch = state.channel(c);
        assert_eq!(ch.program(), 0);
        assert_eq!(ch.note(60), 0);
        assert_eq!(ch.controller(7), 0);
    }
}
