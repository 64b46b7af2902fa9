use miditip::client::{Client, MAX_REPORT, REPORT_BATCH};
use miditip::event::{MidiEvent, MiditipEvent, Slot, SlotKey};
use miditip::server::{Server, SessionError};
use miditip::state::MiditipState;
use miditip::wire::{decode_client_msg, decode_server_msg, ClientMsg, Decoded, PeerAddr, ServerMsg};

fn addr(last: u32, port: u16) -> PeerAddr {
    PeerAddr::V4 { ip: 0x0a00_0000 | last, port }
}

fn list_of(bytes: &Vec<u8>) -> Vec<PeerAddr> {
    match decode_server_msg(bytes) {
        Decoded::Message(ServerMsg::NewPeerList(list), _) => list,
        _ => panic!("expected a peer list"),
    }
}

#[test]
fn ids_are_smallest_free() {
    let mut server = Server::new();
    assert_eq!(server.accept_peer(addr(1, 50000), 8000), Ok(0));
    assert_eq!(server.accept_peer(addr(2, 50000), 8000), Ok(1));
    assert_eq!(server.accept_peer(addr(3, 50000), 8000), Ok(2));
    server.remove_peer(1);
    assert_eq!(server.unused_peer_id(), Some(1));
    assert_eq!(server.accept_peer(addr(4, 50000), 8000), Ok(1));
    assert_eq!(server.accept_peer(addr(5, 50000), 8000), Ok(3));
    server.remove_peer(0);
    server.remove_peer(2);
    assert_eq!(server.accept_peer(addr(6, 50000), 8000), Ok(0));
    assert_eq!(server.accept_peer(addr(7, 50000), 8000), Ok(2));
}

#[test]
fn session_full_after_256() {
    let mut server = Server::new();
    for i in 0..256u32 {
        assert_eq!(server.accept_peer(addr(i, 40000), 8000), Ok(i as u8));
    }
    assert_eq!(server.unused_peer_id(), None);
    assert_eq!(server.accept_peer(addr(999, 40000), 8000), Err(SessionError::SessionFull));
    server.remove_peer(77);
    assert_eq!(server.accept_peer(addr(999, 40000), 8000), Ok(77));
}

#[test]
fn peer_list_excludes_own_address() {
    let mut server = Server::new();
    server.accept_peer(addr(1, 50000), 8000).unwrap();
    server.accept_peer(addr(2, 50001), 8001).unwrap();
    server.accept_peer(addr(3, 50002), 8002).unwrap();
    let lists = server.peer_lists();
    assert_eq!(lists.len(), 3);
    assert_eq!(lists[0].to, 0);
    assert_eq!(list_of(&lists[0].bytes), vec![addr(2, 8001), addr(3, 8002)]);
    assert_eq!(lists[1].to, 1);
    assert_eq!(list_of(&lists[1].bytes), vec![addr(1, 8000), addr(3, 8002)]);
    assert_eq!(list_of(&lists[2].bytes), vec![addr(1, 8000), addr(2, 8001)]);
}

#[test]
fn join_and_leave_scenario() {
    let mut server = Server::new();
    let a = server.accept_peer(addr(1, 50000), 8000).unwrap();
    let lists = server.peer_lists();
    assert_eq!(lists.len(), 1);
    assert_eq!(lists[0].to, a);
    assert!(list_of(&lists[0].bytes).is_empty());

    let b = server.accept_peer(addr(2, 50000), 9000).unwrap();
    let lists = server.peer_lists();
    assert_eq!(lists.len(), 2);
    assert_eq!(lists[0].to, a);
    assert_eq!(list_of(&lists[0].bytes), vec![addr(2, 9000)]);
    assert_eq!(lists[1].to, b);
    assert_eq!(list_of(&lists[1].bytes), vec![addr(1, 8000)]);

    server.remove_peer(b);
    let lists = server.peer_lists();
    assert_eq!(lists.len(), 1);
    assert_eq!(lists[0].to, a);
    assert!(list_of(&lists[0].bytes).is_empty());
}

#[test]
fn server_merges_and_broadcasts_state() {
    let mut server = Server::new();
    server.accept_peer(addr(1, 50000), 8000).unwrap();
    server.accept_peer(addr(2, 50000), 8000).unwrap();
    let on = MiditipEvent { status: 144, data1: 60, data2: 100, peer_id: 0, msg_id: 1 };
    let off = MiditipEvent { status: 128, data1: 60, data2: 0, peer_id: 0, msg_id: 2 };
    server.receive_events(&vec![off, on]);
    assert_eq!(server.state().events(), vec![off]);
    let frames = server.state_frames();
    assert_eq!(frames.len(), 2);
    assert_eq!(frames[1].to, 1);
    for f in frames.iter() {
        match decode_server_msg(&f.bytes) {
            Decoded::Message(ServerMsg::MiditipState(s), _) => assert_eq!(s.events(), vec![off]),
            _ => panic!("expected a state"),
        }
    }
}

#[test]
fn datagram_then_snapshot_plays_once() {
    // B (id 2) has a stale snapshot with no record of note 60
    let mut b = Client::new(2);
    assert!(b.on_snapshot(MiditipState::new()).is_empty());
    // A (id 1) sends note-on msg_id 1 straight to B
    let a_on = MiditipEvent { status: 144, data1: 60, data2: 100, peer_id: 1, msg_id: 1 };
    let played = b.on_datagram(&a_on.to_array());
    assert_eq!(played, Some(MidiEvent { status: 144, data1: 60, data2: 100 }));
    // then the server's snapshot shows the same record
    let mut snapshot = MiditipState::new();
    snapshot.apply(a_on);
    assert!(b.on_snapshot(snapshot).is_empty());
}

#[test]
fn lost_note_on_never_sticks() {
    let mut b = Client::new(2);
    let on = MiditipEvent { status: 144, data1: 60, data2: 100, peer_id: 1, msg_id: 1 };
    let off = MiditipEvent { status: 128, data1: 60, data2: 0, peer_id: 1, msg_id: 2 };
    // only the note-off arrives
    assert_eq!(b.on_datagram(&off.to_array()), Some(MidiEvent { status: 128, data1: 60, data2: 0 }));
    let key = SlotKey { peer_id: 1, channel: 0, slot: Slot::Note(60) };
    assert_eq!(b.sounding(key), Some(off));
    // a late note-on changes nothing
    assert_eq!(b.on_datagram(&on.to_array()), None);
    assert_eq!(b.sounding(key), Some(off));
    // the server's snapshot, once it has the note-off, agrees
    let mut snapshot = MiditipState::new();
    snapshot.apply(off);
    assert!(b.on_snapshot(snapshot).is_empty());
    assert_eq!(b.sounding(key), Some(off));
}

#[test]
fn snapshots_are_adopted() {
    let mut b = Client::new(2);
    let key = SlotKey { peer_id: 1, channel: 0, slot: Slot::Note(60) };
    let on = MiditipEvent { status: 144, data1: 60, data2: 100, peer_id: 1, msg_id: 1 };
    let off = MiditipEvent { status: 128, data1: 60, data2: 0, peer_id: 1, msg_id: 2 };
    let other = MiditipEvent { status: 0xB0, data1: 7, data2: 3, peer_id: 4, msg_id: 1 };
    b.on_datagram(&off.to_array());
    b.on_datagram(&other.to_array());
    let own = b.local_event(MidiEvent { status: 0x91, data1: 50, data2: 60 });
    // the snapshot still holds the note-on and neither of the others
    let mut snapshot = MiditipState::new();
    snapshot.apply(on);
    assert_eq!(b.on_snapshot(snapshot), vec![MidiEvent { status: 144, data1: 60, data2: 100 }]);
    assert_eq!(b.sounding(key), Some(on));
    assert_eq!(b.sounding(SlotKey { peer_id: 4, channel: 0, slot: Slot::Controller(7) }), None);
    // the client's own pending event is offered to the snapshot and kept
    assert_eq!(b.sounding(SlotKey { peer_id: 2, channel: 1, slot: Slot::Note(50) }), Some(own));
    assert_eq!(b.pending_len(), 1);
}

#[test]
fn untracked_kinds_are_played() {
    let mut b = Client::new(2);
    let bend = MiditipEvent { status: 0xE0, data1: 0, data2: 70, peer_id: 1, msg_id: 1 };
    assert_eq!(b.on_datagram(&bend.to_array()), Some(MidiEvent { status: 0xE0, data1: 0, data2: 70 }));
    assert_eq!(b.on_datagram(&bend.to_array()), Some(MidiEvent { status: 0xE0, data1: 0, data2: 70 }));
}

#[test]
fn local_events_are_stamped_in_sequence() {
    let mut c = Client::new(5);
    let m = MidiEvent { status: 0x90, data1: 40, data2: 1 };
    for expected in 1..=300u32 {
        let e = c.local_event(m);
        assert_eq!(e.peer_id, 5);
        assert_eq!(e.msg_id, (expected % 256) as u8);
        assert_eq!(e.midi_event(), m);
    }
    assert_eq!(c.pending_len(), 300);
}

#[test]
fn pending_events_are_pruned_by_snapshots() {
    let mut c = Client::new(3);
    let e1 = c.local_event(MidiEvent { status: 0x90, data1: 60, data2: 100 });
    let e2 = c.local_event(MidiEvent { status: 0x90, data1: 62, data2: 100 });
    assert_eq!(c.pending_len(), 2);
    let report = c.report();
    assert!(match decode_client_msg(&report) {
        Decoded::Message(ClientMsg::MiditipEvents(v), _) => v == vec![e1, e2],
        _ => false,
    });
    // the server has seen only the first
    let mut snapshot = MiditipState::new();
    snapshot.apply(e1);
    assert!(c.on_snapshot(snapshot).is_empty());
    assert_eq!(c.pending_len(), 1);
    let report = c.report();
    assert!(match decode_client_msg(&report) {
        Decoded::Message(ClientMsg::MiditipEvents(v), _) => v == vec![e2],
        _ => false,
    });
}

#[test]
fn reports_fall_due_after_a_batch() {
    let mut c = Client::new(0);
    for _ in 0..REPORT_BATCH - 1 {
        c.local_event(MidiEvent { status: 0xB0, data1: 1, data2: 2 });
    }
    assert!(!c.report_due());
    c.local_event(MidiEvent { status: 0xB0, data1: 1, data2: 2 });
    assert!(c.report_due());
    c.report();
    assert!(!c.report_due());
    assert!(MAX_REPORT >= REPORT_BATCH);
}

#[test]
fn peer_lists_replace_known_peers() {
    let mut c = Client::new(0);
    c.on_peer_list(vec![addr(1, 8000), addr(2, 8001)]);
    assert_eq!(c.peers(), &vec![addr(1, 8000), addr(2, 8001)]);
    c.on_peer_list(vec![]);
    assert!(c.peers().is_empty());
    assert_eq!(c.peer_id(), 0);
}
