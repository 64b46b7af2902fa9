use miditip::event::MiditipEvent;
use miditip::state::MiditipState;
use miditip::wire::{
    decode_client_init, decode_client_msg, decode_server_init, decode_server_msg, encode_client_init,
    encode_client_msg, encode_server_init, encode_server_msg, ClientInitMsg, ClientMsg, Decoded, PeerAddr,
    ServerInitMsg, ServerMsg,
};

fn ev(status: u8, data1: u8, data2: u8, peer_id: u8, msg_id: u8) -> MiditipEvent {
    MiditipEvent { status, data1, data2, peer_id, msg_id }
}

#[test]
fn test_send_recv() {
    let bytes = encode_server_init(&ServerInitMsg::PeerId(10));
    let mut buffer = bytes.clone();
    buffer.resize(1024, 0);
    assert!(match decode_server_init(&buffer) {
        Decoded::Message(ServerInitMsg::PeerId(10), n) => n == bytes.len(),
        _ => false,
    });

    let bytes = encode_server_msg(&ServerMsg::NewPeerList(vec![]));
    assert!(match decode_server_msg(&bytes) {
        Decoded::Message(ServerMsg::NewPeerList(list), _) => list.len() == 0,
        _ => false,
    });

    let mut miditip_state = MiditipState::new();
    miditip_state.apply(ev(144, 59, 126, 0, 1));
    miditip_state.apply(ev(128, 59, 0, 0, 2));
    let bytes = encode_server_msg(&ServerMsg::MiditipState(miditip_state));
    assert!(match decode_server_msg(&bytes) {
        Decoded::Message(ServerMsg::MiditipState(s), _) => s.events() == vec![ev(128, 59, 0, 0, 2)],
        _ => false,
    });
}

#[test]
fn client_init_exact_bytes() {
    let bytes = encode_client_init(&ClientInitMsg::NewPeer(8866));
    assert_eq!(bytes, vec![0, 0, 0, 3, 1, 0x22, 0xA2]);
    assert!(matches!(decode_client_init(&bytes), Decoded::Message(ClientInitMsg::NewPeer(8866), 7)));
}

#[test]
fn server_init_exact_bytes() {
    assert_eq!(encode_server_init(&ServerInitMsg::PeerId(10)), vec![0, 0, 0, 2, 2, 10]);
}

#[test]
fn events_exact_bytes_and_round_trip() {
    let events = vec![ev(144, 60, 100, 1, 1), ev(128, 60, 0, 1, 2)];
    let bytes = encode_client_msg(&ClientMsg::MiditipEvents(events.clone()));
    assert_eq!(bytes, vec![0, 0, 0, 11, 3, 144, 60, 100, 1, 1, 128, 60, 0, 1, 2]);
    match decode_client_msg(&bytes) {
        Decoded::Message(ClientMsg::MiditipEvents(v), n) => {
            assert_eq!(v, events);
            assert_eq!(n, 15);
        },
        _ => panic!("expected a message"),
    }
}

#[test]
fn incomplete_frames_wait_for_more() {
    let bytes = encode_client_init(&ClientInitMsg::NewPeer(9000));
    for cut in 0..bytes.len() {
        assert!(matches!(decode_client_init(&bytes[..cut].to_vec()), Decoded::Incomplete));
    }
    assert!(matches!(decode_server_msg(&vec![0, 0]), Decoded::Incomplete));
    assert!(matches!(decode_server_msg(&vec![0, 0, 0, 9, 4]), Decoded::Incomplete));
}

#[test]
fn a_frame_followed_by_more_bytes() {
    let mut bytes = encode_server_init(&ServerInitMsg::PeerId(3));
    bytes.extend(encode_server_msg(&ServerMsg::NewPeerList(vec![])));
    assert!(matches!(decode_server_init(&bytes), Decoded::Message(ServerInitMsg::PeerId(3), 6)));
    assert!(matches!(decode_server_msg(&bytes[6..].to_vec()), Decoded::Message(ServerMsg::NewPeerList(_), 5)));
}

#[test]
fn malformed_frames() {
    // unknown tag
    assert!(matches!(decode_server_msg(&vec![0, 0, 0, 1, 9]), Decoded::Malformed));
    // empty body
    assert!(matches!(decode_server_msg(&vec![0, 0, 0, 0]), Decoded::Malformed));
    // a port of one byte
    assert!(matches!(decode_client_init(&vec![0, 0, 0, 2, 1, 5]), Decoded::Malformed));
    // an event cut short
    assert!(matches!(decode_client_msg(&vec![0, 0, 0, 4, 3, 144, 60, 100]), Decoded::Malformed));
    // a state frame whose events share a slot
    let dup = vec![0, 0, 0, 11, 5, 144, 60, 100, 1, 1, 128, 60, 0, 1, 2];
    assert!(matches!(decode_server_msg(&dup), Decoded::Malformed));
    // an address of an unknown family
    assert!(matches!(decode_server_msg(&vec![0, 0, 0, 2, 4, 5]), Decoded::Malformed));
    // an IPv4 address cut short
    assert!(matches!(decode_server_msg(&vec![0, 0, 0, 4, 4, 4, 127, 0]), Decoded::Malformed));
    // the wrong message kind for the direction
    let init = encode_client_init(&ClientInitMsg::NewPeer(1));
    assert!(matches!(decode_server_init(&init), Decoded::Malformed));
}

#[test]
fn peer_list_round_trip() {
    let v4 = PeerAddr::V4 { ip: 0x7f00_0001, port: 8000 };
    let v6 = PeerAddr::V6 { hi: 0xfe80_0000_0000_0000, lo: 0x1234_5678_9abc_def0, port: 9001, flowinfo: 7, scope_id: 2 };
    let bytes = encode_server_msg(&ServerMsg::NewPeerList(vec![v4, v6]));
    assert_eq!(bytes.len(), 4 + 1 + 7 + 27);
    assert_eq!(bytes[..12].to_vec(), vec![0, 0, 0, 35, 4, 4, 127, 0, 0, 1, 0x1f, 0x40]);
    match decode_server_msg(&bytes) {
        Decoded::Message(ServerMsg::NewPeerList(list), n) => {
            assert_eq!(list, vec![v4, v6]);
            assert_eq!(n, bytes.len());
        },
        _ => panic!("expected a peer list"),
    }
}

#[test]
fn with_port_keeps_the_host() {
    let a = PeerAddr::V4 { ip: 0x0a00_0002, port: 51000 };
    assert_eq!(a.with_port(8001), PeerAddr::V4 { ip: 0x0a00_0002, port: 8001 });
    assert_eq!(a.port(), 51000);
    let b = PeerAddr::V6 { hi: 1, lo: 2, port: 3, flowinfo: 4, scope_id: 5 };
    assert_eq!(b.with_port(9), PeerAddr::V6 { hi: 1, lo: 2, port: 9, flowinfo: 4, scope_id: 5 });
}
