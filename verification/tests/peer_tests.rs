use network_hole_punching::coordinator::Coordinator;
use network_hole_punching::peer::{
    heartbeat_message, re_punch_message, registration_message, GamePacket, Incoming, PacketType,
    Peer, RefreshOutcome, RE_PUNCH_ATTEMPTS,
};
use network_hole_punching::clock::NANOS_PER_SEC;

#[test]
fn sealed_packet_is_read_back_by_same_password() {
    let a = Peer::new("secret", "token-a".to_string(), 0);
    let mut b = Peer::new("secret", "token-b".to_string(), 0);
    let packet = a.encrypt(b"hello there");
    assert_eq!(packet.len(), 12 + 11 + 16);
    match b.receive(&packet, 1) {
        Incoming::Message(m) => assert_eq!(m, b"hello there".to_vec()),
        _ => panic!("not read back"),
    }
}

#[test]
fn seal_with_known_nonce_is_deterministic() {
    let a = Peer::new("secret", "t".to_string(), 0);
    let nonce = [7u8; 12];
    let p1 = a.seal(&nonce, b"abc");
    let p2 = a.seal(&nonce, b"abc");
    assert_eq!(p1, p2);
    assert_eq!(&p1[..12], &nonce);
    assert_ne!(&p1[12..15], b"abc");
}

#[test]
fn other_password_is_rejected() {
    let a = Peer::new("secret", "t".to_string(), 0);
    let mut b = Peer::new("other", "t".to_string(), 0);
    let packet = a.encrypt(b"hi");
    assert!(matches!(b.receive(&packet, 0), Incoming::Rejected));
}

#[test]
fn short_packet_is_malformed() {
    let mut b = Peer::new("secret", "t".to_string(), 0);
    assert!(matches!(b.receive(&[1, 2, 3], 0), Incoming::Malformed));
    assert!(matches!(b.receive(&[0u8; 12], 0), Incoming::Rejected));
}

#[test]
fn hello_carries_token() {
    let a = Peer::new("pw", "my-token".to_string(), 0);
    let mut b = Peer::new("pw", "x".to_string(), 0);
    let hello = a.hello_message();
    assert_eq!(hello, b"HELLO my-token".to_vec());
    match b.receive(&a.encrypt(&hello), 0) {
        Incoming::Hello(t) => assert_eq!(t, b"my-token".to_vec()),
        _ => panic!("not a hello"),
    }
}

#[test]
fn heartbeat_restarts_clock() {
    let a = Peer::new("pw", "t".to_string(), 0);
    let mut b = Peer::new("pw", "t".to_string(), 0);
    let s = NANOS_PER_SEC;
    assert!(!b.heartbeat_timed_out(30 * s));
    assert!(b.heartbeat_timed_out(30 * s + 1));
    assert_eq!(heartbeat_message(), b"heartbeat".to_vec());
    assert!(matches!(b.receive(&a.encrypt(&heartbeat_message()), 20 * s), Incoming::Heartbeat));
    assert!(!b.heartbeat_timed_out(50 * s));
    assert!(b.heartbeat_timed_out(50 * s + 1));
    // a clock reading before the last heartbeat counts as no time at all
    assert!(!b.heartbeat_timed_out(0));
}

#[test]
fn re_punch_is_an_ordinary_message() {
    let a = Peer::new("pw", "t".to_string(), 0);
    let mut b = Peer::new("pw", "t".to_string(), 0);
    assert_eq!(re_punch_message(), b"re-punch".to_vec());
    match b.receive(&a.encrypt(&re_punch_message()), 0) {
        Incoming::Message(m) => assert_eq!(m, b"re-punch".to_vec()),
        _ => panic!("not a message"),
    }
}

#[test]
fn re_punch_only_with_peers() {
    let mut p = Peer::new("pw", "t".to_string(), 0);
    assert_eq!(p.re_punch_rounds(), 0);
    p.add_peer("1.2.3.4:5".to_string());
    assert_eq!(p.re_punch_rounds(), RE_PUNCH_ATTEMPTS);
    assert_eq!(RE_PUNCH_ATTEMPTS, 5);
}

#[test]
fn add_peer_keeps_each_address_once() {
    let mut p = Peer::new("pw", "t".to_string(), 0);
    p.add_peer("a".to_string());
    p.add_peer("a".to_string());
    p.add_peer("b".to_string());
    let mut addrs = p.peer_addrs();
    addrs.sort();
    assert_eq!(addrs, vec!["a".to_string(), "b".to_string()]);
}

#[test]
fn coordinator_reply_updates_peers() {
    let mut p = Peer::new("pw", "t".to_string(), 0);
    assert!(matches!(
        p.apply_coordinator_reply("[\"a\",\"b\"]"),
        RefreshOutcome::PeersUpdated(true)
    ));
    assert!(matches!(p.apply_coordinator_reply("[\"a\"]"), RefreshOutcome::PeersUpdated(false)));
    assert!(matches!(p.apply_coordinator_reply("[]"), RefreshOutcome::PeersUpdated(false)));
    let mut addrs = p.peer_addrs();
    addrs.sort();
    assert_eq!(addrs, vec!["a".to_string(), "b".to_string()]);
}

#[test]
fn coordinator_reply_special_words() {
    let mut p = Peer::new("pw", "t".to_string(), 0);
    assert!(matches!(p.apply_coordinator_reply("\"room_closed\""), RefreshOutcome::RoomClosed));
    assert!(matches!(p.apply_coordinator_reply("\"disconnected\""), RefreshOutcome::Disconnected));
    assert!(matches!(p.apply_coordinator_reply("garbage"), RefreshOutcome::Unreadable));
    assert!(p.peer_addrs().is_empty());
}

#[test]
fn first_reply_waiting_adds_nothing() {
    let mut p = Peer::new("pw", "t".to_string(), 0);
    p.apply_registration_reply("waiting");
    assert!(p.peer_addrs().is_empty());
    p.apply_registration_reply("\"room_closed\"");
    assert!(p.peer_addrs().is_empty());
    p.apply_registration_reply("[\"x:1\"]");
    assert_eq!(p.peer_addrs(), vec!["x:1".to_string()]);
}

#[test]
fn registration_message_format() {
    assert_eq!(registration_message("room", "1.2.3.4:5"), "room,1.2.3.4:5");
}

#[test]
fn host_addr_is_recorded() {
    let mut p = Peer::new("pw", "t".to_string(), 0);
    assert!(p.host_addr.is_none());
    p.set_host_addr("h:1".to_string());
    assert_eq!(p.host_addr, Some("h:1".to_string()));
    assert_eq!(p.token, "t");
}

#[test]
fn game_packet_log_lines() {
    let mv = GamePacket { packet_type: PacketType::Move, payload: "e4".to_string(), sender: "ann".to_string() };
    assert_eq!(mv.log_line(), "[MOVE] ann: e4");
    let chat = GamePacket { packet_type: PacketType::Chat, payload: "hi".to_string(), sender: "bob".to_string() };
    assert_eq!(chat.log_line(), "[CHAT] bob: hi");
    let act = GamePacket { packet_type: PacketType::Action, payload: "jump".to_string(), sender: "cy".to_string() };
    assert_eq!(act.log_line(), "[ACTION] cy: jump");
}

#[test]
fn coordinator_reply_read_by_peer() {
    let mut c = Coordinator::new();
    c.handle_request("room,1.1.1.1:1,true", 0);
    let reply = c.handle_request(&registration_message("room", "2.2.2.2:2"), 0);
    let mut p = Peer::new("pw", "t".to_string(), 0);
    assert!(matches!(p.apply_coordinator_reply(&reply), RefreshOutcome::PeersUpdated(true)));
    assert_eq!(p.peer_addrs(), vec!["1.1.1.1:1".to_string()]);
}

#[test]
fn one_packet_per_known_peer() {
    let mut a = Peer::new("pw", "t".to_string(), 0);
    let mut b = Peer::new("pw", "t".to_string(), 0);
    assert!(a.packets_for_peers(b"x").is_empty());
    a.add_peer("p:1".to_string());
    a.add_peer("q:2".to_string());
    let mut packets = a.packets_for_peers(b"move");
    packets.sort();
    assert_eq!(packets.len(), 2);
    assert_eq!(packets[0].0, "p:1");
    assert_eq!(packets[1].0, "q:2");
    for (_, packet) in packets {
        match b.receive(&packet, 0) {
            Incoming::Message(m) => assert_eq!(m, b"move".to_vec()),
            _ => panic!("not read back"),
        }
    }
}

#[test]
fn escaped_addresses_are_read_back() {
    let mut c = Coordinator::new();
    c.handle_request("room,a\"b\\c\u{1},true", 0);
    let reply = c.handle_request("room,x", 0);
    assert_eq!(reply, "[\"a\\\"b\\\\c\\u0001\"]");
    let mut p = Peer::new("pw", "t".to_string(), 0);
    p.apply_coordinator_reply(&reply);
    assert_eq!(p.peer_addrs(), vec!["a\"b\\c\u{1}".to_string()]);
}
