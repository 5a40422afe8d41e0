use network_hole_punching::clock::NANOS_PER_SEC;
use network_hole_punching::coordinator::{parse_registration, Coordinator, RegistrationReply};

const S: u64 = NANOS_PER_SEC;

fn peers_of(reply: RegistrationReply) -> Vec<String> {
    match reply {
        RegistrationReply::KnownPeers(mut v) => {
            v.sort();
            v
        }
        RegistrationReply::RoomClosed => panic!("room closed"),
    }
}

#[test]
fn parse_two_fields() {
    let r = parse_registration("abc,1.2.3.4:5000").unwrap();
    assert_eq!(r.invite_code, "abc");
    assert_eq!(r.addr, "1.2.3.4:5000");
    assert!(!r.new_room);
}

#[test]
fn parse_new_room_flag() {
    let r = parse_registration("abc,1.2.3.4:5000,true").unwrap();
    assert_eq!(r.invite_code, "abc");
    assert_eq!(r.addr, "1.2.3.4:5000");
    assert!(r.new_room);
    let r = parse_registration("abc,1.2.3.4:5000,false").unwrap();
    assert!(!r.new_room);
    let r = parse_registration("abc,1.2.3.4:5000,true,extra").unwrap();
    assert!(r.new_room);
    let r = parse_registration("abc,x,truex").unwrap();
    assert!(!r.new_room);
}

#[test]
fn parse_without_comma_names_no_address() {
    assert!(parse_registration("abc").is_none());
    assert!(parse_registration("").is_none());
}

#[test]
fn parse_empty_fields() {
    let r = parse_registration(",").unwrap();
    assert_eq!(r.invite_code, "");
    assert_eq!(r.addr, "");
    assert!(!r.new_room);
}

#[test]
fn refresh_of_unknown_room_is_refused() {
    let mut c = Coordinator::new();
    let reply = c.register("room".to_string(), "a".to_string(), false, 0);
    assert!(matches!(reply, RegistrationReply::RoomClosed));
    // nothing was created
    let reply = c.register("room".to_string(), "b".to_string(), false, 0);
    assert!(matches!(reply, RegistrationReply::RoomClosed));
}

#[test]
fn opening_a_room_answers_no_peers() {
    let mut c = Coordinator::new();
    let reply = c.register("room".to_string(), "a".to_string(), true, 0);
    assert_eq!(peers_of(reply), Vec::<String>::new());
}

#[test]
fn second_peer_is_told_about_first() {
    let mut c = Coordinator::new();
    c.register("room".to_string(), "a".to_string(), true, 0);
    let reply = c.register("room".to_string(), "b".to_string(), false, S);
    assert_eq!(peers_of(reply), vec!["a".to_string()]);
    let reply = c.register("room".to_string(), "c".to_string(), false, 2 * S);
    assert_eq!(peers_of(reply), vec!["a".to_string(), "b".to_string()]);
    // a refresh lists the others but never the requester
    let reply = c.register("room".to_string(), "a".to_string(), false, 3 * S);
    assert_eq!(peers_of(reply), vec!["b".to_string(), "c".to_string()]);
}

#[test]
fn rooms_are_separate() {
    let mut c = Coordinator::new();
    c.register("one".to_string(), "a".to_string(), true, 0);
    c.register("two".to_string(), "b".to_string(), true, 0);
    let reply = c.register("one".to_string(), "c".to_string(), false, 0);
    assert_eq!(peers_of(reply), vec!["a".to_string()]);
}

#[test]
fn sweep_keeps_active_room() {
    let mut c = Coordinator::new();
    c.register("room".to_string(), "host".to_string(), true, 0);
    let closed = c.sweep(60 * S);
    assert!(closed.is_empty());
    let reply = c.register("room".to_string(), "b".to_string(), false, 60 * S);
    assert_eq!(peers_of(reply), vec!["host".to_string()]);
}

#[test]
fn sweep_closes_idle_room() {
    let mut c = Coordinator::new();
    c.register("room".to_string(), "host".to_string(), true, 0);
    // 61 whole seconds: the host is stale, and has been gone for more than 30 s
    let closed = c.sweep(61 * S);
    assert_eq!(closed, vec!["room".to_string()]);
    let reply = c.register("room".to_string(), "host".to_string(), false, 61 * S);
    assert!(matches!(reply, RegistrationReply::RoomClosed));
}

#[test]
fn sweep_uses_whole_seconds() {
    let mut c = Coordinator::new();
    c.register("room".to_string(), "host".to_string(), true, 0);
    // 61 s minus one nanosecond is 60 whole seconds: not yet stale
    let closed = c.sweep(61 * S - 1);
    assert!(closed.is_empty());
}

#[test]
fn sweep_drops_stale_guest_but_keeps_room() {
    let mut c = Coordinator::new();
    c.register("room".to_string(), "host".to_string(), true, 0);
    c.register("room".to_string(), "guest".to_string(), false, 0);
    // the host keeps refreshing, the guest does not
    c.register("room".to_string(), "host".to_string(), false, 50 * S);
    let closed = c.sweep(70 * S);
    assert!(closed.is_empty());
    let reply = c.register("room".to_string(), "other".to_string(), false, 70 * S);
    assert_eq!(peers_of(reply), vec!["host".to_string()]);
}

#[test]
fn sweep_closes_room_without_host_after_host_timeout() {
    let mut c = Coordinator::new();
    c.register("room".to_string(), "host".to_string(), true, 0);
    c.register("room".to_string(), "guest".to_string(), false, 0);
    // the guest keeps the room active, the host is silent
    c.register("room".to_string(), "guest".to_string(), false, 60 * S);
    // host last seen at 0: at 61 s it is stale and gone for more than 30 s
    let closed = c.sweep(61 * S);
    assert_eq!(closed, vec!["room".to_string()]);
}

#[test]
fn sweep_twice_closes_nothing_more() {
    let mut c = Coordinator::new();
    c.register("old".to_string(), "a".to_string(), true, 0);
    c.register("new".to_string(), "b".to_string(), true, 100 * S);
    let closed = c.sweep(100 * S);
    assert_eq!(closed, vec!["old".to_string()]);
    let closed = c.sweep(100 * S);
    assert!(closed.is_empty());
}

#[test]
fn handle_request_answers_json() {
    let mut c = Coordinator::new();
    assert_eq!(c.handle_request("room,1.1.1.1:1,true", 0), "[]");
    assert_eq!(c.handle_request("room,2.2.2.2:2", 0), "[\"1.1.1.1:1\"]");
    assert_eq!(c.handle_request("nope,3.3.3.3:3", 0), "\"room_closed\"");
}

#[test]
fn reply_json_lists_peers() {
    let reply = RegistrationReply::KnownPeers(vec!["a:1".to_string(), "b:2".to_string()]);
    assert_eq!(reply.to_json(), "[\"a:1\",\"b:2\"]");
    assert_eq!(RegistrationReply::RoomClosed.to_json(), "\"room_closed\"");
}

#[test]
fn peer_registration_is_read_back() {
    let msg = network_hole_punching::peer::registration_message("abc-123", "10.0.0.1:4000");
    let r = parse_registration(&msg).unwrap();
    assert_eq!(r.invite_code, "abc-123");
    assert_eq!(r.addr, "10.0.0.1:4000");
    assert!(!r.new_room);
}

#[test]
fn repeated_registration_changes_nothing_more() {
    let mut c = Coordinator::new();
    c.register("room".to_string(), "a".to_string(), true, 0);
    c.register("room".to_string(), "a".to_string(), true, 0);
    let reply = c.register("room".to_string(), "b".to_string(), false, 0);
    assert_eq!(peers_of(reply), vec!["a".to_string()]);
}

#[test]
fn host_refresh_keeps_room_open() {
    let mut c = Coordinator::new();
    c.register("room".to_string(), "host".to_string(), true, 0);
    c.register("room".to_string(), "host".to_string(), false, 40 * S);
    assert!(c.sweep(100 * S).is_empty());
    let reply = c.register("room".to_string(), "x".to_string(), false, 100 * S);
    assert_eq!(peers_of(reply), vec!["host".to_string()]);
}
