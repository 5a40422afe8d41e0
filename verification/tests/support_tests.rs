use network_hole_punching::clock::{elapsed_nanos, elapsed_secs, NANOS_PER_SEC};
use network_hole_punching::coordinator::RegistrationReply;
use network_hole_punching::peer::{Peer, RefreshOutcome};
use network_hole_punching::str_map::StrMap;

#[test]
fn elapsed_saturates() {
    assert_eq!(elapsed_nanos(10, 3), 7);
    assert_eq!(elapsed_nanos(3, 10), 0);
    assert_eq!(elapsed_secs(5 * NANOS_PER_SEC - 1, 0), 4);
    assert_eq!(elapsed_secs(5 * NANOS_PER_SEC, 0), 5);
    assert_eq!(elapsed_secs(0, 5), 0);
}

#[test]
fn json_escapes_round_trip() {
    let reply = RegistrationReply::KnownPeers(vec!["a".to_string(), "b\"c".to_string()]);
    let text = reply.to_json();
    assert_eq!(text, "[\"a\",\"b\\\"c\"]");
    let mut p = Peer::new("pw", "t".to_string(), 0);
    assert!(matches!(p.apply_coordinator_reply(&text), RefreshOutcome::PeersUpdated(true)));
    let mut addrs = p.peer_addrs();
    addrs.sort();
    assert_eq!(addrs, vec!["a".to_string(), "b\"c".to_string()]);
    assert_eq!(RegistrationReply::KnownPeers(vec![]).to_json(), "[]");
    assert!(matches!(p.apply_coordinator_reply(" [ \"z\" ] "), RefreshOutcome::PeersUpdated(true)));
    assert_eq!(p.peer_addrs().len(), 3);
}

#[test]
fn encryptions_use_fresh_nonces() {
    let p = Peer::new("pw", "t".to_string(), 0);
    let a = p.encrypt(b"same");
    let b = p.encrypt(b"same");
    assert_ne!(a[..12], b[..12]);
    assert_ne!(a, b);
}

#[test]
fn str_map_basics() {
    let mut m: StrMap<u64> = StrMap::new();
    m.insert("a".to_string(), 1);
    m.insert("b".to_string(), 2);
    m.insert("a".to_string(), 3);
    assert_eq!(m.get(&"a".to_string()), Some(&3));
    assert!(m.contains_key(&"b".to_string()));
    let mut keys = m.keys();
    keys.sort();
    assert_eq!(keys, vec!["a".to_string(), "b".to_string()]);
    assert_eq!(m.keys_except(Some(&"a".to_string())), vec!["b".to_string()]);
    assert_eq!(m.remove(&"a".to_string()), Some(3));
    assert_eq!(m.remove(&"a".to_string()), None);
    assert_eq!(m.get(&"a".to_string()), None);
}
