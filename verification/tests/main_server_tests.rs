use network_hole_punching::main_server::{RoomDirectory, ROOM_EXPIRY_SECONDS};

fn is_v4(s: &str) -> bool {
    let b: Vec<char> = s.chars().collect();
    if b.len() != 36 {
        return false;
    }
    for (i, c) in b.iter().enumerate() {
        if i == 8 || i == 13 || i == 18 || i == 23 {
            if *c != '-' {
                return false;
            }
        } else if !(c.is_ascii_digit() || ('a'..='f').contains(c)) {
            return false;
        }
    }
    b[14] == '4' && "89ab".contains(b[19])
}

#[test]
fn open_room_issues_claims() {
    let mut d = RoomDirectory::new();
    let c = d.open_room("r1".to_string(), "p1".to_string(), 100, 1_000);
    assert_eq!(c.room_id, "r1");
    assert_eq!(c.player_id, "p1");
    assert_eq!(c.exp, 1_600);
    assert_eq!(ROOM_EXPIRY_SECONDS, 600);
    let s = d.room_status(&"r1".to_string());
    assert_eq!(s.room_id, "r1");
    assert_eq!(s.players, vec!["p1".to_string()]);
    assert_eq!(s.created_at, 100);
}

#[test]
fn join_appends_players_in_order() {
    let mut d = RoomDirectory::new();
    d.open_room("r1".to_string(), "p1".to_string(), 5, 5);
    let c = d.admit_player(&"r1".to_string(), "p2".to_string(), 7);
    assert_eq!(c.room_id, "r1");
    assert_eq!(c.player_id, "p2");
    assert_eq!(c.exp, 607);
    d.admit_player(&"r1".to_string(), "p3".to_string(), 7);
    let s = d.room_status(&"r1".to_string());
    assert_eq!(s.players, vec!["p1".to_string(), "p2".to_string(), "p3".to_string()]);
}

#[test]
fn join_unknown_room_is_refused() {
    let mut d = RoomDirectory::new();
    assert!(!d.contains_room(&"nope".to_string()));
    d.open_room("r".to_string(), "p".to_string(), 0, 0);
    assert!(d.contains_room(&"r".to_string()));
    assert!(!d.contains_room(&"nope".to_string()));
    assert_eq!(d.list_rooms(), vec!["r".to_string()]);
}

#[test]
fn list_and_cleanup() {
    let mut d = RoomDirectory::new();
    d.open_room("a".to_string(), "p".to_string(), 0, 0);
    d.open_room("b".to_string(), "q".to_string(), 0, 0);
    let mut ids = d.list_rooms();
    ids.sort();
    assert_eq!(ids, vec!["a".to_string(), "b".to_string()]);
    d.cleanup_room(&"a".to_string());
    assert_eq!(d.list_rooms(), vec!["b".to_string()]);
    assert!(!d.contains_room(&"a".to_string()));
    d.cleanup_room(&"missing".to_string());
    assert_eq!(d.list_rooms(), vec!["b".to_string()]);
}

#[test]
fn reopening_a_room_replaces_it() {
    let mut d = RoomDirectory::new();
    d.open_room("a".to_string(), "p".to_string(), 1, 0);
    d.admit_player(&"a".to_string(), "q".to_string(), 0);
    d.open_room("a".to_string(), "r".to_string(), 2, 0);
    let s = d.room_status(&"a".to_string());
    assert_eq!(s.players, vec!["r".to_string()]);
    assert_eq!(s.created_at, 2);
    assert_eq!(d.list_rooms().len(), 1);
}

#[test]
fn create_room_uses_fresh_uuids() {
    let mut d = RoomDirectory::new();
    let c = d.create_room();
    assert!(is_v4(&c.room_id));
    assert!(is_v4(&c.player_id));
    assert_ne!(c.room_id, c.player_id);
    let s = d.room_status(&c.room_id);
    assert_eq!(s.players, vec![c.player_id.clone()]);
    assert!(s.created_at > 1_600_000_000);
    assert!(c.exp as i64 >= s.created_at + 600);
    let j = d.join_room(&c.room_id);
    assert!(is_v4(&j.player_id));
    assert_eq!(j.room_id, c.room_id);
    let s = d.room_status(&c.room_id);
    assert_eq!(s.players, vec![c.player_id.clone(), j.player_id.clone()]);
}
