use vstd::prelude::*;

use crate::str_map::{lists_keys_once, string_views, StrMap};

verus! {

/// A join token expires this many seconds after it is issued.
pub const ROOM_EXPIRY_SECONDS: i64 = 600;

/// The last second that chrono can represent, `+262142-12-31T23:59:59Z`, as a Unix timestamp.
pub const MAX_UTC_TIMESTAMP: i64 = 8_210_266_876_799;

/// What a join token asserts: the room, the player, and when the token expires.
pub struct Claims {
    pub room_id: String,
    pub player_id: String,
    pub exp: usize,
}

/// Claims as a mathematical value.
pub struct ClaimsView {
    pub room_id: Seq<char>,
    pub player_id: Seq<char>,
    pub exp: usize,
}

impl View for Claims {
    type V = ClaimsView;

    open spec fn view(&self) -> ClaimsView {
        ClaimsView { room_id: self.room_id@, player_id: self.player_id@, exp: self.exp }
    }
}

/// A room of the directory: its id, when it was created (Unix seconds) and its players
/// in the order they came.
pub struct Room {
    pub id: String,
    pub created_at: i64,
    pub players: Vec<String>,
}

/// A room as a mathematical value.
pub struct RoomRecord {
    pub id: Seq<char>,
    pub created_at: i64,
    pub players: Seq<Seq<char>>,
}

impl View for Room {
    type V = RoomRecord;

    open spec fn view(&self) -> RoomRecord {
        RoomRecord { id: self.id@, created_at: self.created_at, players: string_views(self.players@) }
    }
}

/// What the directory reports of a room.
pub struct RoomStatus {
    pub room_id: String,
    pub players: Vec<String>,
    pub created_at: i64,
}

/// The rooms of the main server, by id.
pub struct RoomDirectory {
    rooms: StrMap<Room>,
}

/// The expiry of a token issued at Unix second `now`.
pub open spec fn token_expiry(now: i64) -> usize {
    (now + ROOM_EXPIRY_SECONDS) as usize
}

/// A lowercase hexadecimal digit.
pub open spec fn is_lower_hex(c: char) -> bool {
    ('0' as u32 <= c as u32 <= '9' as u32) || ('a' as u32 <= c as u32 <= 'f' as u32)
}

/// The hyphenated lowercase text of a version 4 UUID: 36 characters with hyphens at 8,
/// 13, 18 and 23, lowercase hexadecimal digits elsewhere, the version digit `4` at 14 and
/// one of `8`, `9`, `a`, `b` at 19.
pub open spec fn is_v4_uuid_text(s: Seq<char>) -> bool {
    &&& s.len() == 36
    &&& forall|i: int|
        0 <= i < 36 ==> if i == 8 || i == 13 || i == 18 || i == 23 {
            #[trigger] s[i] == '-'
        } else {
            is_lower_hex(s[i])
        }
    &&& s[14] == '4'
    &&& (s[19] == '8' || s[19] == '9' || s[19] == 'a' || s[19] == 'b')
}

/// Calls `uuid::Uuid::new_v4` and writes the UUID with `to_string`. The UUID is random; its
/// text is always the hyphenated lowercase form of a version 4 UUID. `new_v4` panics only
/// when the operating system's random source fails, which no input decides.
#[verifier::external_body]
fn new_uuid_text() -> (id: String)
    ensures
        is_v4_uuid_text(id@),
{
    uuid::Uuid::new_v4().to_string()
}

/// Calls `chrono::Utc::now` and takes its `timestamp`, the seconds since the Unix epoch.
/// The value depends on the clock; `Utc::now` panics for a clock before the epoch and only
/// builds times that chrono can represent, so the value lies between 0 and
/// `MAX_UTC_TIMESTAMP`.
#[verifier::external_body]
fn utc_timestamp_now() -> (t: i64)
    ensures
        0 <= t <= MAX_UTC_TIMESTAMP,
{
    chrono::Utc::now().timestamp()
}

/// The rooms after `player` joined the room `id`, unchanged when there is no such room.
pub open spec fn rooms_after_join(
    rooms: Map<Seq<char>, RoomRecord>,
    id: Seq<char>,
    player: Seq<char>,
) -> Map<Seq<char>, RoomRecord> {
    if rooms.contains_key(id) {
        rooms.insert(id, RoomRecord { players: rooms[id].players.push(player), ..rooms[id] })
    } else {
        rooms
    }
}

/// A room just opened by `player`.
pub open spec fn opened_record(id: Seq<char>, player: Seq<char>, created_at: i64) -> RoomRecord {
    RoomRecord { id, created_at, players: seq![player] }
}

/// Copies a list of strings.
fn copy_strings(v: &Vec<String>) -> (c: Vec<String>)
    ensures
        string_views(c@) == string_views(v@),
{
    let mut c: Vec<String> = Vec::new();
    let mut i: usize = 0;
    while i < v.len()
        invariant
            i <= v@.len(),
            c@.len() == i,
            string_views(c@) == string_views(v@).subrange(0, i as int),
        decreases v@.len() - i,
    {
        let ghost before = c@;
        let s = v[i].clone();
        c.push(s);
        assert(c@ == before.push(s));
        assert forall|j: int| 0 <= j < i + 1 implies #[trigger] string_views(c@)[j] == string_views(
            v@,
        )[j] by {
            if j < i {
                assert(c@[j] == before[j]);
                assert(string_views(before)[j] == string_views(v@).subrange(0, i as int)[j]);
            }
        }
        assert(string_views(c@) =~= string_views(v@).subrange(0, i + 1));
        i = i + 1;
    }
    assert(string_views(v@).subrange(0, v@.len() as int) =~= string_views(v@));
    c
}

impl RoomDirectory {
    /// The rooms by id.
    pub closed spec fn records(&self) -> Map<Seq<char>, RoomRecord> {
        self.rooms@.map_values(|r: Room| r@)
    }

    /// The directory's well-formedness: each room id is stored once, and each room is
    /// stored under its own id.
    pub closed spec fn wf(&self) -> bool {
        &&& self.rooms.wf()
        &&& forall|k: Seq<char>| #[trigger] self.rooms@.contains_key(k) ==> self.rooms@[k].id@ == k
    }

    /// The directory's rooms are each stored under their own id.
    pub proof fn lemma_rooms_keyed_by_id(&self)
        requires
            self.wf(),
        ensures
            forall|k: Seq<char>| #[trigger] self@.contains_key(k) ==> self@[k].id == k,
    {
    }

    /// Whether there is a room `room_id`.
    pub fn contains_room(&self, room_id: &String) -> (b: bool)
        requires
            self.wf(),
        ensures
            b == self@.contains_key(room_id@),
    {
        self.rooms.contains_key(room_id)
    }

    /// A directory without rooms.
    pub fn new() -> (d: Self)
        ensures
            d.wf(),
            d@ == Map::<Seq<char>, RoomRecord>::empty(),
    {
        let d = RoomDirectory { rooms: StrMap::new() };
        assert(d@ =~= Map::<Seq<char>, RoomRecord>::empty());
        d
    }

    /// Opens the room `room_id` at `created_at` with `player_id` as its only player, in
    /// place of any room of that id, and issues the player's claims at Unix second `now`.
    pub fn open_room(&mut self, room_id: String, player_id: String, created_at: i64, now: i64) -> (claims:
        Claims)
        requires
            old(self).wf(),
            now <= i64::MAX - ROOM_EXPIRY_SECONDS,
        ensures
            final(self).wf(),
            final(self)@ == old(self)@.insert(
                room_id@,
                opened_record(room_id@, player_id@, created_at),
            ),
            claims@ == (ClaimsView {
                room_id: room_id@,
                player_id: player_id@,
                exp: token_expiry(now),
            }),
    {
        let mut players: Vec<String> = Vec::new();
        players.push(player_id.clone());
        let room = Room { id: room_id.clone(), created_at, players };
        proof {
            assert(string_views(room.players@) =~= seq![player_id@]);
        }
        self.rooms.insert(room_id.clone(), room);
        proof {
            assert(self@ =~= old(self)@.insert(room_id@, room@));
        }
        Claims { room_id, player_id, exp: (now + ROOM_EXPIRY_SECONDS) as usize }
    }

    /// Creates a room with a fresh random id for a fresh random player and issues the
    /// player's claims, timed by one reading of the system clock: the token expires
    /// `ROOM_EXPIRY_SECONDS` after the room's creation.
    pub fn create_room(&mut self) -> (claims: Claims)
        requires
            old(self).wf(),
        ensures
            final(self).wf(),
            is_v4_uuid_text(claims.room_id@),
            is_v4_uuid_text(claims.player_id@),
            exists|created_at: i64, now: i64|
                0 <= created_at <= MAX_UTC_TIMESTAMP && 0 <= now <= MAX_UTC_TIMESTAMP && claims@.exp
                    == token_expiry(now) && final(self)@ == old(self)@.insert(
                    claims.room_id@,
                    opened_record(claims.room_id@, claims.player_id@, created_at),
                ),
            final(self)@.contains_key(claims.room_id@),
            final(self)@[claims.room_id@].players == seq![claims.player_id@],
            0 <= final(self)@[claims.room_id@].created_at <= MAX_UTC_TIMESTAMP,
            claims@.exp == (final(self)@[claims.room_id@].created_at + ROOM_EXPIRY_SECONDS) as usize,
    {
        let room_id = new_uuid_text();
        let player_id = new_uuid_text();
        let created_at = utc_timestamp_now();
        self.open_room(room_id, player_id, created_at, created_at)
    }

    /// Adds `player_id` as the last player of the room `room_id` and issues the player's
    /// claims at Unix second `now`. The room must exist.
    pub fn admit_player(&mut self, room_id: &String, player_id: String, now: i64) -> (claims: Claims)
        requires
            old(self).wf(),
            old(self)@.contains_key(room_id@),
            now <= i64::MAX - ROOM_EXPIRY_SECONDS,
        ensures
            final(self).wf(),
            final(self)@ == rooms_after_join(old(self)@, room_id@, player_id@),
            claims@ == (ClaimsView {
                room_id: room_id@,
                player_id: player_id@,
                exp: token_expiry(now),
            }),
    {
        let room = self.rooms.remove(room_id).unwrap();
        let mut room = room;
        let ghost r = room@;
        room.players.push(player_id.clone());
        proof {
            assert(string_views(room.players@) =~= r.players.push(player_id@));
        }
        self.rooms.insert(room_id.clone(), room);
        proof {
            assert(self@ =~= old(self)@.insert(room_id@, room@));
        }
        Claims { room_id: room_id.clone(), player_id, exp: (now + ROOM_EXPIRY_SECONDS) as usize }
    }

    /// Lets a fresh random player join the room `room_id`, timed by the system clock. The
    /// room must exist.
    pub fn join_room(&mut self, room_id: &String) -> (claims: Claims)
        requires
            old(self).wf(),
            old(self)@.contains_key(room_id@),
        ensures
            final(self).wf(),
            claims.room_id@ == room_id@,
            is_v4_uuid_text(claims.player_id@),
            final(self)@ == rooms_after_join(old(self)@, room_id@, claims.player_id@),
            exists|now: i64| 0 <= now <= MAX_UTC_TIMESTAMP && claims@.exp == token_expiry(now),
    {
        let player_id = new_uuid_text();
        let now = utc_timestamp_now();
        self.admit_player(room_id, player_id, now)
    }

    /// The ids of all rooms, each once.
    pub fn list_rooms(&self) -> (ids: Vec<String>)
        requires
            self.wf(),
        ensures
            lists_keys_once(string_views(ids@), self@),
    {
        let ids = self.rooms.keys();
        proof {
            assert forall|k: Seq<char>| #[trigger]
                string_views(ids@).contains(k) <==> self@.contains_key(k) by {}
        }
        ids
    }

    /// The id, players and creation time of the room `room_id`. The room must exist.
    pub fn room_status(&self, room_id: &String) -> (status: RoomStatus)
        requires
            self.wf(),
            self@.contains_key(room_id@),
        ensures
            status.room_id@ == room_id@,
            status.room_id@ == self@[room_id@].id,
            string_views(status.players@) == self@[room_id@].players,
            status.created_at == self@[room_id@].created_at,
    {
        let room = self.rooms.get(room_id).unwrap();
        RoomStatus {
            room_id: room.id.clone(),
            players: copy_strings(&room.players),
            created_at: room.created_at,
        }
    }

    /// Forgets the room `room_id`, if there is one.
    pub fn cleanup_room(&mut self, room_id: &String)
        requires
            old(self).wf(),
        ensures
            final(self).wf(),
            final(self)@ == old(self)@.remove(room_id@),
    {
        self.rooms.remove(room_id);
        proof {
            assert(self@ =~= old(self)@.remove(room_id@));
        }
    }
}

impl View for RoomDirectory {
    type V = Map<Seq<char>, RoomRecord>;

    open spec fn view(&self) -> Map<Seq<char>, RoomRecord> {
        self.records()
    }
}

/// A token issued at Unix second `t` expires exactly `ROOM_EXPIRY_SECONDS` later, for
/// every time that the clock can give and that fits the expiry's type.
pub proof fn lemma_token_expires_after_room_expiry(t: i64)
    requires
        0 <= t,
        t + ROOM_EXPIRY_SECONDS <= usize::MAX,
    ensures
        token_expiry(t) as int == t + 600,
{
}

/// A player who joins a room is its last player, after every player who was there
/// before; the other rooms do not change.
pub proof fn lemma_join_appends_player(
    rooms: Map<Seq<char>, RoomRecord>,
    id: Seq<char>,
    player: Seq<char>,
)
    requires
        rooms.contains_key(id),
    ensures
        rooms_after_join(rooms, id, player)[id].players == rooms[id].players.push(player),
        rooms_after_join(rooms, id, player)[id].id == rooms[id].id,
        rooms_after_join(rooms, id, player)[id].created_at == rooms[id].created_at,
        forall|other: Seq<char>|
            other != id ==> #[trigger] rooms_after_join(rooms, id, player).contains_key(other)
                == rooms.contains_key(other) && rooms_after_join(rooms, id, player)[other]
                == rooms[other],
{
}

/// A room that was just opened lists its opener as its only player, and joining it
/// afterwards lists the opener first and the newcomer second.
pub proof fn lemma_open_then_join(
    rooms: Map<Seq<char>, RoomRecord>,
    id: Seq<char>,
    host: Seq<char>,
    guest: Seq<char>,
    created_at: i64,
)
    ensures
        rooms_after_join(rooms.insert(id, opened_record(id, host, created_at)), id, guest)[id].players
            == seq![host, guest],
{
    assert(seq![host].push(guest) =~= seq![host, guest]);
}

} // verus!
