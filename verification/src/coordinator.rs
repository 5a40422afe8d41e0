use vstd::prelude::*;

use crate::clock::{elapsed_secs, secs_between};
use crate::json::{
    encode_string, encode_string_array, json_array_text, lemma_plain_text_unescaped, plain_text,
    quoted,
};
use crate::str_map::{lemma_push_contains, lists_keys_once, string_views, StrMap};

verus! {

/// A peer is dropped from its room once it has been silent for longer than this.
pub const PEER_INACTIVITY_TIMEOUT_SECS: u64 = 60;

/// A room whose host is gone is closed once the host has been silent for longer than this.
pub const HOST_TIMEOUT_SECS: u64 = 30;

/// A room is closed once nobody has registered in it for longer than this.
pub const ROOM_IDLE_TIMEOUT_SECS: u64 = 60;

/// How often the coordinator sweeps its rooms.
pub const CHECK_ROOMS_INTERVAL_SECS: u64 = 5;

/// One room: its host's address, the last activity of each registered peer, and the
/// last activity of the room and of its host, all as monotonic nanoseconds.
pub struct RoomInfo {
    pub host: String,
    pub peers: StrMap<u64>,
    pub last_room_activity: u64,
    pub last_host_activity: u64,
}

/// A room as a mathematical value.
pub struct RoomView {
    pub host: Seq<char>,
    pub peers: Map<Seq<char>, u64>,
    pub last_room_activity: u64,
    pub last_host_activity: u64,
}

impl View for RoomInfo {
    type V = RoomView;

    open spec fn view(&self) -> RoomView {
        RoomView {
            host: self.host@,
            peers: self.peers@,
            last_room_activity: self.last_room_activity,
            last_host_activity: self.last_host_activity,
        }
    }
}

/// The rooms of a coordinator, by invite code.
pub struct Coordinator {
    rooms: StrMap<RoomInfo>,
}

/// A registration request: `invite_code,addr` with an optional third field that asks
/// for a new room when it reads `true`.
pub struct Registration {
    pub invite_code: String,
    pub addr: String,
    pub new_room: bool,
}

/// A registration request as a mathematical value.
pub struct RegistrationView {
    pub invite_code: Seq<char>,
    pub addr: Seq<char>,
    pub new_room: bool,
}

impl View for Registration {
    type V = RegistrationView;

    open spec fn view(&self) -> RegistrationView {
        RegistrationView {
            invite_code: self.invite_code@,
            addr: self.addr@,
            new_room: self.new_room,
        }
    }
}

/// The coordinator's answer to a registration.
pub enum RegistrationReply {
    /// The addresses of the other peers of the room.
    KnownPeers(Vec<String>),
    /// The room does not exist and was not to be created.
    RoomClosed,
}

/// The answer to a registration as a mathematical value: the set of the other peers.
pub enum ReplyView {
    KnownPeers(Set<Seq<char>>),
    RoomClosed,
}

/// `reply` lists each peer of `expected` exactly once, or is the same refusal.
pub open spec fn reply_shows(reply: RegistrationReply, expected: ReplyView) -> bool {
    match (reply, expected) {
        (RegistrationReply::KnownPeers(v), ReplyView::KnownPeers(s)) => {
            &&& string_views(v@).no_duplicates()
            &&& forall|a: Seq<char>| #[trigger] string_views(v@).contains(a) <==> s.contains(a)
        },
        (RegistrationReply::RoomClosed, ReplyView::RoomClosed) => true,
        _ => false,
    }
}

/// The word that a refused registration is answered with, as a JSON string.
pub open spec fn room_closed_word() -> Seq<char> {
    seq!['r', 'o', 'o', 'm', '_', 'c', 'l', 'o', 's', 'e', 'd']
}

/// The first comma of `s` at or after `from`, or the length of `s` when there is none.
pub open spec fn comma_from(s: Seq<char>, from: int) -> int
    decreases s.len() - from,
{
    if from >= s.len() {
        s.len() as int
    } else if s[from] == ',' {
        from
    } else {
        comma_from(s, from + 1)
    }
}

/// The request split at its commas: the first field is the invite code, the second the
/// address, and a third field that reads `true` asks for a new room. A request without a
/// comma names no address.
pub open spec fn parsed_registration(s: Seq<char>) -> Option<RegistrationView> {
    let c1 = comma_from(s, 0);
    if c1 >= s.len() {
        None
    } else {
        let c2 = comma_from(s, c1 + 1);
        Some(
            RegistrationView {
                invite_code: s.subrange(0, c1),
                addr: s.subrange(c1 + 1, c2),
                new_room: c2 < s.len() && s.subrange(c2 + 1, comma_from(s, c2 + 1)) == seq![
                    't',
                    'r',
                    'u',
                    'e',
                ],
            },
        )
    }
}

/// A room after `addr` registered in it at `now`.
pub open spec fn refreshed_room(r: RoomView, addr: Seq<char>, now: u64) -> RoomView {
    RoomView {
        host: r.host,
        peers: r.peers.insert(addr, now),
        last_room_activity: now,
        last_host_activity: if r.host == addr {
            now
        } else {
            r.last_host_activity
        },
    }
}

/// A room that `addr` opened at `now`, with `addr` as host and only peer.
pub open spec fn opened_room(addr: Seq<char>, now: u64) -> RoomView {
    RoomView {
        host: addr,
        peers: Map::<Seq<char>, u64>::empty().insert(addr, now),
        last_room_activity: now,
        last_host_activity: now,
    }
}

/// The rooms after a registration at `now`.
pub open spec fn rooms_after_registration(
    rooms: Map<Seq<char>, RoomView>,
    req: RegistrationView,
    now: u64,
) -> Map<Seq<char>, RoomView> {
    if rooms.contains_key(req.invite_code) {
        rooms.insert(req.invite_code, refreshed_room(rooms[req.invite_code], req.addr, now))
    } else if req.new_room {
        rooms.insert(req.invite_code, opened_room(req.addr, now))
    } else {
        rooms
    }
}

/// The answer to a registration: the room's other peers, none for a room just opened,
/// and a refusal when the room does not exist and was not to be opened.
pub open spec fn registration_reply(
    rooms: Map<Seq<char>, RoomView>,
    req: RegistrationView,
) -> ReplyView {
    if rooms.contains_key(req.invite_code) {
        ReplyView::KnownPeers(rooms[req.invite_code].peers.dom().remove(req.addr))
    } else if req.new_room {
        ReplyView::KnownPeers(Set::empty())
    } else {
        ReplyView::RoomClosed
    }
}

/// A peer last seen at `last_seen` is stale at `now`.
pub open spec fn peer_is_stale(last_seen: u64, now: u64) -> bool {
    secs_between(now, last_seen) > PEER_INACTIVITY_TIMEOUT_SECS
}

/// The peers that are not stale at `now`.
pub open spec fn active_peers(peers: Map<Seq<char>, u64>, now: u64) -> Map<Seq<char>, u64> {
    Map::new(|a: Seq<char>| peers.contains_key(a) && !peer_is_stale(peers[a], now), |a: Seq<char>| peers[a])
}

/// A room with its stale peers dropped.
pub open spec fn pruned_room(r: RoomView, now: u64) -> RoomView {
    RoomView { peers: active_peers(r.peers, now), ..r }
}

/// Whether a sweep at `now` closes the room: when its host is no longer among its active
/// peers, after the host's own timeout; otherwise after the room's idle timeout.
pub open spec fn room_expired(r: RoomView, now: u64) -> bool {
    if !active_peers(r.peers, now).contains_key(r.host) {
        secs_between(now, r.last_host_activity) > HOST_TIMEOUT_SECS
    } else {
        secs_between(now, r.last_room_activity) > ROOM_IDLE_TIMEOUT_SECS
    }
}

/// The rooms that a sweep at `now` keeps, each with its stale peers dropped.
pub open spec fn rooms_after_sweep(rooms: Map<Seq<char>, RoomView>, now: u64) -> Map<
    Seq<char>,
    RoomView,
> {
    Map::new(
        |c: Seq<char>| rooms.contains_key(c) && !room_expired(rooms[c], now),
        |c: Seq<char>| pruned_room(rooms[c], now),
    )
}

/// Whether the first `n` items of `s` contain `x`.
pub open spec fn seen_before(s: Seq<Seq<char>>, n: int, x: Seq<char>) -> bool {
    s.subrange(0, n).contains(x)
}

proof fn lemma_seen_before_step(s: Seq<Seq<char>>, n: int, x: Seq<char>)
    requires
        0 <= n < s.len(),
    ensures
        seen_before(s, n + 1, x) == (seen_before(s, n, x) || x == s[n]),
{
    let p = s.subrange(0, n + 1);
    let q = s.subrange(0, n);
    assert(p =~= q.push(s[n]));
    if seen_before(s, n, x) {
        let j = choose|j: int| 0 <= j < q.len() && q[j] == x;
        assert(p[j] == x);
    }
    if x == s[n] {
        assert(p[n] == x);
    }
    if seen_before(s, n + 1, x) {
        let j = choose|j: int| 0 <= j < p.len() && p[j] == x;
        if j < n {
            assert(q[j] == x);
        }
    }
}

proof fn lemma_seen_before_all(s: Seq<Seq<char>>, x: Seq<char>)
    ensures
        seen_before(s, s.len() as int, x) == s.contains(x),
{
    assert(s.subrange(0, s.len() as int) =~= s);
}

/// The position of the first comma of `s` at or after `from`, or the length of `s`.
fn find_comma(s: &str, len: usize, from: usize) -> (r: usize)
    requires
        len == s@.len(),
        from <= len,
    ensures
        r == comma_from(s@, from as int),
        from <= r <= len,
{
    let mut i = from;
    while i < len
        invariant
            from <= i <= len,
            len == s@.len(),
            comma_from(s@, i as int) == comma_from(s@, from as int),
        decreases len - i,
    {
        if s.get_char(i) == ',' {
            return i;
        }
        i = i + 1;
    }
    i
}

/// Whether `s` is the word `true`.
fn is_true_word(s: &str) -> (b: bool)
    ensures
        b == (s@ == seq!['t', 'r', 'u', 'e']),
{
    let n = s.unicode_len();
    if n != 4 {
        return false;
    }
    let r = s.get_char(0) == 't' && s.get_char(1) == 'r' && s.get_char(2) == 'u' && s.get_char(3)
        == 'e';
    proof {
        if r {
            assert(s@ =~= seq!['t', 'r', 'u', 'e']);
        }
    }
    r
}

/// Splits a registration request at its commas; `None` when it has no comma and so
/// names no address.
pub fn parse_registration(request: &str) -> (r: Option<Registration>)
    ensures
        match r {
            Some(reg) => parsed_registration(request@) == Some(reg@),
            None => parsed_registration(request@) is None,
        },
{
    let len = request.unicode_len();
    let c1 = find_comma(request, len, 0);
    if c1 >= len {
        return None;
    }
    let c2 = find_comma(request, len, c1 + 1);
    let invite_code = request.substring_char(0, c1).to_owned();
    let addr = request.substring_char(c1 + 1, c2).to_owned();
    let new_room = if c2 < len {
        let c3 = find_comma(request, len, c2 + 1);
        is_true_word(request.substring_char(c2 + 1, c3))
    } else {
        false
    };
    Some(Registration { invite_code, addr, new_room })
}

/// Drops the stale peers of a room.
fn prune_room(info: RoomInfo, now: u64) -> (r: RoomInfo)
    requires
        info.peers.wf(),
    ensures
        r.peers.wf(),
        r@ == pruned_room(info@, now),
{
    let mut info = info;
    let ghost orig = info@;
    let ghost old_peers = info.peers@;
    let addrs = info.peers.keys();
    let ghost av = string_views(addrs@);
    let mut i: usize = 0;
    while i < addrs.len()
        invariant
            i <= addrs@.len(),
            av == string_views(addrs@),
            lists_keys_once(av, old_peers),
            info.peers.wf(),
            info.host@ == orig.host,
            info.last_room_activity == orig.last_room_activity,
            info.last_host_activity == orig.last_host_activity,
            forall|a: Seq<char>| #[trigger]
                info.peers@.contains_key(a) <==> old_peers.contains_key(a) && !(seen_before(
                    av,
                    i as int,
                    a,
                ) && peer_is_stale(old_peers[a], now)),
            forall|a: Seq<char>| #[trigger]
                info.peers@.contains_key(a) ==> info.peers@[a] == old_peers[a],
        decreases addrs@.len() - i,
    {
        let addr = &addrs[i];
        proof {
            assert(av[i as int] == addr@);
            assert(av.contains(addr@));
            assert(!seen_before(av, i as int, addr@)) by {
                if seen_before(av, i as int, addr@) {
                    let j = choose|j: int| 0 <= j < i && av.subrange(0, i as int)[j] == addr@;
                    assert(av[j] == av[i as int]);
                }
            }
        }
        let last_seen = *info.peers.get(addr).unwrap();
        if elapsed_secs(now, last_seen) > PEER_INACTIVITY_TIMEOUT_SECS {
            info.peers.remove(addr);
        }
        proof {
            assert forall|a: Seq<char>| #[trigger] seen_before(av, i + 1, a) == (seen_before(
                av,
                i as int,
                a,
            ) || a == av[i as int]) by {
                lemma_seen_before_step(av, i as int, a);
            }
        }
        i = i + 1;
    }
    proof {
        assert forall|a: Seq<char>| old_peers.contains_key(a) implies seen_before(
            av,
            addrs@.len() as int,
            a,
        ) by {
            lemma_seen_before_all(av, a);
        }
        assert(info.peers@ =~= active_peers(old_peers, now));
    }
    info
}

/// Whether a sweep at `now` closes a room whose stale peers are already dropped.
fn closes(info: &RoomInfo, now: u64) -> (b: bool)
    requires
        info.peers.wf(),
    ensures
        b == if !info.peers@.contains_key(info.host@) {
            secs_between(now, info.last_host_activity) > HOST_TIMEOUT_SECS
        } else {
            secs_between(now, info.last_room_activity) > ROOM_IDLE_TIMEOUT_SECS
        },
{
    if !info.peers.contains_key(&info.host) {
        elapsed_secs(now, info.last_host_activity) > HOST_TIMEOUT_SECS
    } else {
        elapsed_secs(now, info.last_room_activity) > ROOM_IDLE_TIMEOUT_SECS
    }
}

impl Coordinator {
    /// The rooms by invite code.
    pub closed spec fn rooms_view(&self) -> Map<Seq<char>, RoomView> {
        self.rooms@.map_values(|r: RoomInfo| r@)
    }

    /// The coordinator's well-formedness: its tables keep each key once.
    pub closed spec fn wf(&self) -> bool {
        &&& self.rooms.wf()
        &&& forall|c: Seq<char>| #[trigger] self.rooms@.contains_key(c) ==> self.rooms@[c].peers.wf()
    }

    /// A coordinator without rooms.
    pub fn new() -> (c: Self)
        ensures
            c.wf(),
            c@ == Map::<Seq<char>, RoomView>::empty(),
    {
        let c = Coordinator { rooms: StrMap::new() };
        assert(c@ =~= Map::<Seq<char>, RoomView>::empty());
        c
    }

    /// Registers `addr` in the room `invite_code` at `now`: refreshes its activity in an
    /// existing room and answers with the room's other peers; opens the room with `addr`
    /// as host when it does not exist and `new_room` asks for it; refuses otherwise.
    pub fn register(&mut self, invite_code: String, addr: String, new_room: bool, now: u64) -> (reply:
        RegistrationReply)
        requires
            old(self).wf(),
        ensures
            final(self).wf(),
            final(self)@ == rooms_after_registration(
                old(self)@,
                RegistrationView { invite_code: invite_code@, addr: addr@, new_room },
                now,
            ),
            reply_shows(
                reply,
                registration_reply(
                    old(self)@,
                    RegistrationView { invite_code: invite_code@, addr: addr@, new_room },
                ),
            ),
            old(self)@.contains_key(invite_code@) ==> {
                &&& final(self)@.contains_key(invite_code@)
                &&& final(self)@[invite_code@].host == old(self)@[invite_code@].host
                &&& final(self)@[invite_code@].peers == old(self)@[invite_code@].peers.insert(
                    addr@,
                    now,
                )
                &&& final(self)@[invite_code@].last_room_activity == now
                &&& reply matches RegistrationReply::KnownPeers(v) && forall|a: Seq<char>|
                    #[trigger] string_views(v@).contains(a) <==> (old(
                        self,
                    )@[invite_code@].peers.contains_key(a) && a != addr@)
            },
            !old(self)@.contains_key(invite_code@) && new_room ==> {
                &&& final(self)@.contains_key(invite_code@)
                &&& final(self)@[invite_code@].host == addr@
                &&& final(self)@[invite_code@].peers == Map::<Seq<char>, u64>::empty().insert(
                    addr@,
                    now,
                )
                &&& reply matches RegistrationReply::KnownPeers(v) && v@.len() == 0
            },
            !old(self)@.contains_key(invite_code@) && !new_room ==> final(self)@ == old(self)@
                && reply is RoomClosed,
            forall|c: Seq<char>|
                c != invite_code@ ==> #[trigger] final(self)@.contains_key(c) == old(
                    self,
                )@.contains_key(c) && (old(self)@.contains_key(c) ==> final(self)@[c] == old(
                    self,
                )@[c]),
    {
        let ghost req = RegistrationView { invite_code: invite_code@, addr: addr@, new_room };
        let ghost before = self.rooms@;
        match self.rooms.remove(&invite_code) {
            Some(info) => {
                let mut info = info;
                let ghost r = info@;
                info.peers.insert(addr.clone(), now);
                info.last_room_activity = now;
                if info.host == addr {
                    info.last_host_activity = now;
                }
                let known = info.peers.keys_except(Some(&addr));
                proof {
                    assert(info@ == refreshed_room(r, addr@, now));
                    assert(r.peers.insert(addr@, now).dom().remove(addr@) =~= r.peers.dom().remove(
                        addr@,
                    ));
                }
                self.rooms.insert(invite_code, info);
                proof {
                    assert(self.rooms@ =~= before.insert(req.invite_code, info));
                    assert(self@ =~= old(self)@.insert(req.invite_code, info@));
                }
                RegistrationReply::KnownPeers(known)
            },
            None => {
                if new_room {
                    let mut peers = StrMap::new();
                    peers.insert(addr.clone(), now);
                    let info = RoomInfo {
                        host: addr,
                        peers,
                        last_room_activity: now,
                        last_host_activity: now,
                    };
                    self.rooms.insert(invite_code, info);
                    proof {
                        assert(info@ == opened_room(req.addr, now));
                        assert(self.rooms@ =~= before.insert(req.invite_code, info));
                        assert(self@ =~= old(self)@.insert(req.invite_code, info@));
                    }
                    let known: Vec<String> = Vec::new();
                    proof {
                        assert(string_views(known@) =~= Seq::<Seq<char>>::empty());
                    }
                    RegistrationReply::KnownPeers(known)
                } else {
                    proof {
                        assert(self.rooms@ =~= before);
                    }
                    RegistrationReply::RoomClosed
                }
            },
        }
    }

    /// Closes the rooms that have expired at `now` and drops the stale peers of the others;
    /// hands back the invite codes of the closed rooms, each once.
    pub fn sweep(&mut self, now: u64) -> (closed: Vec<String>)
        requires
            old(self).wf(),
        ensures
            final(self).wf(),
            final(self)@ == rooms_after_sweep(old(self)@, now),
            string_views(closed@).no_duplicates(),
            forall|c: Seq<char>| #[trigger]
                string_views(closed@).contains(c) <==> (old(self)@.contains_key(c) && room_expired(
                    old(self)@[c],
                    now,
                )),
    {
        let ghost start = self@;
        let codes = self.rooms.keys();
        let ghost cv = string_views(codes@);
        let mut closed: Vec<String> = Vec::new();
        let mut i: usize = 0;
        while i < codes.len()
            invariant
                i <= codes@.len(),
                cv == string_views(codes@),
                lists_keys_once(cv, start),
                self.wf(),
                forall|c: Seq<char>| #[trigger]
                    self@.contains_key(c) <==> start.contains_key(c) && !(seen_before(
                        cv,
                        i as int,
                        c,
                    ) && room_expired(start[c], now)),
                forall|c: Seq<char>| #[trigger]
                    self@.contains_key(c) ==> self@[c] == if seen_before(cv, i as int, c) {
                        pruned_room(start[c], now)
                    } else {
                        start[c]
                    },
                string_views(closed@).no_duplicates(),
                forall|c: Seq<char>| #[trigger]
                    string_views(closed@).contains(c) <==> (start.contains_key(c) && seen_before(
                        cv,
                        i as int,
                        c,
                    ) && room_expired(start[c], now)),
            decreases codes@.len() - i,
        {
            let code = &codes[i];
            proof {
                assert(cv[i as int] == code@);
                assert(cv.contains(code@));
                assert(!seen_before(cv, i as int, code@)) by {
                    if seen_before(cv, i as int, code@) {
                        let j = choose|j: int| 0 <= j < i && cv.subrange(0, i as int)[j] == code@;
                        assert(cv[j] == cv[i as int]);
                    }
                }
                assert(self@.contains_key(code@));
                assert(self.rooms@.contains_key(code@));
            }
            let ghost rooms_before = self.rooms@;
            let ghost view_before = self@;
            let ghost closed_before = string_views(closed@);
            let info = self.rooms.remove(code).unwrap();
            let info = prune_room(info, now);
            proof {
                assert(info@ == pruned_room(start[code@], now));
            }
            if closes(&info, now) {
                closed.push(code.clone());
                proof {
                    assert(string_views(closed@) =~= closed_before.push(code@));
                    lemma_push_contains(closed_before, code@);
                    assert(self@ =~= view_before.remove(code@));
                }
            } else {
                self.rooms.insert(code.clone(), info);
                proof {
                    assert(self@ =~= view_before.insert(code@, info@));
                }
            }
            proof {
                assert forall|c: Seq<char>| #[trigger] seen_before(cv, i + 1, c) == (seen_before(
                    cv,
                    i as int,
                    c,
                ) || c == cv[i as int]) by {
                    lemma_seen_before_step(cv, i as int, c);
                }
            }
            i = i + 1;
        }
        proof {
            assert forall|c: Seq<char>| start.contains_key(c) implies seen_before(
                cv,
                codes@.len() as int,
                c,
            ) by {
                lemma_seen_before_all(cv, c);
            }
            assert(self@ =~= rooms_after_sweep(start, now));
        }
        closed
    }

    /// Answers a registration request at `now`: splits it, registers the peer, and writes
    /// the answer as JSON. The request must name an address, that is, hold a comma.
    pub fn handle_request(&mut self, request: &str, now: u64) -> (response: String)
        requires
            old(self).wf(),
            parsed_registration(request@) is Some,
        ensures
            final(self).wf(),
            final(self)@ == rooms_after_registration(
                old(self)@,
                parsed_registration(request@)->0,
                now,
            ),
            answers_with(
                response@,
                registration_reply(old(self)@, parsed_registration(request@)->0),
            ),
    {
        let reg = parse_registration(request).unwrap();
        let reply = self.register(reg.invite_code, reg.addr, reg.new_room, now);
        reply.to_json()
    }
}

/// `text` is the JSON that answers with `expected`: a list that holds each peer once,
/// or the refusal word.
pub open spec fn answers_with(text: Seq<char>, expected: ReplyView) -> bool {
    match expected {
        ReplyView::KnownPeers(s) => exists|list: Seq<Seq<char>>|
            {
                &&& list.no_duplicates()
                &&& (forall|a: Seq<char>| #[trigger] list.contains(a) <==> s.contains(a))
                &&& text == json_array_text(list)
            },
        ReplyView::RoomClosed => text == quoted(room_closed_word()),
    }
}

impl RegistrationReply {
    /// The answer as JSON: the list of addresses, or the refusal word as a JSON string.
    pub fn to_json(&self) -> (json: String)
        ensures
            match self {
                RegistrationReply::KnownPeers(v) => json@ == json_array_text(string_views(v@)),
                RegistrationReply::RoomClosed => json@ == quoted(room_closed_word()),
            },
            forall|expected: ReplyView| reply_shows(*self, expected) ==> answers_with(json@, expected),
    {
        match self {
            RegistrationReply::KnownPeers(v) => encode_string_array(v),
            RegistrationReply::RoomClosed => {
                let word = "room_closed";
                proof {
                    reveal_strlit("room_closed");
                    assert(word@ =~= room_closed_word());
                    assert(plain_text(room_closed_word()));
                    lemma_plain_text_unescaped(room_closed_word());
                }
                encode_string(word)
            },
        }
    }
}

/// Sweeping twice at the same instant closes nothing more and drops no further peer.
pub proof fn lemma_sweep_idempotent(rooms: Map<Seq<char>, RoomView>, now: u64)
    ensures
        rooms_after_sweep(rooms_after_sweep(rooms, now), now) == rooms_after_sweep(rooms, now),
{
    let once = rooms_after_sweep(rooms, now);
    assert forall|c: Seq<char>| #[trigger] once.contains_key(c) implies !room_expired(once[c], now)
        && pruned_room(once[c], now) == once[c] by {
        assert(active_peers(active_peers(rooms[c].peers, now), now) =~= active_peers(
            rooms[c].peers,
            now,
        ));
    }
    assert(rooms_after_sweep(once, now) =~= once);
}

/// After a sweep, no open room lists a peer that is stale at the sweep's instant, and
/// every open room was open before.
pub proof fn lemma_sweep_leaves_no_stale_peer(rooms: Map<Seq<char>, RoomView>, now: u64)
    ensures
        forall|c: Seq<char>, a: Seq<char>|
            #[trigger] rooms_after_sweep(rooms, now).contains_key(c) && #[trigger] rooms_after_sweep(
                rooms,
                now,
            )[c].peers.contains_key(a) ==> !peer_is_stale(
                rooms_after_sweep(rooms, now)[c].peers[a],
                now,
            ),
        forall|c: Seq<char>| #[trigger]
            rooms_after_sweep(rooms, now).contains_key(c) ==> rooms.contains_key(c),
{
}

/// Once `a` is registered in a room, another peer `b` registering in the same room is
/// told about `a`.
pub proof fn lemma_registered_peer_is_announced(
    rooms: Map<Seq<char>, RoomView>,
    first: RegistrationView,
    second: RegistrationView,
    t: u64,
)
    requires
        rooms.contains_key(first.invite_code) || first.new_room,
        second.invite_code == first.invite_code,
        second.addr != first.addr,
    ensures
        registration_reply(rooms_after_registration(rooms, first, t), second) matches ReplyView::KnownPeers(
            others,
        ) && others.contains(first.addr),
{
}

/// A registration in a room that exists keeps the room's host and all its peers and adds
/// the requester with the registration's time, whether or not it asks for a new room;
/// the answer lists the room's other peers.
pub proof fn lemma_existing_room_keeps_host_and_peers(
    rooms: Map<Seq<char>, RoomView>,
    req: RegistrationView,
    now: u64,
)
    requires
        rooms.contains_key(req.invite_code),
    ensures
        rooms_after_registration(rooms, req, now).contains_key(req.invite_code),
        rooms_after_registration(rooms, req, now)[req.invite_code].host
            == rooms[req.invite_code].host,
        rooms_after_registration(rooms, req, now)[req.invite_code].peers
            == rooms[req.invite_code].peers.insert(req.addr, now),
        forall|a: Seq<char>|
            #[trigger] rooms[req.invite_code].peers.contains_key(a) ==> rooms_after_registration(
                rooms,
                req,
                now,
            )[req.invite_code].peers.contains_key(a),
        registration_reply(rooms, req) matches ReplyView::KnownPeers(others) && forall|a: Seq<char>|
            #[trigger] others.contains(a) <==> (rooms[req.invite_code].peers.contains_key(a) && a
                != req.addr),
{
}

/// Sending the same registration twice at the same instant leaves the rooms as one
/// registration does.
pub proof fn lemma_registration_idempotent(
    rooms: Map<Seq<char>, RoomView>,
    req: RegistrationView,
    t: u64,
)
    ensures
        rooms_after_registration(rooms_after_registration(rooms, req, t), req, t)
            == rooms_after_registration(rooms, req, t),
{
    let once = rooms_after_registration(rooms, req, t);
    if once.contains_key(req.invite_code) {
        let r = once[req.invite_code];
        assert(r.peers.contains_key(req.addr) && r.peers[req.addr] == t);
        assert(r.peers.insert(req.addr, t) =~= r.peers);
        assert(refreshed_room(r, req.addr, t) == r);
        assert(once.insert(req.invite_code, r) =~= once);
    }
}

/// A room whose host registered at `t` is still open at a sweep no later than the peer
/// inactivity timeout after `t`, and it still lists its host.
pub proof fn lemma_recent_host_keeps_room_open(
    rooms: Map<Seq<char>, RoomView>,
    req: RegistrationView,
    t: u64,
    later: u64,
)
    requires
        rooms.contains_key(req.invite_code) ==> rooms[req.invite_code].host == req.addr,
        rooms.contains_key(req.invite_code) || req.new_room,
        secs_between(later, t) <= PEER_INACTIVITY_TIMEOUT_SECS,
    ensures
        rooms_after_sweep(rooms_after_registration(rooms, req, t), later).contains_key(
            req.invite_code,
        ),
        rooms_after_sweep(rooms_after_registration(rooms, req, t), later)[req.invite_code].peers.contains_key(
            req.addr,
        ),
{
    let r = rooms_after_registration(rooms, req, t)[req.invite_code];
    assert(r.peers.contains_key(req.addr) && r.peers[req.addr] == t);
    assert(active_peers(r.peers, later).contains_key(req.addr));
}

/// A peer that registered at `t` is still listed in its room at a sweep no later than the
/// peer inactivity timeout after `t`, as long as the room stays open.
pub proof fn lemma_recent_peer_survives_sweep(
    rooms: Map<Seq<char>, RoomView>,
    req: RegistrationView,
    t: u64,
    later: u64,
)
    requires
        rooms.contains_key(req.invite_code) || req.new_room,
        secs_between(later, t) <= PEER_INACTIVITY_TIMEOUT_SECS,
    ensures
        rooms_after_sweep(rooms_after_registration(rooms, req, t), later).contains_key(
            req.invite_code,
        ) ==> rooms_after_sweep(
            rooms_after_registration(rooms, req, t),
            later,
        )[req.invite_code].peers.contains_key(req.addr),
{
    let r = rooms_after_registration(rooms, req, t)[req.invite_code];
    assert(r.peers.contains_key(req.addr) && r.peers[req.addr] == t);
    assert(active_peers(r.peers, later).contains_key(req.addr));
}

impl View for Coordinator {
    type V = Map<Seq<char>, RoomView>;

    open spec fn view(&self) -> Map<Seq<char>, RoomView> {
        self.rooms_view()
    }
}

} // verus!
