use vstd::prelude::*;

use crate::clock::{elapsed_nanos, nanos_between, NANOS_PER_SEC};
use crate::coordinator::{comma_from, parsed_registration, room_closed_word, RegistrationView};
use crate::crypto::{
    aes256_gcm_open, aes256_gcm_opened, aes256_gcm_seal, aes256_gcm_sealed, hkdf_sha256,
    hkdf_sha256_no_salt, random_bytes, KEY_SIZE, MAX_PLAINTEXT_LEN, NONCE_SIZE, TAG_SIZE,
};
use crate::json::{json_array_text, json_string_array_parse, parse_string_array, quoted};
use crate::str_map::{lemma_push_contains, string_views, StrMap};

verus! {

/// How often a peer sends a heartbeat to the others.
pub const HEARTBEAT_INTERVAL_SECS: u64 = 5;

/// A peer that has heard no heartbeat for longer than this tries to punch through again.
pub const HEARTBEAT_TIMEOUT_SECS: u64 = 30;

/// How often a peer checks for a heartbeat timeout.
pub const HEARTBEAT_CHECK_INTERVAL_SECS: u64 = 2;

/// How often a peer asks the coordinator for the room's peers.
pub const PEERS_LIST_REFRESH_INTERVAL_SECS: u64 = 2;

/// How many re-punch messages a peer sends after a heartbeat timeout.
pub const RE_PUNCH_ATTEMPTS: u32 = 5;

/// The pause between two re-punch messages.
pub const RE_PUNCH_PAUSE_SECS: u64 = 1;

/// The kind of a game packet.
pub enum PacketType {
    Move,
    Chat,
    Action,
}

/// A game message between peers.
pub struct GamePacket {
    pub packet_type: PacketType,
    pub payload: String,
    pub sender: String,
}

/// The tag that a received game packet is shown with.
pub open spec fn packet_tag(t: PacketType) -> Seq<char> {
    match t {
        PacketType::Move => seq!['[', 'M', 'O', 'V', 'E', ']', ' '],
        PacketType::Chat => seq!['[', 'C', 'H', 'A', 'T', ']', ' '],
        PacketType::Action => seq!['[', 'A', 'C', 'T', 'I', 'O', 'N', ']', ' '],
    }
}

impl GamePacket {
    /// The line a received game packet is shown as: its tag, its sender, a colon and its
    /// payload.
    pub fn log_line(&self) -> (line: String)
        ensures
            line@ == packet_tag(self.packet_type) + self.sender@ + seq![':', ' '] + self.payload@,
    {
        let tag = match self.packet_type {
            PacketType::Move => {
                proof {
                    reveal_strlit("[MOVE] ");
                }
                String::from_str("[MOVE] ")
            },
            PacketType::Chat => {
                proof {
                    reveal_strlit("[CHAT] ");
                }
                String::from_str("[CHAT] ")
            },
            PacketType::Action => {
                proof {
                    reveal_strlit("[ACTION] ");
                }
                String::from_str("[ACTION] ")
            },
        };
        proof {
            reveal_strlit(": ");
        }
        let line = tag.concat(self.sender.as_str()).concat(": ").concat(self.payload.as_str());
        assert(line@ =~= packet_tag(self.packet_type) + self.sender@ + seq![':', ' '] + self.payload@);
        line
    }
}

/// The bytes of `HELLO `, which open a handshake message.
pub open spec fn hello_prefix() -> Seq<u8> {
    seq![72u8, 69u8, 76u8, 76u8, 79u8, 32u8]
}

/// The bytes of `heartbeat`.
pub open spec fn heartbeat_text() -> Seq<u8> {
    seq![104u8, 101u8, 97u8, 114u8, 116u8, 98u8, 101u8, 97u8, 116u8]
}

/// The bytes of `re-punch`.
pub open spec fn re_punch_text() -> Seq<u8> {
    seq![114u8, 101u8, 45u8, 112u8, 117u8, 110u8, 99u8, 104u8]
}

/// The reply of a coordinator that dropped the peer: `"disconnected"`.
pub open spec fn disconnected_reply() -> Seq<char> {
    quoted(seq!['d', 'i', 's', 'c', 'o', 'n', 'n', 'e', 'c', 't', 'e', 'd'])
}

/// The reply of a coordinator whose room is closed: `"room_closed"`.
pub open spec fn room_closed_reply() -> Seq<char> {
    quoted(room_closed_word())
}

/// The first reply that means nobody else is in the room yet.
pub open spec fn waiting_reply() -> Seq<char> {
    seq!['w', 'a', 'i', 't', 'i', 'n', 'g']
}

/// The key that peers derive from a room password.
pub open spec fn cipher_key(password: Seq<char>) -> Seq<u8> {
    hkdf_sha256_no_salt(password, seq!['a', 'e', 's', '-', 'k', 'e', 'y'], KEY_SIZE as nat)
}

/// What a decrypted message is.
pub enum Incoming {
    /// Shorter than a nonce.
    Malformed,
    /// Not authenticated under the room's key.
    Rejected,
    /// A handshake carrying the sender's token.
    Hello(Vec<u8>),
    /// A heartbeat.
    Heartbeat,
    /// Any other message.
    Message(Vec<u8>),
}

/// What a received packet is, as a mathematical value.
pub enum IncomingView {
    Malformed,
    Rejected,
    Hello(Seq<u8>),
    Heartbeat,
    Message(Seq<u8>),
}

impl View for Incoming {
    type V = IncomingView;

    open spec fn view(&self) -> IncomingView {
        match self {
            Incoming::Malformed => IncomingView::Malformed,
            Incoming::Rejected => IncomingView::Rejected,
            Incoming::Hello(t) => IncomingView::Hello(t@),
            Incoming::Heartbeat => IncomingView::Heartbeat,
            Incoming::Message(m) => IncomingView::Message(m@),
        }
    }
}

/// What a decrypted plaintext is: a handshake when it opens with `HELLO `, carrying the
/// rest as token; a heartbeat when it is exactly `heartbeat`; any other message otherwise.
pub open spec fn plaintext_kind(p: Seq<u8>) -> IncomingView {
    if p.len() >= hello_prefix().len() && p.subrange(0, hello_prefix().len() as int)
        == hello_prefix() {
        IncomingView::Hello(p.subrange(hello_prefix().len() as int, p.len() as int))
    } else if p == heartbeat_text() {
        IncomingView::Heartbeat
    } else {
        IncomingView::Message(p)
    }
}

/// What a received packet is: a nonce followed by a ciphertext under `key`.
pub open spec fn packet_kind(key: Seq<u8>, packet: Seq<u8>) -> IncomingView {
    if packet.len() < NONCE_SIZE {
        IncomingView::Malformed
    } else {
        match aes256_gcm_opened(
            key,
            packet.subrange(0, NONCE_SIZE as int),
            packet.subrange(NONCE_SIZE as int, packet.len() as int),
        ) {
            None => IncomingView::Rejected,
            Some(p) => plaintext_kind(p),
        }
    }
}

/// What a peer does after asking the coordinator for the room's peers.
pub enum RefreshOutcome {
    /// The coordinator dropped this peer.
    Disconnected,
    /// The room is closed.
    RoomClosed,
    /// The reply listed peers; whether any of them was new.
    PeersUpdated(bool),
    /// The reply was none of these.
    Unreadable,
}

/// One player's endpoint: the room key, the known peer addresses, when the last heartbeat
/// arrived (monotonic nanoseconds), the player's join token and the host's address.
pub struct Peer {
    key: Vec<u8>,
    peer_addrs: StrMap<()>,
    last_heartbeat: u64,
    pub token: String,
    pub host_addr: Option<String>,
}

/// A peer as a mathematical value.
pub struct PeerView {
    pub key: Seq<u8>,
    pub peer_addrs: Set<Seq<char>>,
    pub last_heartbeat: u64,
    pub token: Seq<char>,
    pub host_addr: Option<Seq<char>>,
}

/// The views of an optional string.
pub open spec fn opt_text(o: Option<String>) -> Option<Seq<char>> {
    match o {
        Some(s) => Some(s@),
        None => None,
    }
}

/// The bytes of `s` when every character of it is ASCII.
pub open spec fn ascii_bytes(s: Seq<char>) -> Seq<u8> {
    s.map_values(|c: char| c as u8)
}

/// Copies the bytes of `b` from `from` up to `to`.
fn copy_range(b: &[u8], from: usize, to: usize) -> (r: Vec<u8>)
    requires
        from <= to <= b@.len(),
    ensures
        r@ == b@.subrange(from as int, to as int),
{
    let mut r: Vec<u8> = Vec::new();
    let mut i = from;
    while i < to
        invariant
            from <= i <= to <= b@.len(),
            r@ == b@.subrange(from as int, i as int),
        decreases to - i,
    {
        r.push(b[i]);
        assert(r@ =~= b@.subrange(from as int, i + 1));
        i = i + 1;
    }
    r
}

/// Whether `b` opens with `prefix`.
fn starts_with(b: &[u8], prefix: &[u8]) -> (r: bool)
    ensures
        r == (b@.len() >= prefix@.len() && b@.subrange(0, prefix@.len() as int) == prefix@),
{
    if b.len() < prefix.len() {
        return false;
    }
    let mut i: usize = 0;
    while i < prefix.len()
        invariant
            i <= prefix@.len() <= b@.len(),
            forall|j: int| 0 <= j < i ==> b@[j] == prefix@[j],
        decreases prefix@.len() - i,
    {
        if b[i] != prefix[i] {
            assert(b@.subrange(0, prefix@.len() as int)[i as int] != prefix@[i as int]);
            return false;
        }
        i = i + 1;
    }
    assert(b@.subrange(0, prefix@.len() as int) =~= prefix@);
    true
}

/// Whether `b` is exactly `other`.
fn same_bytes(b: &[u8], other: &[u8]) -> (r: bool)
    ensures
        r == (b@ == other@),
{
    if b.len() != other.len() {
        return false;
    }
    let r = starts_with(b, other);
    assert(b@ =~= b@.subrange(0, other@.len() as int));
    r
}

/// The bytes of `HELLO `.
fn hello_prefix_bytes() -> (b: Vec<u8>)
    ensures
        b@ == hello_prefix(),
{
    let b: Vec<u8> = vec![72u8, 69u8, 76u8, 76u8, 79u8, 32u8];
    assert(b@ =~= hello_prefix());
    b
}

/// The bytes of the heartbeat message.
pub fn heartbeat_message() -> (b: Vec<u8>)
    ensures
        b@ == heartbeat_text(),
{
    let b: Vec<u8> = vec![104u8, 101u8, 97u8, 114u8, 116u8, 98u8, 101u8, 97u8, 116u8];
    assert(b@ =~= heartbeat_text());
    b
}

/// The bytes of the re-punch message.
pub fn re_punch_message() -> (b: Vec<u8>)
    ensures
        b@ == re_punch_text(),
{
    let b: Vec<u8> = vec![114u8, 101u8, 45u8, 112u8, 117u8, 110u8, 99u8, 104u8];
    assert(b@ =~= re_punch_text());
    b
}

/// The registration a peer sends to the coordinator: the invite code, a comma and the
/// peer's address.
pub fn registration_message(invite_code: &str, addr: &str) -> (msg: String)
    ensures
        msg@ == invite_code@ + seq![','] + addr@,
{
    proof {
        reveal_strlit(",");
    }
    let msg = invite_code.to_owned().concat(",").concat(addr);
    assert(msg@ =~= invite_code@ + seq![','] + addr@);
    msg
}

/// Whether `a` and `b` are the same text.
fn same_text(a: &str, b: &str) -> (r: bool)
    ensures
        r == (a@ == b@),
{
    a.to_owned() == b.to_owned()
}

impl Peer {
    /// The peer's state as a mathematical value.
    pub closed spec fn state(&self) -> PeerView {
        PeerView {
            key: self.key@,
            peer_addrs: self.peer_addrs@.dom(),
            last_heartbeat: self.last_heartbeat,
            token: self.token@,
            host_addr: opt_text(self.host_addr),
        }
    }

    /// The peer's well-formedness: a key of the right length, and each address kept once.
    pub closed spec fn wf(&self) -> bool {
        &&& self.key@.len() == KEY_SIZE
        &&& self.peer_addrs.wf()
    }

    /// The room key derived from `password`.
    fn init_cipher(password: &str) -> (key: Vec<u8>)
        ensures
            key@ == cipher_key(password@),
            key@ == hkdf_sha256_no_salt(
                password@,
                seq!['a', 'e', 's', '-', 'k', 'e', 'y'],
                32,
            ),
            key@.len() == KEY_SIZE,
    {
        proof {
            reveal_strlit("aes-key");
        }
        let info = "aes-key";
        assert(info@ =~= seq!['a', 'e', 's', '-', 'k', 'e', 'y']);
        hkdf_sha256(password, info, KEY_SIZE)
    }

    /// A peer of the room with `password`, holding `token`, that counts its last heartbeat
    /// from `now` and knows no other peer yet.
    pub fn new(password: &str, token: String, now: u64) -> (p: Peer)
        ensures
            p.wf(),
            p@ == (PeerView {
                key: cipher_key(password@),
                peer_addrs: Set::empty(),
                last_heartbeat: now,
                token: token@,
                host_addr: None,
            }),
            p@.key == hkdf_sha256_no_salt(password@, seq!['a', 'e', 's', '-', 'k', 'e', 'y'], 32),
    {
        let key = Self::init_cipher(password);
        let p = Peer { key, peer_addrs: StrMap::new(), last_heartbeat: now, token, host_addr: None };
        assert(p@.peer_addrs =~= Set::<Seq<char>>::empty());
        p
    }

    /// Seals `plaintext` under the room key with `nonce`: the nonce followed by the
    /// ciphertext.
    pub fn seal(&self, nonce: &[u8], plaintext: &[u8]) -> (packet: Vec<u8>)
        requires
            self.wf(),
            nonce@.len() == NONCE_SIZE,
            plaintext@.len() <= MAX_PLAINTEXT_LEN,
        ensures
            packet@ == nonce@ + aes256_gcm_sealed(self@.key, nonce@, plaintext@),
            packet@.len() == NONCE_SIZE + plaintext@.len() + TAG_SIZE,
    {
        let mut packet = copy_range(nonce, 0, nonce.len());
        assert(packet@ =~= nonce@);
        let mut ciphertext = aes256_gcm_seal(self.key.as_slice(), nonce, plaintext);
        packet.append(&mut ciphertext);
        packet
    }

    /// Seals `plaintext` under the room key with a fresh random nonce.
    pub fn encrypt(&self, plaintext: &[u8]) -> (packet: Vec<u8>)
        requires
            self.wf(),
            plaintext@.len() <= MAX_PLAINTEXT_LEN,
        ensures
            packet@.len() == NONCE_SIZE + plaintext@.len() + TAG_SIZE,
            packet@.subrange(NONCE_SIZE as int, packet@.len() as int) == aes256_gcm_sealed(
                self@.key,
                packet@.subrange(0, NONCE_SIZE as int),
                plaintext@,
            ),
    {
        let nonce = random_bytes(NONCE_SIZE);
        let packet = self.seal(nonce.as_slice(), plaintext);
        assert(packet@.subrange(0, NONCE_SIZE as int) =~= nonce@);
        assert(packet@.subrange(NONCE_SIZE as int, packet@.len() as int) =~= aes256_gcm_sealed(
            self@.key,
            nonce@,
            plaintext@,
        ));
        packet
    }

    /// One packet for each known peer: its address, and `plaintext` sealed under the room
    /// key with a fresh random nonce.
    pub fn packets_for_peers(&self, plaintext: &[u8]) -> (packets: Vec<(String, Vec<u8>)>)
        requires
            self.wf(),
            plaintext@.len() <= MAX_PLAINTEXT_LEN,
        ensures
            addrs_listed_once(packet_addrs(packets@), self@.peer_addrs),
            forall|i: int|
                0 <= i < packets@.len() ==> sealed_packet(
                    self@.key,
                    #[trigger] packets@[i].1@,
                    plaintext@,
                ),
    {
        let addrs = self.peer_addrs();
        let ghost av = string_views(addrs@);
        let mut packets: Vec<(String, Vec<u8>)> = Vec::new();
        let mut i: usize = 0;
        while i < addrs.len()
            invariant
                i <= addrs@.len(),
                av == string_views(addrs@),
                self.wf(),
                plaintext@.len() <= MAX_PLAINTEXT_LEN,
                packets@.len() == i,
                packet_addrs(packets@) == av.subrange(0, i as int),
                forall|j: int|
                    0 <= j < packets@.len() ==> sealed_packet(
                        self@.key,
                        #[trigger] packets@[j].1@,
                        plaintext@,
                    ),
            decreases addrs@.len() - i,
        {
            let packet = self.encrypt(plaintext);
            let ghost before = packets@;
            let addr = addrs[i].clone();
            assert(addr@ == av[i as int]);
            packets.push((addr, packet));
            proof {
                assert forall|j: int| 0 <= j < i + 1 implies #[trigger] packet_addrs(packets@)[j]
                    == av.subrange(0, i + 1)[j] by {
                    if j < i {
                        assert(packets@[j] == before[j]);
                        assert(packet_addrs(before)[j] == av.subrange(0, i as int)[j]);
                    }
                }
                assert(packet_addrs(packets@) =~= av.subrange(0, i + 1));
            }
            i = i + 1;
        }
        assert(av.subrange(0, addrs@.len() as int) =~= av);
        packets
    }

    /// Reads a received packet at `now`: a nonce and a ciphertext under the room key. A
    /// heartbeat restarts the heartbeat clock; nothing else changes the peer.
    pub fn receive(&mut self, packet: &[u8], now: u64) -> (kind: Incoming)
        requires
            old(self).wf(),
        ensures
            final(self).wf(),
            kind@ == packet_kind(old(self)@.key, packet@),
            final(self)@ == (PeerView {
                last_heartbeat: if kind@ is Heartbeat {
                    now
                } else {
                    old(self)@.last_heartbeat
                },
                ..old(self)@
            }),
            forall|nonce: Seq<u8>, p: Seq<u8>|
                nonce.len() == NONCE_SIZE && p.len() <= MAX_PLAINTEXT_LEN && packet@ == nonce
                    + #[trigger] aes256_gcm_sealed(old(self)@.key, nonce, p) ==> kind@
                    == plaintext_kind(p),
            forall|nonce: Seq<u8>, p: Seq<u8>|
                nonce.len() == NONCE_SIZE && p.len() <= MAX_PLAINTEXT_LEN && packet@ == nonce
                    + #[trigger] aes256_gcm_sealed(old(self)@.key, nonce, p) && !(p.len() >= 6
                    && p.subrange(0, 6) == seq![72u8, 69u8, 76u8, 76u8, 79u8, 32u8]) && p
                    != seq![104u8, 101u8, 97u8, 114u8, 116u8, 98u8, 101u8, 97u8, 116u8] ==> (
                kind matches Incoming::Message(m) && m@ == p),
    {
        if packet.len() < NONCE_SIZE {
            proof {
                assert forall|nonce: Seq<u8>, p: Seq<u8>|
                    nonce.len() == NONCE_SIZE && p.len() <= MAX_PLAINTEXT_LEN && packet@ == nonce
                        + #[trigger] aes256_gcm_sealed(old(self)@.key, nonce, p) implies false by {
                    assert(packet@.len() >= nonce.len());
                }
            }
            return Incoming::Malformed;
        }
        let nonce = vstd::slice::slice_subrange(packet, 0, NONCE_SIZE);
        let body = vstd::slice::slice_subrange(packet, NONCE_SIZE, packet.len());
        let opened = aes256_gcm_open(self.key.as_slice(), nonce, body);
        proof {
            assert forall|n: Seq<u8>, p: Seq<u8>|
                n.len() == NONCE_SIZE && p.len() <= MAX_PLAINTEXT_LEN && packet@ == n
                    + #[trigger] aes256_gcm_sealed(self@.key, n, p) implies opt_bytes_eq(
                opened,
                p,
            ) by {
                assert(nonce@ =~= n);
                assert(body@ =~= aes256_gcm_sealed(self@.key, n, p));
            }
        }
        match opened {
            None => Incoming::Rejected,
            Some(p) => {
                let hello = hello_prefix_bytes();
                if starts_with(p.as_slice(), hello.as_slice()) {
                    Incoming::Hello(copy_range(p.as_slice(), hello.len(), p.len()))
                } else {
                    let beat = heartbeat_message();
                    if same_bytes(p.as_slice(), beat.as_slice()) {
                        self.last_heartbeat = now;
                        Incoming::Heartbeat
                    } else {
                        Incoming::Message(p)
                    }
                }
            },
        }
    }

    /// Whether the last heartbeat is longer ago than the heartbeat timeout at `now`.
    pub fn heartbeat_timed_out(&self, now: u64) -> (b: bool)
        ensures
            b == (nanos_between(now, self@.last_heartbeat) > HEARTBEAT_TIMEOUT_SECS
                * NANOS_PER_SEC),
    {
        elapsed_nanos(now, self.last_heartbeat) > HEARTBEAT_TIMEOUT_SECS * NANOS_PER_SEC
    }

    /// How many re-punch messages to send: none when no peer is known.
    pub fn re_punch_rounds(&self) -> (n: u32)
        requires
            self.wf(),
        ensures
            n == if self@.peer_addrs.is_empty() {
                0
            } else {
                RE_PUNCH_ATTEMPTS
            },
    {
        let addrs = self.peer_addrs.keys();
        proof {
            if addrs@.len() > 0 {
                assert(string_views(addrs@).contains(string_views(addrs@)[0]));
                assert(self@.peer_addrs.contains(string_views(addrs@)[0]));
            } else {
                assert forall|a: Seq<char>| !self@.peer_addrs.contains(a) by {
                    if self@.peer_addrs.contains(a) {
                        assert(string_views(addrs@).contains(a));
                    }
                }
                assert(self@.peer_addrs =~= Set::<Seq<char>>::empty());
            }
        }
        if addrs.len() == 0 {
            0
        } else {
            RE_PUNCH_ATTEMPTS
        }
    }

    /// Adds `addr` to the known peers.
    pub fn add_peer(&mut self, addr: String)
        requires
            old(self).wf(),
        ensures
            final(self).wf(),
            final(self)@ == (PeerView {
                peer_addrs: old(self)@.peer_addrs.insert(addr@),
                ..old(self)@
            }),
    {
        self.peer_addrs.insert(addr, ());
        assert(self@.peer_addrs =~= old(self)@.peer_addrs.insert(addr@));
    }

    /// The known peer addresses, each once.
    pub fn peer_addrs(&self) -> (addrs: Vec<String>)
        requires
            self.wf(),
        ensures
            addrs_listed_once(string_views(addrs@), self@.peer_addrs),
    {
        self.peer_addrs.keys()
    }

    /// Records the host's address.
    pub fn set_host_addr(&mut self, addr: String)
        ensures
            final(self)@ == (PeerView { host_addr: Some(addr@), ..old(self)@ }),
            final(self).wf() == old(self).wf(),
    {
        self.host_addr = Some(addr);
    }

    /// The handshake message: `HELLO ` followed by the token's UTF-8 bytes.
    pub fn hello_message(&self) -> (msg: Vec<u8>)
        ensures
            msg@ == hello_prefix() + vstd::utf8::encode_utf8(self@.token),
    {
        let mut msg = hello_prefix_bytes();
        let mut tail = vstd::slice::slice_to_vec(self.token.as_str().as_bytes());
        msg.append(&mut tail);
        msg
    }

    /// Adds each address of `items` to the known peers; whether any was new.
    fn add_all(&mut self, items: Vec<String>) -> (changed: bool)
        requires
            old(self).wf(),
        ensures
            final(self).wf(),
            final(self)@ == (PeerView {
                peer_addrs: old(self)@.peer_addrs.union(string_views(items@).to_set()),
                ..old(self)@
            }),
            changed == !string_views(items@).to_set().subset_of(old(self)@.peer_addrs),
    {
        let ghost iv = string_views(items@);
        assert(iv.subrange(0, 0).to_set() =~= Set::<Seq<char>>::empty());
        assert(old(self)@.peer_addrs.union(Set::<Seq<char>>::empty()) =~= old(self)@.peer_addrs);
        let mut changed = false;
        let mut i: usize = 0;
        while i < items.len()
            invariant
                i <= items@.len(),
                iv == string_views(items@),
                self.wf(),
                self@ == (PeerView {
                    peer_addrs: old(self)@.peer_addrs.union(iv.subrange(0, i as int).to_set()),
                    ..old(self)@
                }),
                changed == !iv.subrange(0, i as int).to_set().subset_of(old(self)@.peer_addrs),
            decreases items@.len() - i,
        {
            let ghost before = self@.peer_addrs;
            let addr = items[i].clone();
            if !self.peer_addrs.contains_key(&addr) {
                proof {
                    assert(!old(self)@.peer_addrs.contains(addr@));
                }
                changed = true;
            }
            self.add_peer(addr);
            proof {
                assert(iv.subrange(0, i + 1) =~= iv.subrange(0, i as int).push(iv[i as int]));
                lemma_push_contains(iv.subrange(0, i as int), iv[i as int]);
                assert(iv.subrange(0, i + 1).to_set() =~= iv.subrange(0, i as int).to_set().insert(
                    iv[i as int],
                ));
                assert(self@.peer_addrs =~= old(self)@.peer_addrs.union(
                    iv.subrange(0, i + 1).to_set(),
                ));
            }
            i = i + 1;
        }
        assert(iv.subrange(0, items@.len() as int) =~= iv);
        changed
    }

    /// Applies the coordinator's answer to a refresh: the peer was dropped, the room is
    /// closed, or the answer lists peers, which are added to the known ones.
    pub fn apply_coordinator_reply(&mut self, reply: &str) -> (outcome: RefreshOutcome)
        requires
            old(self).wf(),
        ensures
            final(self).wf(),
            reply@ == disconnected_reply() ==> outcome is Disconnected && final(self)@ == old(
                self,
            )@,
            reply@ == room_closed_reply() ==> outcome is RoomClosed && final(self)@ == old(self)@,
            reply@ != disconnected_reply() && reply@ != room_closed_reply() ==> match json_string_array_parse(
                reply@,
            ) {
                None => outcome is Unreadable && final(self)@ == old(self)@,
                Some(items) => {
                    &&& final(self)@ == (PeerView {
                        peer_addrs: old(self)@.peer_addrs.union(items.to_set()),
                        ..old(self)@
                    })
                    &&& outcome == RefreshOutcome::PeersUpdated(
                        !items.to_set().subset_of(old(self)@.peer_addrs),
                    )
                },
            },
            forall|items: Seq<Seq<char>>|
                reply@ == #[trigger] json_array_text(items) ==> final(self)@
                    == (PeerView {
                    peer_addrs: old(self)@.peer_addrs.union(items.to_set()),
                    ..old(self)@
                }),
    {
        proof {
            reveal_strlit("\"disconnected\"");
            reveal_strlit("\"room_closed\"");
            assert forall|items: Seq<Seq<char>>|
                reply@ == #[trigger] json_array_text(items) implies reply@
                != disconnected_reply() && reply@ != room_closed_reply() by {
                assert(json_array_text(items)[0] == '[');
                assert(disconnected_reply()[0] == '"');
                assert(room_closed_reply()[0] == '"');
            }
        }
        if same_text(reply, "\"disconnected\"") {
            assert("\"disconnected\""@ =~= disconnected_reply());
            return RefreshOutcome::Disconnected;
        }
        assert("\"disconnected\""@ =~= disconnected_reply());
        if same_text(reply, "\"room_closed\"") {
            assert("\"room_closed\""@ =~= room_closed_reply());
            return RefreshOutcome::RoomClosed;
        }
        assert("\"room_closed\""@ =~= room_closed_reply());
        match parse_string_array(reply) {
            None => RefreshOutcome::Unreadable,
            Some(items) => {
                let changed = self.add_all(items);
                RefreshOutcome::PeersUpdated(changed)
            },
        }
    }

    /// Applies the coordinator's answer to the first registration: unless it is `waiting`,
    /// the peers it lists are added, and an answer that lists none adds none.
    pub fn apply_registration_reply(&mut self, reply: &str)
        requires
            old(self).wf(),
        ensures
            final(self).wf(),
            final(self)@ == (PeerView {
                peer_addrs: if reply@ == waiting_reply() {
                    old(self)@.peer_addrs
                } else {
                    match json_string_array_parse(reply@) {
                        Some(items) => old(self)@.peer_addrs.union(items.to_set()),
                        None => old(self)@.peer_addrs,
                    }
                },
                ..old(self)@
            }),
    {
        proof {
            reveal_strlit("waiting");
        }
        if same_text(reply, "waiting") {
            assert("waiting"@ =~= waiting_reply());
            return ;
        }
        assert("waiting"@ =~= waiting_reply());
        match parse_string_array(reply) {
            Some(items) => {
                self.add_all(items);
            },
            None => {
                assert(old(self)@.peer_addrs.union(Seq::<Seq<char>>::empty().to_set())
                    =~= old(self)@.peer_addrs);
            },
        }
    }
}

/// The addresses of a list of packets.
pub open spec fn packet_addrs(packets: Seq<(String, Vec<u8>)>) -> Seq<Seq<char>> {
    packets.map_values(|p: (String, Vec<u8>)| p.0@)
}

/// `packet` is a nonce followed by `plaintext` sealed under `key` with that nonce.
pub open spec fn sealed_packet(key: Seq<u8>, packet: Seq<u8>, plaintext: Seq<u8>) -> bool {
    &&& packet.len() == NONCE_SIZE + plaintext.len() + TAG_SIZE
    &&& packet.subrange(NONCE_SIZE as int, packet.len() as int) == aes256_gcm_sealed(
        key,
        packet.subrange(0, NONCE_SIZE as int),
        plaintext,
    )
}

/// `opened` is the plaintext `p`.
pub open spec fn opt_bytes_eq(opened: Option<Vec<u8>>, p: Seq<u8>) -> bool {
    opened matches Some(v) && v@ == p
}

/// A sequence that lists the addresses of `s`, each exactly once.
pub open spec fn addrs_listed_once(addrs: Seq<Seq<char>>, s: Set<Seq<char>>) -> bool {
    &&& addrs.no_duplicates()
    &&& forall|a: Seq<char>| #[trigger] addrs.contains(a) <==> s.contains(a)
}

/// No comma occurs in `s`.
pub open spec fn comma_free(s: Seq<char>) -> bool {
    forall|i: int| 0 <= i < s.len() ==> #[trigger] s[i] != ','
}

proof fn lemma_comma_from(s: Seq<char>, from: int, k: int)
    requires
        0 <= from <= k <= s.len(),
        forall|j: int| from <= j < k ==> #[trigger] s[j] != ',',
        k == s.len() || s[k] == ',',
    ensures
        comma_from(s, from) == k,
    decreases k - from,
{
    if from < k {
        lemma_comma_from(s, from + 1, k);
    }
}

/// The registration a peer sends is read by the coordinator as the peer's invite code and
/// address, without asking for a new room.
pub proof fn lemma_registration_message_read_back(invite_code: Seq<char>, addr: Seq<char>)
    requires
        comma_free(invite_code),
        comma_free(addr),
    ensures
        parsed_registration(invite_code + seq![','] + addr) == Some(
            RegistrationView { invite_code, addr, new_room: false },
        ),
{
    let s = invite_code + seq![','] + addr;
    let n = invite_code.len() as int;
    assert forall|j: int| 0 <= j < n implies #[trigger] s[j] != ',' by {
        assert(s[j] == invite_code[j]);
    }
    assert(s[n] == ',');
    lemma_comma_from(s, 0, n);
    assert forall|j: int| n + 1 <= j < s.len() implies #[trigger] s[j] != ',' by {
        assert(s[j] == addr[j - n - 1]);
    }
    lemma_comma_from(s, n + 1, s.len() as int);
    assert(s.subrange(0, n) =~= invite_code);
    assert(s.subrange(n + 1, s.len() as int) =~= addr);
}

/// The room key is a function of the password alone: peers that join with the same
/// password hold the same key, so each reads back what the other seals (`Peer::receive`).
pub proof fn lemma_same_password_same_key(a: PeerView, b: PeerView, password: Seq<char>)
    requires
        a.key == cipher_key(password),
        b.key == cipher_key(password),
    ensures
        a.key == b.key,
{
}

/// The room key is HKDF-SHA256 with no salt over the password, expanded with the info
/// `aes-key` to 32 bytes.
pub proof fn lemma_room_key_is_hkdf_of_password(password: Seq<char>)
    ensures
        cipher_key(password) == hkdf_sha256_no_salt(
            password,
            seq!['a', 'e', 's', '-', 'k', 'e', 'y'],
            32,
        ),
{
}

/// A plaintext that does not open with `HELLO ` and is not exactly `heartbeat` reads
/// back as an ordinary message holding exactly that plaintext, at every length.
pub proof fn lemma_other_plaintext_is_message(p: Seq<u8>)
    requires
        !(p.len() >= 6 && p.subrange(0, 6) == seq![72u8, 69u8, 76u8, 76u8, 79u8, 32u8]),
        p != seq![104u8, 101u8, 97u8, 114u8, 116u8, 98u8, 101u8, 97u8, 116u8],
    ensures
        plaintext_kind(p) == IncomingView::Message(p),
{
}

/// A plaintext that opens with `HELLO ` reads back as a handshake carrying exactly the
/// bytes after the prefix, at every length.
pub proof fn lemma_hello_plaintext_carries_rest(p: Seq<u8>)
    requires
        p.len() >= 6,
        p.subrange(0, 6) == seq![72u8, 69u8, 76u8, 76u8, 79u8, 32u8],
    ensures
        plaintext_kind(p) == IncomingView::Hello(p.subrange(6, p.len() as int)),
{
}

/// A handshake message reads back as a handshake carrying the token's bytes.
pub proof fn lemma_hello_read_back(token: Seq<char>)
    ensures
        plaintext_kind(hello_prefix() + vstd::utf8::encode_utf8(token)) == IncomingView::Hello(
            vstd::utf8::encode_utf8(token),
        ),
{
    let m = hello_prefix() + vstd::utf8::encode_utf8(token);
    assert(m.subrange(0, 6) =~= hello_prefix());
    assert(m.subrange(6, m.len() as int) =~= vstd::utf8::encode_utf8(token));
}

/// The heartbeat message reads back as a heartbeat, and the re-punch message as an
/// ordinary message.
pub proof fn lemma_heartbeat_read_back()
    ensures
        plaintext_kind(heartbeat_text()) == IncomingView::Heartbeat,
        plaintext_kind(re_punch_text()) == IncomingView::Message(re_punch_text()),
{
    assert(heartbeat_text().subrange(0, 6) != hello_prefix()) by {
        assert(heartbeat_text().subrange(0, 6)[0] != hello_prefix()[0]);
    }
    assert(re_punch_text().subrange(0, 6) != hello_prefix()) by {
        assert(re_punch_text().subrange(0, 6)[0] != hello_prefix()[0]);
    }
    assert(re_punch_text() != heartbeat_text()) by {
        assert(re_punch_text().len() != heartbeat_text().len());
    }
}

impl View for Peer {
    type V = PeerView;

    open spec fn view(&self) -> PeerView {
        self.state()
    }
}

} // verus!
