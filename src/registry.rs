//! The rendezvous registry: the clients the server knows, the sessions they
//! hold, and what each incoming packet or clock tick does to them.
//!
//! Clients are kept in the order they first appeared; an address is their
//! identity, and each one holds at most one session. The session index of a
//! rendezvous server is the client table itself: a session is found by its key,
//! or as the first client in table order whose session is not password
//! protected.
use vstd::prelude::*;
use vstd::string::StrSliceExecFns;
use rand::{distributions::Alphanumeric, Rng};
use crate::codec::{
    ClientMsg,
    ClientPacket,
    ServerMsg,
    ServerPacket,
};
use crate::transport::{
    PacketModel,
    PacketReciever,
    PacketShipper,
    acked,
    age,
    copy_bytes,
    byte_views,
    due,
    elapsed,
    framed,
};

verus! {

broadcast use vstd::seq_lib::group_seq_properties;

/// A client that has not been heard from for longer than this is evicted.
pub const MAX_SILENCE_MS: u64 = 60000;

/// How often every client is sent a heartbeat.
pub const HEARTBEAT_INTERVAL_MS: u64 = 1000;

/// The number of characters in a session key.
pub const KEY_LEN: usize = 7;

/// True when `c` may stand in a session key: an ASCII letter or digit.
pub open spec fn is_key_char(c: char) -> bool {
    ('A' <= c && c <= 'Z') || ('a' <= c && c <= 'z') || ('0' <= c && c <= '9')
}

/// True when `k` is a session key: seven ASCII letters or digits.
pub open spec fn valid_key(k: Seq<char>) -> bool {
    k.len() == KEY_LEN && forall|i: int| 0 <= i < k.len() ==> is_key_char(#[trigger] k[i])
}

/// True when `key` is a session key: seven ASCII letters or digits.
pub fn is_valid_key(key: &str) -> (r: bool)
    ensures
        r == valid_key(key@),
{
    let n = key.unicode_len();
    if n != KEY_LEN {
        return false;
    }
    let mut i: usize = 0;
    while i < n
        invariant
            n == key@.len(),
            i <= n,
            forall|k: int| 0 <= k < i ==> is_key_char(#[trigger] key@[k]),
        decreases n - i,
    {
        let c = key.get_char(i);
        if !(('A' <= c && c <= 'Z') || ('a' <= c && c <= 'z') || ('0' <= c && c <= '9')) {
            return false;
        }
        i = i + 1;
    }
    true
}

/// Relies on rand's `thread_rng` sampling `Alphanumeric`, which draws each byte
/// from the 62 ASCII letters and digits: `len` draws make `len` characters.
#[verifier::external_body]
fn random_alphanumeric(len: usize) -> (r: String)
    ensures
        r@.len() == len,
        forall|i: int| 0 <= i < r@.len() ==> is_key_char(#[trigger] r@[i]),
{
    rand::thread_rng().sample_iter(&Alphanumeric).take(len).map(char::from).collect()
}

/// A random session key.
pub fn generate_key() -> (r: String)
    ensures
        valid_key(r@),
{
    random_alphanumeric(KEY_LEN)
}

/// An open rendezvous slot.
pub struct Session {
    pub key: String,
    pub password_protected: bool,
}

/// One remote endpoint, named by the text of its socket address.
pub struct Client {
    pub address: String,
    pub reciever: PacketReciever,
    pub shipper: PacketShipper,
    pub session: Option<Session>,
}

impl Client {
    /// The client's halves speak to its own address, and its key is well formed.
    pub open spec fn wf(&self) -> bool {
        &&& self.shipper.wf()
        &&& self.shipper.address() == self.address@
        &&& self.reciever.address() == self.address@
        &&& (self.session matches Some(s) ==> valid_key(s.key@))
    }

    /// True when the client holds a session that a keyless join may match.
    pub open spec fn is_open(&self) -> bool {
        self.session matches Some(s) && !s.password_protected
    }

    /// True when the client holds a session with key `k`.
    pub open spec fn holds_key(&self, k: Seq<char>) -> bool {
        self.session matches Some(s) && s.key@ == k
    }
}

/// A datagram for the caller to send.
pub struct Datagram {
    pub to: String,
    pub bytes: Vec<u8>,
}

/// What a [`Datagram`] holds.
pub struct DatagramModel {
    pub to: Seq<char>,
    pub bytes: Seq<u8>,
}

impl View for Datagram {
    type V = DatagramModel;

    open spec fn view(&self) -> DatagramModel {
        DatagramModel { to: self.to@, bytes: self.bytes@ }
    }
}

pub open spec fn datagrams(v: Seq<Datagram>) -> Seq<DatagramModel> {
    v.map_values(|d: Datagram| d@)
}

/// Keeps the clients that are not at address `a`.
pub open spec fn not_at(a: Seq<char>) -> spec_fn(Client) -> bool {
    |c: Client| c.address@ != a
}

/// The reply that a shipper whose next id is `next` sends to `to`: nothing once
/// its ids are spent.
pub open spec fn reply_with(to: Seq<char>, next: u64, m: ServerMsg) -> Seq<DatagramModel> {
    if next < u64::MAX {
        seq![DatagramModel { to, bytes: framed(next, m) }]
    } else {
        seq![]
    }
}

/// The reply that client `c` is sent through its shipper.
pub open spec fn reply(c: Client, m: ServerMsg) -> Seq<DatagramModel> {
    reply_with(c.address@, c.shipper.next_id(), m)
}

/// The shipper's next id once it has sent one more packet.
pub open spec fn next_after(n: u64) -> u64 {
    if n < u64::MAX {
        (n + 1) as u64
    } else {
        n
    }
}

/// `after` is `before` once it has sent `m` at time `now`.
pub open spec fn shipped(before: PacketShipper, after: PacketShipper, m: ServerMsg, now: u64) -> bool {
    &&& after.wf()
    &&& after.address() == before.address()
    &&& if before.can_send() {
        &&& after.next_id() == before.next_id() + 1
        &&& after.backlog() == before.backlog().push(
            PacketModel {
                id: before.next_id(),
                creation_time: now,
                data: framed(before.next_id(), m),
            },
        )
    } else {
        after == before
    }
}

/// `after` is `before` with only its shipper changed, as `ship` says.
pub open spec fn same_but_shipper(before: Client, after: Client) -> bool {
    &&& after.address == before.address
    &&& after.reciever == before.reciever
    &&& after.session == before.session
}

/// `new` is `old` where only the client at index `i` changed, and only in its shipper.
pub open spec fn changed_only_shipper_at(old: Seq<Client>, new: Seq<Client>, i: int) -> bool {
    &&& new.len() == old.len()
    &&& forall|j: int| 0 <= j < old.len() && j != i ==> new[j] == old[j]
    &&& same_but_shipper(old[i], new[i])
}

/// `new` is `old` with a session of key `k` given to the client at index `i`.
pub open spec fn session_installed(
    old: Seq<Client>,
    new: Seq<Client>,
    i: int,
    k: Seq<char>,
    password_protected: bool,
) -> bool {
    &&& 0 <= i < old.len()
    &&& new.len() == old.len()
    &&& forall|j: int| 0 <= j < old.len() && j != i ==> new[j] == old[j]
    &&& new[i].address == old[i].address
    &&& new[i].reciever == old[i].reciever
    &&& new[i].shipper == old[i].shipper
    &&& new[i].session matches Some(s) && s.key@ == k && s.password_protected == password_protected
}

/// Each client is well formed, no two share an address, and no two sessions
/// share a key.
pub open spec fn clients_wf(cs: Seq<Client>) -> bool {
    &&& forall|i: int| 0 <= i < cs.len() ==> (#[trigger] cs[i]).wf()
    &&& forall|i: int, j: int|
        0 <= i < cs.len() && 0 <= j < cs.len() && i != j ==> #[trigger] cs[i].address@
            != #[trigger] cs[j].address@
    &&& forall|i: int, j: int|
        0 <= i < cs.len() && 0 <= j < cs.len() && i != j && (#[trigger] cs[i]).session is Some && (
        #[trigger] cs[j]).session is Some ==> cs[i].session->0.key@ != cs[j].session->0.key@
}

/// Keeps the clients heard from within [`MAX_SILENCE_MS`] of `now`.
pub open spec fn still_heard(now: u64) -> spec_fn(Client) -> bool {
    |c: Client| age(now, c.reciever.last_heard()) <= MAX_SILENCE_MS
}

/// Keeps the clients silent for longer than [`MAX_SILENCE_MS`] at `now`.
pub open spec fn silent(now: u64) -> spec_fn(Client) -> bool {
    |c: Client| age(now, c.reciever.last_heard()) > MAX_SILENCE_MS
}

/// What sending `m` to each client of `cs` in turn, through its shipper, puts out.
pub open spec fn notices(cs: Seq<Client>, m: ServerMsg) -> Seq<DatagramModel>
    decreases cs.len(),
{
    if cs.len() == 0 {
        seq![]
    } else {
        notices(cs.drop_last(), m) + reply(cs.last(), m)
    }
}

/// The datagrams `ds`, each addressed to `to`.
pub open spec fn addressed(to: Seq<char>, ds: Seq<Seq<u8>>) -> Seq<DatagramModel> {
    ds.map_values(|d: Seq<u8>| DatagramModel { to, bytes: d })
}

/// `new` is `old` where every client was sent a heartbeat at time `now`.
pub open spec fn all_pinged(old: Seq<Client>, new: Seq<Client>, now: u64) -> bool {
    &&& new.len() == old.len()
    &&& forall|j: int|
        0 <= j < old.len() ==> same_but_shipper(old[j], #[trigger] new[j]) && shipped(
            old[j].shipper,
            new[j].shipper,
            ServerMsg::Pong,
            now,
        )
}

/// A sequence picked out of `orig` at the rising positions `idx` keeps the
/// well-formedness of `orig`.
proof fn lemma_picked_wf(orig: Seq<Client>, kept: Seq<Client>, idx: Seq<int>)
    requires
        clients_wf(orig),
        kept.len() == idx.len(),
        forall|k: int|
            0 <= k < idx.len() ==> 0 <= #[trigger] idx[k] < orig.len() && kept[k] == orig[idx[k]],
        forall|k: int, l: int| 0 <= k < l < idx.len() ==> #[trigger] idx[k] < #[trigger] idx[l],
    ensures
        clients_wf(kept),
{
    assert forall|p: int| 0 <= p < kept.len() implies (#[trigger] kept[p]).wf() by {
        assert(kept[p] == orig[idx[p]]);
    }
    assert forall|p: int, q: int| 0 <= p < kept.len() && 0 <= q < kept.len() && p != q
        implies #[trigger] kept[p].address@ != #[trigger] kept[q].address@ by {
        if p < q {
            assert(idx[p] < idx[q]);
        } else {
            assert(idx[q] < idx[p]);
        }
        assert(kept[p] == orig[idx[p]]);
        assert(kept[q] == orig[idx[q]]);
    }
    assert forall|p: int, q: int|
        0 <= p < kept.len() && 0 <= q < kept.len() && p != q && (#[trigger] kept[p]).session is Some
            && (#[trigger] kept[q]).session is Some
        implies kept[p].session->0.key@ != kept[q].session->0.key@ by {
        if p < q {
            assert(idx[p] < idx[q]);
        } else {
            assert(idx[q] < idx[p]);
        }
        assert(kept[p] == orig[idx[p]]);
        assert(kept[q] == orig[idx[q]]);
    }
}

/// True when a packet with sequence id `id` from address `a` is new: its
/// client is unknown, or the id is not below the one its receiver expects.
pub open spec fn fresh(old: Server, a: Seq<char>, id: u64) -> bool {
    !old.has_client_at(a) || id >= old.clients()[old.index_of(a)].reciever.next_expected()
}

/// `mid` is `old` once the receiver of the client at address `a` took in
/// sequence id `id` at time `now`; an unknown client is first added at the end
/// of the table, with no session and nothing sent yet.
pub open spec fn sorted_in(old: Server, mid: Server, a: Seq<char>, id: u64, now: u64) -> bool {
    let cs = old.clients();
    let ms = mid.clients();
    &&& mid.hashes() == old.hashes()
    &&& mid.spec_port() == old.spec_port()
    &&& mid.last_heartbeat() == old.last_heartbeat()
    &&& if old.has_client_at(a) {
        let i = old.index_of(a);
        let r = ms[i].reciever;
        &&& ms.len() == cs.len()
        &&& forall|j: int| 0 <= j < cs.len() && j != i ==> ms[j] == cs[j]
        &&& ms[i].address == cs[i].address
        &&& ms[i].shipper == cs[i].shipper
        &&& ms[i].session == cs[i].session
        &&& r.address() == a
        &&& r.last_heard() == now
        &&& r.next_expected() == if id < cs[i].reciever.next_expected() {
            cs[i].reciever.next_expected()
        } else {
            (id + 1) as nat
        }
    } else {
        let c = ms.last();
        &&& ms.len() == cs.len() + 1
        &&& ms.drop_last() == cs
        &&& c.address@ == a
        &&& c.session is None
        &&& c.shipper.wf()
        &&& c.shipper.address() == a
        &&& c.shipper.next_id() == 0
        &&& c.shipper.backlog().len() == 0
        &&& c.reciever.address() == a
        &&& c.reciever.last_heard() == now
        &&& c.reciever.next_expected() == (id + 1) as nat
    }
}

/// `new` is `old` where the client at index `i` was sent `m` at time `now`,
/// and nothing else changed.
pub open spec fn replied(old: Seq<Client>, new: Seq<Client>, i: int, m: ServerMsg, now: u64) -> bool {
    &&& changed_only_shipper_at(old, new, i)
    &&& shipped(old[i].shipper, new[i].shipper, m, now)
}

/// `new` is `old` where the client at index `i` acknowledged sequence id `x`.
pub open spec fn acked_at(old: Seq<Client>, new: Seq<Client>, i: int, x: u64) -> bool {
    &&& changed_only_shipper_at(old, new, i)
    &&& new[i].shipper.wf()
    &&& new[i].shipper.address() == old[i].shipper.address()
    &&& new[i].shipper.next_id() == old[i].shipper.next_id()
    &&& new[i].shipper.backlog() == acked(old[i].shipper.backlog(), x)
}

/// `new` is `old` where the client at index `i` was given a session of key `k`
/// and then sent its key at time `now`.
pub open spec fn created(
    old: Seq<Client>,
    new: Seq<Client>,
    i: int,
    k: Seq<char>,
    password_protected: bool,
    now: u64,
) -> bool {
    &&& new.len() == old.len()
    &&& forall|j: int| 0 <= j < old.len() && j != i ==> new[j] == old[j]
    &&& new[i].address == old[i].address
    &&& new[i].reciever == old[i].reciever
    &&& new[i].session matches Some(s) && s.key@ == k && s.password_protected == password_protected
    &&& shipped(old[i].shipper, new[i].shipper, ServerMsg::Create { session_key: k }, now)
}

/// The client at index `i` was matched with the client at index `t`: each is
/// sent the other's address, the requester first, and both leave the table.
pub open spec fn paired(
    old: Seq<Client>,
    new: Seq<Client>,
    out: Seq<DatagramModel>,
    i: int,
    t: int,
) -> bool {
    let c = old[i];
    let tc = old[t];
    &&& new == old.filter(not_at(tc.address@)).filter(not_at(c.address@))
    &&& out == reply(c, ServerMsg::Join { client_addr: tc.address@ }) + if t == i {
        reply_with(c.address@, next_after(c.shipper.next_id()), ServerMsg::Join { client_addr: c.address@ })
    } else {
        reply(tc, ServerMsg::Join { client_addr: c.address@ })
    }
}

/// True when no client of `cs` holds a session, so no key drawn can collide.
pub open spec fn no_sessions(cs: Seq<Client>) -> bool {
    forall|j: int| 0 <= j < cs.len() ==> (#[trigger] cs[j]).session is None
}

/// True when index `t` holds the first session in table order that is not
/// password protected.
pub open spec fn first_open(cs: Seq<Client>, t: int) -> bool {
    &&& 0 <= t < cs.len()
    &&& cs[t].is_open()
    &&& forall|j: int| 0 <= j < t ==> !(#[trigger] cs[j]).is_open()
}

/// What the packet `m` with sequence id `id` from the client at address `a`
/// does, at time `now`: `new` is the server after it and `out` what is sent.
pub open spec fn handled(
    old: Server,
    new: Server,
    a: Seq<char>,
    id: u64,
    m: ClientMsg,
    now: u64,
    out: Seq<DatagramModel>,
) -> bool {
    let cs = old.clients();
    let ns = new.clients();
    let i = old.index_of(a);
    let c = cs[i];
    &&& new.hashes() == old.hashes()
    &&& new.spec_port() == old.spec_port()
    &&& new.last_heartbeat() == old.last_heartbeat()
    &&& if !old.has_client_at(a) {
        out.len() == 0 && ns == cs
    } else {
        match m {
            ClientMsg::Ping => out == reply(c, ServerMsg::Pong) && replied(cs, ns, i, ServerMsg::Pong, now),
            ClientMsg::Ack { id: x } => out.len() == 0 && acked_at(cs, ns, i, x),
            ClientMsg::Create { client_hash, password_protected } => if !old.hash_allowed(client_hash) {
                out.len() == 0 && ns == cs
            } else {
                let failed = ServerMsg::Error { id, message: "Session failed to create"@ };
                let failure = out == reply(c, failed) && replied(cs, ns, i, failed, now);
                let made = exists|k: Seq<char>|
                    valid_key(k) && !old.key_is_open(k) && #[trigger] created(
                        cs,
                        ns,
                        i,
                        k,
                        password_protected,
                        now,
                    ) && out == reply(c, ServerMsg::Create { session_key: k });
                if c.session is Some {
                    failure
                } else if no_sessions(cs) {
                    made
                } else {
                    failure || made
                }
            },
            ClientMsg::Join { client_hash, session_key } => if !old.hash_allowed(client_hash) {
                out.len() == 0 && ns == cs
            } else if session_key.len() == 0 {
                if !old.has_open_session() {
                    let none = ServerMsg::Error { id, message: "No open session found"@ };
                    out == reply(c, none) && replied(cs, ns, i, none, now)
                } else {
                    exists|t: int| #[trigger] first_open(cs, t) && paired(cs, ns, out, i, t)
                }
            } else {
                if !old.key_is_open(session_key) {
                    let none = ServerMsg::Error { id, message: "No session found with key"@ };
                    out == reply(c, none) && replied(cs, ns, i, none, now)
                } else {
                    exists|t: int|
                        0 <= t < cs.len() && (#[trigger] cs[t]).holds_key(session_key) && paired(
                            cs,
                            ns,
                            out,
                            i,
                            t,
                        )
                }
            },
            ClientMsg::Close => out.len() == 0 && ns == cs.filter(not_at(a)),
        }
    }
}

/// Sends `packet` to client `c` through its shipper at time `now`, adding the
/// datagram to `out`; once the shipper's ids are spent, nothing is sent.
fn ship_to(c: &mut Client, packet: &ServerPacket, now: u64, out: &mut Vec<Datagram>)
    requires
        old(c).wf(),
    ensures
        final(c).wf(),
        same_but_shipper(*old(c), *final(c)),
        shipped(old(c).shipper, final(c).shipper, packet@, now),
        datagrams(final(out)@) == datagrams(old(out)@) + reply(*old(c), packet@),
{
    if c.shipper.has_id_left() {
        let bytes = c.shipper.send(packet, now);
        out.push(Datagram { to: c.address.clone(), bytes });
        assert(datagrams(out@) =~= datagrams(old(out)@) + reply(*old(c), packet@));
    } else {
        assert(datagrams(out@) =~= datagrams(old(out)@) + reply(*old(c), packet@));
    }
}

/// The rendezvous server's state.
pub struct Server {
    port: u16,
    clients: Vec<Client>,
    valid_client_hashes: Vec<String>,
    last_heartbeat: u64,
}

impl Server {
    /// The UDP port the server listens on.
    pub closed spec fn spec_port(&self) -> u16 {
        self.port
    }

    /// The clients, in the order they first appeared.
    pub closed spec fn clients(&self) -> Seq<Client> {
        self.clients@
    }

    /// The client hashes allowed to use the server.
    pub closed spec fn hashes(&self) -> Seq<String> {
        self.valid_client_hashes@
    }

    /// When the last heartbeat went out.
    pub closed spec fn last_heartbeat(&self) -> u64 {
        self.last_heartbeat
    }

    /// Each client is well formed, no two share an address, and no two
    /// sessions share a key.
    pub open spec fn wf(&self) -> bool {
        clients_wf(self.clients())
    }

    /// True when a client at address `a` is known.
    pub open spec fn has_client_at(&self, a: Seq<char>) -> bool {
        exists|i: int| 0 <= i < self.clients().len() && #[trigger] self.clients()[i].address@ == a
    }

    /// The index of the client at address `a`.
    pub open spec fn index_of(&self, a: Seq<char>) -> int {
        choose|i: int| 0 <= i < self.clients().len() && #[trigger] self.clients()[i].address@ == a
    }

    /// True when the client at address `a` holds a session.
    pub open spec fn has_session_at(&self, a: Seq<char>) -> bool {
        exists|i: int|
            0 <= i < self.clients().len() && #[trigger] self.clients()[i].address@ == a
                && self.clients()[i].session is Some
    }

    /// True when some open session has key `k`.
    pub open spec fn key_is_open(&self, k: Seq<char>) -> bool {
        exists|i: int| 0 <= i < self.clients().len() && (#[trigger] self.clients()[i]).holds_key(k)
    }

    /// True when some client holds a session that is not password protected.
    pub open spec fn has_open_session(&self) -> bool {
        exists|i: int| 0 <= i < self.clients().len() && (#[trigger] self.clients()[i]).is_open()
    }

    /// True when `h` is on the allow-list.
    pub open spec fn hash_allowed(&self, h: Seq<char>) -> bool {
        exists|i: int| 0 <= i < self.hashes().len() && #[trigger] self.hashes()[i]@ == h
    }

    /// A server on `port` with no clients and an empty allow-list.
    pub fn new(port: u16) -> (r: Server)
        ensures
            r.wf(),
            r.spec_port() == port,
            r.clients().len() == 0,
            r.hashes().len() == 0,
            r.last_heartbeat() == 0,
    {
        Server { port, clients: Vec::new(), valid_client_hashes: Vec::new(), last_heartbeat: 0 }
    }

    /// Replaces the allow-list.
    pub fn support_client_hashes(&mut self, hashes: Vec<String>)
        ensures
            final(self).hashes() == hashes@,
            final(self).clients() == old(self).clients(),
            final(self).spec_port() == old(self).spec_port(),
            final(self).last_heartbeat() == old(self).last_heartbeat(),
    {
        self.valid_client_hashes = hashes;
    }

    /// The UDP port the server listens on.
    pub fn port(&self) -> (r: u16)
        ensures
            r == self.spec_port(),
    {
        self.port
    }

    /// The number of clients.
    pub fn client_count(&self) -> (r: usize)
        ensures
            r == self.clients().len(),
    {
        self.clients.len()
    }

    /// True when `hash` is on the allow-list.
    pub fn valid_client_hash(&self, hash: &str) -> (r: bool)
        ensures
            r == self.hash_allowed(hash@),
    {
        let wanted = hash.to_owned();
        let mut i: usize = 0;
        while i < self.valid_client_hashes.len()
            invariant
                i <= self.hashes().len(),
                wanted@ == hash@,
                forall|k: int| 0 <= k < i ==> #[trigger] self.hashes()[k]@ != hash@,
            decreases self.hashes().len() - i,
        {
            if self.valid_client_hashes[i] == wanted {
                return true;
            }
            i = i + 1;
        }
        false
    }

    /// Where the client at address `socket_address` stands in the table.
    pub fn find_client(&self, socket_address: &String) -> (r: Option<usize>)
        ensures
            r matches Some(i) ==> i < self.clients().len() && self.clients()[i as int].address@
                == socket_address@,
            r is None ==> !self.has_client_at(socket_address@),
    {
        let mut i: usize = 0;
        while i < self.clients.len()
            invariant
                i <= self.clients().len(),
                forall|k: int| 0 <= k < i ==> #[trigger] self.clients()[k].address@ != socket_address@,
            decreases self.clients().len() - i,
        {
            if self.clients[i].address == *socket_address {
                return Some(i);
            }
            i = i + 1;
        }
        None
    }

    /// True when a client at address `socket_address` is known.
    pub fn has_client(&self, socket_address: &String) -> (r: bool)
        ensures
            r == self.has_client_at(socket_address@),
    {
        self.find_client(socket_address).is_some()
    }

    /// True when the client at address `socket_address` holds a session.
    pub fn has_session(&self, socket_address: &String) -> (r: bool)
        requires
            self.wf(),
        ensures
            r == self.has_session_at(socket_address@),
    {
        match self.find_client(socket_address) {
            Some(i) => self.clients[i].session.is_some(),
            None => false,
        }
    }

    /// Where the session with key `key` stands in the table.
    pub fn find_session(&self, key: &str) -> (r: Option<usize>)
        ensures
            r matches Some(i) ==> i < self.clients().len() && self.clients()[i as int].holds_key(key@),
            r is None ==> !self.key_is_open(key@),
    {
        let wanted = key.to_owned();
        let mut i: usize = 0;
        while i < self.clients.len()
            invariant
                i <= self.clients().len(),
                wanted@ == key@,
                forall|k: int| 0 <= k < i ==> !(#[trigger] self.clients()[k]).holds_key(key@),
            decreases self.clients().len() - i,
        {
            match &self.clients[i].session {
                Some(s) => {
                    if s.key == wanted {
                        return Some(i);
                    }
                },
                None => {},
            }
            i = i + 1;
        }
        None
    }

    /// True when some open session has key `key`.
    pub fn has_key(&self, key: &str) -> (r: bool)
        ensures
            r == self.key_is_open(key@),
    {
        self.find_session(key).is_some()
    }

    /// Where the first session in table order that is not password protected stands.
    pub fn find_open_session(&self) -> (r: Option<usize>)
        ensures
            r matches Some(i) ==> i < self.clients().len() && self.clients()[i as int].is_open()
                && forall|j: int| 0 <= j < i ==> !(#[trigger] self.clients()[j]).is_open(),
            r is None ==> !self.has_open_session(),
    {
        let mut i: usize = 0;
        while i < self.clients.len()
            invariant
                i <= self.clients().len(),
                forall|k: int| 0 <= k < i ==> !(#[trigger] self.clients()[k]).is_open(),
            decreases self.clients().len() - i,
        {
            match &self.clients[i].session {
                Some(s) => {
                    if !s.password_protected {
                        return Some(i);
                    }
                },
                None => {},
            }
            i = i + 1;
        }
        None
    }

    /// The address of the client whose session has key `key`.
    pub fn get_socket_addr_from_session(&self, key: &str) -> (r: Option<String>)
        ensures
            r matches Some(a) ==> exists|i: int|
                0 <= i < self.clients().len() && (#[trigger] self.clients()[i]).holds_key(key@)
                    && self.clients()[i].address@ == a@,
            r is None ==> !self.key_is_open(key@),
    {
        match self.find_session(key) {
            Some(i) => Some(self.clients[i].address.clone()),
            None => None,
        }
    }

    /// The address of the first client in table order whose session is not
    /// password protected.
    pub fn get_socket_addr_from_open_session(&self) -> (r: Option<String>)
        ensures
            r matches Some(a) ==> exists|i: int|
                0 <= i < self.clients().len() && (#[trigger] self.clients()[i]).is_open()
                    && self.clients()[i].address@ == a@,
            r is None ==> !self.has_open_session(),
    {
        match self.find_open_session() {
            Some(i) => Some(self.clients[i].address.clone()),
            None => None,
        }
    }

    /// Sends `packet` to the client at index `i` through its shipper at time
    /// `now`, adding the datagram to `out`.
    fn ship(&mut self, i: usize, packet: &ServerPacket, now: u64, out: &mut Vec<Datagram>)
        requires
            old(self).wf(),
            i < old(self).clients().len(),
        ensures
            final(self).wf(),
            final(self).hashes() == old(self).hashes(),
            final(self).spec_port() == old(self).spec_port(),
            final(self).last_heartbeat() == old(self).last_heartbeat(),
            changed_only_shipper_at(old(self).clients(), final(self).clients(), i as int),
            shipped(old(self).clients()[i as int].shipper, final(self).clients()[i as int].shipper, packet@, now),
            datagrams(final(out)@) == datagrams(old(out)@) + reply(old(self).clients()[i as int], packet@),
    {
        let mut c = self.clients.remove(i);
        ship_to(&mut c, packet, now, out);
        self.clients.insert(i, c);
        assert(self.clients() =~= old(self).clients().update(i as int, c));
    }

    /// Removes the client at address `socket_address`, if there is one, and
    /// hands it back; the others keep their order.
    fn take_client(&mut self, socket_address: &String) -> (r: Option<Client>)
        requires
            old(self).wf(),
        ensures
            final(self).wf(),
            final(self).clients() == old(self).clients().filter(not_at(socket_address@)),
            final(self).hashes() == old(self).hashes(),
            final(self).spec_port() == old(self).spec_port(),
            final(self).last_heartbeat() == old(self).last_heartbeat(),
            old(self).has_client_at(socket_address@) <==> r is Some,
            r matches Some(c) ==> c == old(self).clients()[old(self).index_of(socket_address@)],
    {
        let mut rest: Vec<Client> = Vec::new();
        std::mem::swap(&mut self.clients, &mut rest);
        let ghost orig = rest@;
        let n = rest.len();
        let ghost a = socket_address@;
        let ghost mut idx: Seq<int> = Seq::empty();
        let ghost mut taken_at: int = -1;
        let mut taken: Option<Client> = None;
        let mut i: usize = 0;
        while rest.len() > 0
            invariant
                orig == old(self).clients(),
                orig.len() == n,
                old(self).wf(),
                a == socket_address@,
                i + rest@.len() == orig.len(),
                rest@ == orig.subrange(i as int, orig.len() as int),
                self.clients@ == orig.subrange(0, i as int).filter(not_at(a)),
                self.clients@.len() == idx.len(),
                forall|k: int|
                    0 <= k < idx.len() ==> 0 <= #[trigger] idx[k] < i && self.clients@[k] == orig[idx[k]],
                forall|k: int, l: int| 0 <= k < l < idx.len() ==> #[trigger] idx[k] < #[trigger] idx[l],
                taken is None ==> forall|k: int| 0 <= k < i ==> #[trigger] orig[k].address@ != a,
                taken matches Some(c) ==> 0 <= taken_at < i && orig[taken_at].address@ == a && c
                    == orig[taken_at],
                self.valid_client_hashes == old(self).valid_client_hashes,
                self.port == old(self).port,
                self.last_heartbeat == old(self).last_heartbeat,
            decreases rest@.len(),
        {
            let c = rest.remove(0);
            proof {
                assert(orig.subrange(0, i + 1) =~= orig.subrange(0, i as int).push(orig[i as int]));
                orig.subrange(0, i as int).lemma_filter_push(orig[i as int], not_at(a));
            }
            if c.address == *socket_address {
                taken = Some(c);
                proof {
                    taken_at = i as int;
                }
            } else {
                proof {
                    idx = idx.push(i as int);
                }
                self.clients.push(c);
            }
            i = i + 1;
            assert(rest@ =~= orig.subrange(i as int, orig.len() as int));
        }
        assert(orig.subrange(0, orig.len() as int) =~= orig);
        proof {
            lemma_picked_wf(orig, self.clients@, idx);
            if taken is Some {
                assert(old(self).clients()[taken_at].address@ == a);
                let j = old(self).index_of(a);
                assert(old(self).clients()[j].address@ == a);
            }
        }
        taken
    }

    /// Gives the client at address `socket_address` a session with key `key`.
    /// Succeeds exactly when that client is known, holds no session yet, and
    /// `key` is a well-formed key that no open session has.
    pub fn create_session_with_key(
        &mut self,
        socket_address: &String,
        key: String,
        password_protected: bool,
    ) -> (r: bool)
        requires
            old(self).wf(),
        ensures
            final(self).wf(),
            final(self).hashes() == old(self).hashes(),
            final(self).spec_port() == old(self).spec_port(),
            final(self).last_heartbeat() == old(self).last_heartbeat(),
            r == (old(self).has_client_at(socket_address@) && !old(self).has_session_at(socket_address@)
                && valid_key(key@) && !old(self).key_is_open(key@)),
            r ==> session_installed(
                old(self).clients(),
                final(self).clients(),
                old(self).index_of(socket_address@),
                key@,
                password_protected,
            ),
            !r ==> final(self).clients() == old(self).clients(),
    {
        if !is_valid_key(key.as_str()) {
            return false;
        }
        if self.has_key(key.as_str()) {
            return false;
        }
        match self.find_client(socket_address) {
            None => false,
            Some(i) => {
                proof {
                    let j = self.index_of(socket_address@);
                    assert(self.clients()[j].address@ == socket_address@);
                    assert(j == i);
                }
                if self.clients[i].session.is_some() {
                    return false;
                }
                let mut c = self.clients.remove(i);
                c.session = Some(Session { key, password_protected });
                self.clients.insert(i, c);
                assert(self.clients() =~= old(self).clients().update(i as int, c));
                true
            },
        }
    }

    /// Gives the client at address `socket_address` a session under a fresh
    /// random key, drawing again while the key is taken. `None` when the client
    /// is unknown or already holds a session (or, in principle, when every one
    /// of 2^64 draws collided); never `None` for a known client while no
    /// session is open, since then the first key drawn is free.
    pub fn create_session(&mut self, socket_address: &String, password_protected: bool) -> (r:
        Option<String>)
        requires
            old(self).wf(),
        ensures
            final(self).wf(),
            final(self).hashes() == old(self).hashes(),
            final(self).spec_port() == old(self).spec_port(),
            final(self).last_heartbeat() == old(self).last_heartbeat(),
            !old(self).has_client_at(socket_address@) || old(self).has_session_at(socket_address@)
                ==> r is None,
            old(self).has_client_at(socket_address@) && no_sessions(old(self).clients()) ==> r is Some,
            r matches Some(k) ==> valid_key(k@) && !old(self).key_is_open(k@) && session_installed(
                old(self).clients(),
                final(self).clients(),
                old(self).index_of(socket_address@),
                k@,
                password_protected,
            ),
            r is None ==> final(self).clients() == old(self).clients(),
    {
        if !self.has_client(socket_address) || self.has_session(socket_address) {
            return None;
        }
        let mut attempts: u64 = 0;
        while attempts < u64::MAX
            invariant
                self.wf(),
                self.clients() == old(self).clients(),
                self.hashes() == old(self).hashes(),
                self.spec_port() == old(self).spec_port(),
                self.last_heartbeat() == old(self).last_heartbeat(),
                self.has_client_at(socket_address@),
                !self.has_session_at(socket_address@),
                no_sessions(self.clients()) ==> attempts == 0,
            decreases u64::MAX - attempts,
        {
            let key = generate_key();
            if !self.has_key(key.as_str()) {
                let done = self.create_session_with_key(socket_address, key.clone(), password_protected);
                assert(done);
                return Some(key);
            }
            attempts = attempts + 1;
        }
        None
    }

    /// Passes the acknowledgement of sequence id `x` to the shipper of the
    /// client at index `i`.
    fn acknowledge_at(&mut self, i: usize, x: u64)
        requires
            old(self).wf(),
            i < old(self).clients().len(),
        ensures
            final(self).wf(),
            final(self).hashes() == old(self).hashes(),
            final(self).spec_port() == old(self).spec_port(),
            final(self).last_heartbeat() == old(self).last_heartbeat(),
            acked_at(old(self).clients(), final(self).clients(), i as int, x),
    {
        let mut c = self.clients.remove(i);
        c.shipper.acknowledge(x);
        self.clients.insert(i, c);
        assert(self.clients() =~= old(self).clients().update(i as int, c));
    }

    /// Matches the client at index `i` with the client at index `t`: each is
    /// sent the other's address, then both leave the table.
    fn pair(&mut self, i: usize, t: usize, now: u64, out: &mut Vec<Datagram>)
        requires
            old(self).wf(),
            i < old(self).clients().len(),
            t < old(self).clients().len(),
        ensures
            final(self).wf(),
            final(self).hashes() == old(self).hashes(),
            final(self).spec_port() == old(self).spec_port(),
            final(self).last_heartbeat() == old(self).last_heartbeat(),
            paired(
                old(self).clients(),
                final(self).clients(),
                datagrams(final(out)@).subrange(old(out)@.len() as int, final(out)@.len() as int),
                i as int,
                t as int,
            ),
            datagrams(final(out)@).subrange(0, old(out)@.len() as int) == datagrams(old(out)@),
    {
        let ghost cs = self.clients();
        let ghost start = datagrams(out@);
        let a = self.clients[i].address.clone();
        let ta = self.clients[t].address.clone();
        proof {
            let j = self.index_of(ta@);
            assert(cs[j].address@ == ta@);
            assert(j == t);
        }
        let mut target = match self.take_client(&ta) {
            Some(c) => c,
            None => return ,
        };
        let ghost mid = self.clients();
        if i == t {
            ship_to(&mut target, &ServerPacket::Join { client_addr: ta }, now, out);
            ship_to(&mut target, &ServerPacket::Join { client_addr: a }, now, out);
            proof {
                assert forall|k: int| 0 <= k < mid.len() implies #[trigger] not_at(a@)(mid[k]) by {
                    cs.lemma_filter_pred(not_at(ta@), k);
                }
                lemma_filter_all_kept(mid, not_at(a@));
                assert(datagrams(out@).subrange(start.len() as int, datagrams(out@).len() as int)
                    =~= reply(cs[i as int], ServerMsg::Join { client_addr: ta@ }) + reply_with(
                    a@,
                    next_after(cs[i as int].shipper.next_id()),
                    ServerMsg::Join { client_addr: a@ },
                ));
            }
        } else {
            proof {
                assert(not_at(ta@)(cs[i as int]));
                cs.lemma_filter_contains(not_at(ta@), i as int);
                assert(mid.contains(cs[i as int]));
                let p = choose|p: int| 0 <= p < mid.len() && mid[p] == cs[i as int];
                assert(mid[p].address@ == a@);
            }
            let mut c = match self.take_client(&a) {
                Some(c) => c,
                None => return ,
            };
            proof {
                let q = mid_index(mid, a@);
                assert(mid[q].address@ == a@);
                assert(mid.contains(mid[q]));
                cs.lemma_filter_contains_rev(not_at(ta@), mid[q]);
                let r = choose|r: int| 0 <= r < cs.len() && cs[r] == mid[q];
                assert(cs[r].address@ == a@);
                assert(r == i);
                assert(c == cs[i as int]);
            }
            ship_to(&mut c, &ServerPacket::Join { client_addr: ta }, now, out);
            ship_to(&mut target, &ServerPacket::Join { client_addr: a }, now, out);
            proof {
                assert(datagrams(out@).subrange(start.len() as int, datagrams(out@).len() as int)
                    =~= reply(cs[i as int], ServerMsg::Join { client_addr: ta@ }) + reply(
                    cs[t as int],
                    ServerMsg::Join { client_addr: a@ },
                ));
            }
        }
        assert(datagrams(out@).subrange(0, start.len() as int) =~= start);
    }

    /// Takes in the packet `packet` with sequence id `id` from the client at
    /// address `socket_address`, at time `now`, and returns the datagrams to send.
    /// Packets from unknown clients are ignored.
    pub fn handle_packet(
        &mut self,
        socket_address: &String,
        id: u64,
        packet: ClientPacket,
        now: u64,
    ) -> (r: Vec<Datagram>)
        requires
            old(self).wf(),
        ensures
            final(self).wf(),
            handled(*old(self), *final(self), socket_address@, id, packet@, now, datagrams(r@)),
    {
        let mut out: Vec<Datagram> = Vec::new();
        let i = match self.find_client(socket_address) {
            Some(i) => i,
            None => {
                assert(datagrams(out@) =~= Seq::empty());
                return out;
            },
        };
        proof {
            let j = self.index_of(socket_address@);
            assert(self.clients()[j].address@ == socket_address@);
            assert(j == i);
        }
        let ghost m = packet@;
        match packet {
            ClientPacket::Ping => {
                self.ship(i, &ServerPacket::Pong, now, &mut out);
                assert(datagrams(out@) =~= reply(old(self).clients()[i as int], ServerMsg::Pong));
            },
            ClientPacket::Ack { id: acked_id } => {
                self.acknowledge_at(i, acked_id);
            },
            ClientPacket::Create { client_hash, password_protected } => {
                if !self.valid_client_hash(client_hash.as_str()) {
                    return out;
                }
                match self.create_session(socket_address, password_protected) {
                    Some(key) => {
                        self.ship(i, &ServerPacket::Create { session_key: key }, now, &mut out);
                        proof {
                            let cs = old(self).clients();
                            assert(m->Create_password_protected == password_protected);
                            assert(created(cs, self.clients(), i as int, key@, password_protected, now));
                            assert(datagrams(out@) =~= reply(cs[i as int], ServerMsg::Create { session_key: key@ }));
                        }
                    },
                    None => {
                        let message = "Session failed to create".to_owned();
                        self.ship(i, &ServerPacket::Error { id, message }, now, &mut out);
                        assert(datagrams(out@) =~= reply(
                            old(self).clients()[i as int],
                            ServerMsg::Error { id, message: "Session failed to create"@ },
                        ));
                    },
                }
            },
            ClientPacket::Join { client_hash, session_key } => {
                if !self.valid_client_hash(client_hash.as_str()) {
                    return out;
                }
                if session_key.as_str().is_empty() {
                    match self.find_open_session() {
                        Some(t) => {
                            self.pair(i, t, now, &mut out);
                            assert(first_open(old(self).clients(), t as int));
                        },
                        None => {
                            let message = "No open session found".to_owned();
                            self.ship(i, &ServerPacket::Error { id, message }, now, &mut out);
                        },
                    }
                } else {
                    match self.find_session(session_key.as_str()) {
                        Some(t) => {
                            self.pair(i, t, now, &mut out);
                            assert(old(self).clients()[t as int].holds_key(session_key@));
                        },
                        None => {
                            let message = "No session found with key".to_owned();
                            self.ship(i, &ServerPacket::Error { id, message }, now, &mut out);
                        },
                    }
                }
            },
            ClientPacket::Close => {
                self.take_client(socket_address);
            },
        }
        proof {
            assert(datagrams(out@).subrange(0, 0) =~= Seq::empty());
            assert(datagrams(out@).subrange(0, out@.len() as int) =~= datagrams(out@));
            assert(datagrams(out@) =~= Seq::empty() + datagrams(out@));
        }
        out
    }

    /// Removes every client not heard from for longer than [`MAX_SILENCE_MS`]
    /// at `now`, sending each a close packet through its shipper, in table order.
    pub fn evict_silent_clients(&mut self, now: u64) -> (r: Vec<Datagram>)
        requires
            old(self).wf(),
        ensures
            final(self).wf(),
            final(self).hashes() == old(self).hashes(),
            final(self).spec_port() == old(self).spec_port(),
            final(self).last_heartbeat() == old(self).last_heartbeat(),
            final(self).clients() == old(self).clients().filter(still_heard(now)),
            datagrams(r@) == notices(old(self).clients().filter(silent(now)), ServerMsg::Close),
    {
        let mut out: Vec<Datagram> = Vec::new();
        let mut rest: Vec<Client> = Vec::new();
        std::mem::swap(&mut self.clients, &mut rest);
        let ghost orig = rest@;
        let n = rest.len();
        let ghost mut idx: Seq<int> = Seq::empty();
        let mut i: usize = 0;
        while rest.len() > 0
            invariant
                orig == old(self).clients(),
                orig.len() == n,
                old(self).wf(),
                i + rest@.len() == orig.len(),
                rest@ == orig.subrange(i as int, orig.len() as int),
                self.clients@ == orig.subrange(0, i as int).filter(still_heard(now)),
                datagrams(out@) == notices(orig.subrange(0, i as int).filter(silent(now)), ServerMsg::Close),
                self.clients@.len() == idx.len(),
                forall|k: int|
                    0 <= k < idx.len() ==> 0 <= #[trigger] idx[k] < i && self.clients@[k] == orig[idx[k]],
                forall|k: int, l: int| 0 <= k < l < idx.len() ==> #[trigger] idx[k] < #[trigger] idx[l],
                self.valid_client_hashes == old(self).valid_client_hashes,
                self.port == old(self).port,
                self.last_heartbeat == old(self).last_heartbeat,
            decreases rest@.len(),
        {
            let mut c = rest.remove(0);
            let ghost before = orig.subrange(0, i as int);
            proof {
                assert(orig.subrange(0, i + 1) =~= before.push(orig[i as int]));
                before.lemma_filter_push(orig[i as int], still_heard(now));
                before.lemma_filter_push(orig[i as int], silent(now));
            }
            if elapsed(now, c.reciever.get_last_message_time()) > MAX_SILENCE_MS {
                let ghost gone = before.filter(silent(now)).push(c);
                proof {
                    assert(gone.drop_last() =~= before.filter(silent(now)));
                    assert(old(self).clients()[i as int].wf());
                }
                ship_to(&mut c, &ServerPacket::Close, now, &mut out);
            } else {
                proof {
                    idx = idx.push(i as int);
                }
                self.clients.push(c);
            }
            i = i + 1;
            assert(rest@ =~= orig.subrange(i as int, orig.len() as int));
        }
        assert(orig.subrange(0, orig.len() as int) =~= orig);
        proof {
            lemma_picked_wf(orig, self.clients@, idx);
        }
        out
    }

    /// Sends a heartbeat to every client through its shipper at time `now`.
    pub fn broadcast_heartbeat(&mut self, now: u64) -> (r: Vec<Datagram>)
        requires
            old(self).wf(),
        ensures
            final(self).wf(),
            final(self).hashes() == old(self).hashes(),
            final(self).spec_port() == old(self).spec_port(),
            final(self).last_heartbeat() == old(self).last_heartbeat(),
            all_pinged(old(self).clients(), final(self).clients(), now),
            datagrams(r@) == notices(old(self).clients(), ServerMsg::Pong),
    {
        let ghost orig = self.clients();
        let mut out: Vec<Datagram> = Vec::new();
        let mut i: usize = 0;
        while i < self.clients.len()
            invariant
                self.wf(),
                orig == old(self).clients(),
                self.clients().len() == orig.len(),
                i <= orig.len(),
                forall|j: int|
                    0 <= j < i ==> same_but_shipper(orig[j], #[trigger] self.clients()[j]) && shipped(
                        orig[j].shipper,
                        self.clients()[j].shipper,
                        ServerMsg::Pong,
                        now,
                    ),
                forall|j: int| i <= j < orig.len() ==> #[trigger] self.clients()[j] == orig[j],
                datagrams(out@) == notices(orig.subrange(0, i as int), ServerMsg::Pong),
                self.hashes() == old(self).hashes(),
                self.spec_port() == old(self).spec_port(),
                self.last_heartbeat() == old(self).last_heartbeat(),
            decreases orig.len() - i,
        {
            self.ship(i, &ServerPacket::Pong, now, &mut out);
            proof {
                let s = orig.subrange(0, i + 1);
                assert(s.drop_last() =~= orig.subrange(0, i as int));
                assert(s.last() == orig[i as int]);
            }
            i = i + 1;
        }
        assert(orig.subrange(0, orig.len() as int) =~= orig);
        out
    }

    /// The clock tick at time `now`: evicts the clients silent for longer than
    /// [`MAX_SILENCE_MS`], sending each a close packet, then, when
    /// [`HEARTBEAT_INTERVAL_MS`] has passed since the last heartbeat, sends one
    /// to every client left.
    pub fn tick(&mut self, now: u64) -> (r: Vec<Datagram>)
        requires
            old(self).wf(),
        ensures
            final(self).wf(),
            final(self).hashes() == old(self).hashes(),
            final(self).spec_port() == old(self).spec_port(),
            ({
                let kept = old(self).clients().filter(still_heard(now));
                let closes = notices(old(self).clients().filter(silent(now)), ServerMsg::Close);
                if age(now, old(self).last_heartbeat()) >= HEARTBEAT_INTERVAL_MS {
                    &&& final(self).last_heartbeat() == now
                    &&& all_pinged(kept, final(self).clients(), now)
                    &&& datagrams(r@) == closes + notices(kept, ServerMsg::Pong)
                } else {
                    &&& final(self).last_heartbeat() == old(self).last_heartbeat()
                    &&& final(self).clients() == kept
                    &&& datagrams(r@) == closes
                }
            }),
    {
        let mut out = self.evict_silent_clients(now);
        if elapsed(now, self.last_heartbeat) >= HEARTBEAT_INTERVAL_MS {
            let ghost prev = out@;
            let mut beats = self.broadcast_heartbeat(now);
            out.append(&mut beats);
            self.last_heartbeat = now;
            assert(datagrams(out@) =~= datagrams(prev) + notices(
                old(self).clients().filter(still_heard(now)),
                ServerMsg::Pong,
            ));
        }
        out
    }

    /// For each client, in table order, the datagrams its shipper has due again
    /// at `now` (see [`PacketShipper::resend_unacknowledged_packets`]); a caller
    /// sends each client's in order and stops at the first that fails.
    pub fn resend_unacknowledged_packets(&self, now: u64) -> (r: Vec<Vec<Datagram>>)
        ensures
            r@.len() == self.clients().len(),
            forall|j: int|
                0 <= j < r@.len() ==> datagrams((#[trigger] r@[j])@) == addressed(
                    self.clients()[j].address@,
                    due(self.clients()[j].shipper.backlog(), now),
                ),
    {
        let mut all: Vec<Vec<Datagram>> = Vec::new();
        let mut j: usize = 0;
        while j < self.clients.len()
            invariant
                j <= self.clients().len(),
                all@.len() == j,
                forall|q: int|
                    0 <= q < j ==> datagrams((#[trigger] all@[q])@) == addressed(
                        self.clients()[q].address@,
                        due(self.clients()[q].shipper.backlog(), now),
                    ),
            decreases self.clients().len() - j,
        {
            let c = &self.clients[j];
            let ready = c.shipper.resend_unacknowledged_packets(now);
            let mut mine: Vec<Datagram> = Vec::new();
            let mut k: usize = 0;
            while k < ready.len()
                invariant
                    k <= ready@.len(),
                    j < self.clients().len(),
                    c == self.clients()[j as int],
                    datagrams(mine@) == addressed(c.address@, byte_views(ready@).subrange(0, k as int)),
                decreases ready@.len() - k,
            {
                let ghost prev = mine@;
                mine.push(Datagram { to: c.address.clone(), bytes: copy_bytes(&ready[k]) });
                proof {
                    let bv = byte_views(ready@);
                    let item = DatagramModel { to: c.address@, bytes: ready@[k as int]@ };
                    assert(bv[k as int] == ready@[k as int]@);
                    assert(bv.subrange(0, k + 1) =~= bv.subrange(0, k as int).push(bv[k as int]));
                    assert(addressed(c.address@, bv.subrange(0, k as int).push(bv[k as int]))
                        =~= addressed(c.address@, bv.subrange(0, k as int)).push(item));
                    assert(datagrams(mine@) =~= datagrams(prev).push(item));
                    assert(datagrams(mine@) =~= addressed(
                        c.address@,
                        byte_views(ready@).subrange(0, k + 1),
                    ));
                }
                k = k + 1;
            }
            assert(byte_views(ready@).subrange(0, k as int) =~= byte_views(ready@));
            all.push(mine);
            j = j + 1;
        }
        all
    }

    /// Takes in a datagram's sequence id `id` and packet from address
    /// `socket_address` at time `now`: a client not seen before is added, the
    /// client's receiver acknowledges the id and drops it if it is old, and a
    /// new packet is then handled. Returns the acknowledgement, then what the
    /// packet caused.
    pub fn receive(&mut self, socket_address: &String, id: u64, packet: ClientPacket, now: u64) -> (r:
        Vec<Datagram>)
        requires
            old(self).wf(),
        ensures
            final(self).wf(),
            r@.len() >= 1,
            r@[0]@ == (DatagramModel {
                to: socket_address@,
                bytes: framed(id, ServerMsg::Ack { id }),
            }),
            exists|mid: Server|
                #[trigger] sorted_in(*old(self), mid, socket_address@, id, now) && mid.wf() && (if fresh(
                    *old(self),
                    socket_address@,
                    id,
                ) {
                    handled(mid, *final(self), socket_address@, id, packet@, now, datagrams(r@).skip(1))
                } else {
                    *final(self) == mid && r@.len() == 1
                }),
    {
        let ghost m = packet@;
        let mut out: Vec<Datagram> = Vec::new();
        let forwarded = match self.find_client(socket_address) {
            Some(i) => {
                proof {
                    let j = self.index_of(socket_address@);
                    assert(self.clients()[j].address@ == socket_address@);
                    assert(j == i);
                }
                let mut c = self.clients.remove(i);
                let (fwd, ack) = c.reciever.sort_packets(now, id, packet);
                self.clients.insert(i, c);
                assert(self.clients() =~= old(self).clients().update(i as int, c));
                out.push(Datagram { to: socket_address.clone(), bytes: ack });
                assert(sorted_in(*old(self), *self, socket_address@, id, now));
                assert(fwd is Some <==> fresh(*old(self), socket_address@, id));
                fwd
            },
            None => {
                let mut c = Client {
                    address: socket_address.clone(),
                    reciever: PacketReciever::new(socket_address.clone(), now),
                    shipper: PacketShipper::new(socket_address.clone()),
                    session: None,
                };
                let (fwd, ack) = c.reciever.sort_packets(now, id, packet);
                self.clients.push(c);
                out.push(Datagram { to: socket_address.clone(), bytes: ack });
                assert(self.clients().drop_last() =~= old(self).clients());
                assert(sorted_in(*old(self), *self, socket_address@, id, now));
                assert(fwd is Some <==> fresh(*old(self), socket_address@, id));
                fwd
            },
        };
        match forwarded {
            Some(p) => {
                let mut more = self.handle_packet(socket_address, id, p, now);
                let ghost sent = more@;
                out.append(&mut more);
                assert(datagrams(out@).skip(1) =~= datagrams(sent));
            },
            None => {},
        }
        out
    }
}

/// Filtering keeps everything when every element passes.
proof fn lemma_filter_all_kept(s: Seq<Client>, p: spec_fn(Client) -> bool)
    requires
        forall|k: int| 0 <= k < s.len() ==> #[trigger] p(s[k]),
    ensures
        s.filter(p) == s,
    decreases s.len(),
{
    reveal(Seq::filter);
    if s.len() > 0 {
        lemma_filter_all_kept(s.drop_last(), p);
    }
    assert(s.filter(p) =~= s);
}

/// The index of the client at address `a` in `cs`.
spec fn mid_index(cs: Seq<Client>, a: Seq<char>) -> int {
    choose|i: int| 0 <= i < cs.len() && #[trigger] cs[i].address@ == a
}

/// In a well-formed server, which every operation keeps, no two open sessions
/// share a key, and every key is seven ASCII letters or digits.
pub proof fn lemma_open_keys_unique(s: Server, i: int, j: int)
    requires
        s.wf(),
        0 <= i < s.clients().len(),
        0 <= j < s.clients().len(),
        i != j,
        s.clients()[i].session is Some,
        s.clients()[j].session is Some,
    ensures
        s.clients()[i].session->0.key@ != s.clients()[j].session->0.key@,
        valid_key(s.clients()[i].session->0.key@),
{
    assert(s.clients()[i].wf());
}

/// A second create from a client that already holds a session is answered
/// with an error, and its session stays as it was.
pub proof fn lemma_second_create_fails(
    old: Server,
    new: Server,
    a: Seq<char>,
    id: u64,
    client_hash: Seq<char>,
    password_protected: bool,
    now: u64,
    out: Seq<DatagramModel>,
)
    requires
        old.wf(),
        old.has_session_at(a),
        old.hash_allowed(client_hash),
        handled(old, new, a, id, ClientMsg::Create { client_hash, password_protected }, now, out),
    ensures
        out == reply(
            old.clients()[old.index_of(a)],
            ServerMsg::Error { id, message: "Session failed to create"@ },
        ),
        new.clients()[old.index_of(a)].session == old.clients()[old.index_of(a)].session,
        replied(
            old.clients(),
            new.clients(),
            old.index_of(a),
            ServerMsg::Error { id, message: "Session failed to create"@ },
            now,
        ),
{
    let k = choose|k: int|
        0 <= k < old.clients().len() && #[trigger] old.clients()[k].address@ == a
            && old.clients()[k].session is Some;
    assert(old.has_client_at(a));
    let i = old.index_of(a);
    assert(k == i);
}

/// A join with an empty key never matches a password-protected session: when
/// every session is protected, the requester is told that none was found, and
/// no client leaves the table.
pub proof fn lemma_keyless_join_skips_protected(
    old: Server,
    new: Server,
    a: Seq<char>,
    id: u64,
    client_hash: Seq<char>,
    now: u64,
    out: Seq<DatagramModel>,
)
    requires
        old.wf(),
        old.has_client_at(a),
        old.hash_allowed(client_hash),
        forall|j: int|
            0 <= j < old.clients().len() && (#[trigger] old.clients()[j]).session is Some
                ==> old.clients()[j].session->0.password_protected,
        handled(old, new, a, id, ClientMsg::Join { client_hash, session_key: Seq::empty() }, now, out),
    ensures
        out == reply(
            old.clients()[old.index_of(a)],
            ServerMsg::Error { id, message: "No open session found"@ },
        ),
        new.clients().len() == old.clients().len(),
{
    assert(!old.has_open_session());
}

/// A client silent for longer than [`MAX_SILENCE_MS`] at `now` is left out of
/// the table a tick keeps, and is among those a tick sends a close packet.
pub proof fn lemma_silent_client_evicted(cs: Seq<Client>, now: u64, i: int)
    requires
        clients_wf(cs),
        0 <= i < cs.len(),
        age(now, cs[i].reciever.last_heard()) > MAX_SILENCE_MS,
    ensures
        forall|k: int|
            0 <= k < cs.filter(still_heard(now)).len() ==> (#[trigger] cs.filter(
                still_heard(now),
            )[k]).address@ != cs[i].address@,
        cs.filter(silent(now)).contains(cs[i]),
{
    let kept = cs.filter(still_heard(now));
    assert forall|k: int| 0 <= k < kept.len() implies (#[trigger] kept[k]).address@ != cs[i].address@ by {
        cs.lemma_filter_pred(still_heard(now), k);
        assert(kept.contains(kept[k]));
        cs.lemma_filter_contains_rev(still_heard(now), kept[k]);
        let p = choose|p: int| 0 <= p < cs.len() && cs[p] == kept[k];
        if p == i {
            assert(false);
        }
    }
    cs.lemma_filter_contains(silent(now), i);
}

/// An element of `cs` filtered twice passes both filters and comes from `cs`.
proof fn lemma_twice_filtered(
    cs: Seq<Client>,
    p: spec_fn(Client) -> bool,
    q: spec_fn(Client) -> bool,
    k: int,
)
    requires
        0 <= k < cs.filter(p).filter(q).len(),
    ensures
        p(cs.filter(p).filter(q)[k]),
        q(cs.filter(p).filter(q)[k]),
        cs.contains(cs.filter(p).filter(q)[k]),
{
    let mid = cs.filter(p);
    let x = mid.filter(q)[k];
    mid.lemma_filter_pred(q, k);
    assert(mid.filter(q).contains(x));
    mid.lemma_filter_contains_rev(q, x);
    let m = choose|m: int| 0 <= m < mid.len() && mid[m] == x;
    cs.lemma_filter_pred(p, m);
    assert(mid.contains(x));
    cs.lemma_filter_contains_rev(p, x);
}

/// Once the client at index `t` and the client at address `a` are filtered out,
/// neither address is left, and no one holds the key that `t` held.
proof fn lemma_pair_removes_both(cs: Seq<Client>, t: int, a: Seq<char>, key: Seq<char>)
    requires
        clients_wf(cs),
        0 <= t < cs.len(),
        cs[t].holds_key(key) || key.len() == 0,
    ensures
        forall|k: int|
            0 <= k < cs.filter(not_at(cs[t].address@)).filter(not_at(a)).len() ==> {
                let x = #[trigger] cs.filter(not_at(cs[t].address@)).filter(not_at(a))[k];
                &&& x.address@ != a
                &&& x.address@ != cs[t].address@
                &&& (cs[t].holds_key(key) ==> !x.holds_key(key))
            },
{
    let new = cs.filter(not_at(cs[t].address@)).filter(not_at(a));
    assert forall|k: int| 0 <= k < new.len() implies {
        let x = #[trigger] new[k];
        &&& x.address@ != a
        &&& x.address@ != cs[t].address@
        &&& (cs[t].holds_key(key) ==> !x.holds_key(key))
    } by {
        lemma_twice_filtered(cs, not_at(cs[t].address@), not_at(a), k);
        let x = new[k];
        let p = choose|p: int| 0 <= p < cs.len() && cs[p] == x;
        if cs[t].holds_key(key) && x.holds_key(key) {
            assert(cs[p].session is Some && cs[t].session is Some);
            assert(p == t);
        }
    }
}

/// A keyed join that finds the session pairs the two clients: each is sent the
/// other's address, then neither is in the table and no open session has the
/// key any more.
pub proof fn lemma_keyed_join_pairs(
    old: Server,
    new: Server,
    a: Seq<char>,
    id: u64,
    client_hash: Seq<char>,
    session_key: Seq<char>,
    now: u64,
    out: Seq<DatagramModel>,
)
    requires
        old.wf(),
        old.has_client_at(a),
        old.hash_allowed(client_hash),
        session_key.len() > 0,
        old.key_is_open(session_key),
        handled(old, new, a, id, ClientMsg::Join { client_hash, session_key }, now, out),
    ensures
        exists|t: int|
            0 <= t < old.clients().len() && (#[trigger] old.clients()[t]).holds_key(session_key)
                && paired(old.clients(), new.clients(), out, old.index_of(a), t)
                && !new.has_client_at(old.clients()[t].address@),
        !new.has_client_at(a),
        !new.key_is_open(session_key),
{
    let cs = old.clients();
    let t = choose|t: int|
        0 <= t < cs.len() && (#[trigger] cs[t]).holds_key(session_key) && paired(
            cs,
            new.clients(),
            out,
            old.index_of(a),
            t,
        );
    lemma_pair_removes_both(cs, t, a, session_key);
    let ns = new.clients();
    assert(!new.has_client_at(cs[t].address@)) by {
        if new.has_client_at(cs[t].address@) {
            let k = choose|k: int| 0 <= k < ns.len() && #[trigger] ns[k].address@ == cs[t].address@;
            assert(ns[k] == cs.filter(not_at(cs[t].address@)).filter(not_at(a))[k]);
        }
    }
    assert(!new.has_client_at(a)) by {
        if new.has_client_at(a) {
            let k = choose|k: int| 0 <= k < ns.len() && #[trigger] ns[k].address@ == a;
            assert(ns[k] == cs.filter(not_at(cs[t].address@)).filter(not_at(a))[k]);
        }
    }
    assert(!new.key_is_open(session_key)) by {
        if new.key_is_open(session_key) {
            let k = choose|k: int| 0 <= k < ns.len() && (#[trigger] ns[k]).holds_key(session_key);
            assert(ns[k] == cs.filter(not_at(cs[t].address@)).filter(not_at(a))[k]);
        }
    }
}

/// A keyed join for a key that no open session has is answered with an error,
/// and nothing but the requester's shipper changes.
pub proof fn lemma_join_unknown_key_fails(
    old: Server,
    new: Server,
    a: Seq<char>,
    id: u64,
    client_hash: Seq<char>,
    session_key: Seq<char>,
    now: u64,
    out: Seq<DatagramModel>,
)
    requires
        old.wf(),
        old.has_client_at(a),
        old.hash_allowed(client_hash),
        session_key.len() > 0,
        !old.key_is_open(session_key),
        handled(old, new, a, id, ClientMsg::Join { client_hash, session_key }, now, out),
    ensures
        out == reply(
            old.clients()[old.index_of(a)],
            ServerMsg::Error { id, message: "No session found with key"@ },
        ),
        replied(
            old.clients(),
            new.clients(),
            old.index_of(a),
            ServerMsg::Error { id, message: "No session found with key"@ },
            now,
        ),
{
}

/// A join with an empty key, while some session is not password protected,
/// pairs the requester with a client whose session is not password protected;
/// afterwards neither is in the table.
pub proof fn lemma_keyless_join_pairs_open(
    old: Server,
    new: Server,
    a: Seq<char>,
    id: u64,
    client_hash: Seq<char>,
    now: u64,
    out: Seq<DatagramModel>,
)
    requires
        old.wf(),
        old.has_client_at(a),
        old.hash_allowed(client_hash),
        old.has_open_session(),
        handled(old, new, a, id, ClientMsg::Join { client_hash, session_key: Seq::empty() }, now, out),
    ensures
        exists|t: int|
            #[trigger] first_open(old.clients(), t) && !old.clients()[t].session->0.password_protected
                && paired(old.clients(), new.clients(), out, old.index_of(a), t)
                && !new.has_client_at(old.clients()[t].address@),
        !new.has_client_at(a),
{
    let cs = old.clients();
    let t = choose|t: int| #[trigger] first_open(cs, t) && paired(cs, new.clients(), out, old.index_of(a), t);
    lemma_pair_removes_both(cs, t, a, Seq::empty());
    let ns = new.clients();
    assert(!new.has_client_at(cs[t].address@)) by {
        if new.has_client_at(cs[t].address@) {
            let k = choose|k: int| 0 <= k < ns.len() && #[trigger] ns[k].address@ == cs[t].address@;
            assert(ns[k] == cs.filter(not_at(cs[t].address@)).filter(not_at(a))[k]);
        }
    }
    assert(!new.has_client_at(a)) by {
        if new.has_client_at(a) {
            let k = choose|k: int| 0 <= k < ns.len() && #[trigger] ns[k].address@ == a;
            assert(ns[k] == cs.filter(not_at(cs[t].address@)).filter(not_at(a))[k]);
        }
    }
}

} // verus!
