//! Per-client reliable delivery over unreliable datagrams.
//!
//! A [`PacketShipper`] numbers what the server sends to one client and keeps
//! each datagram until the client acknowledges it; a [`PacketReciever`]
//! acknowledges what one client sends and drops what it has seen before.
//! Time is a count of milliseconds from a clock the caller keeps.
use vstd::prelude::*;
use vstd::bytes::spec_u64_to_le_bytes;
use crate::codec::{
    ClientPacket,
    ServerPacket,
    ServerMsg,
    build_server_packet,
    push_all,
    server_packet_bytes,
    write_u64,
};

verus! {

/// The milliseconds between two clock ticks.
pub const TICK_INTERVAL_MS: u64 = 100;

/// How old an unacknowledged datagram must be before it is sent again: one tick.
pub const RETRY_DELAY_MS: u64 = TICK_INTERVAL_MS;

/// Milliseconds from `then` to `now`; a clock that went backwards counts as none.
pub open spec fn age(now: u64, then: u64) -> int {
    if now >= then {
        now - then
    } else {
        0
    }
}

/// Milliseconds from `then` to `now`; a clock that went backwards counts as none.
pub fn elapsed(now: u64, then: u64) -> (r: u64)
    ensures
        r == age(now, then),
{
    if now >= then {
        now - then
    } else {
        0
    }
}

/// A datagram as it goes out: the sequence id, then the packet's bytes.
pub open spec fn framed(id: u64, m: ServerMsg) -> Seq<u8> {
    spec_u64_to_le_bytes(id) + server_packet_bytes(m)
}

/// A copy of `v`.
pub(crate) fn copy_bytes(v: &Vec<u8>) -> (r: Vec<u8>)
    ensures
        r@ == v@,
{
    let r = v.clone();
    assert(r@ =~= v@);
    r
}

/// Keeps the backlog entries older than [`RETRY_DELAY_MS`] at `now`.
pub open spec fn is_due(now: u64) -> spec_fn(PacketModel) -> bool {
    |p: PacketModel| age(now, p.creation_time) > RETRY_DELAY_MS
}

/// The bytes of the backlog entries due again at `now`, oldest first.
pub open spec fn due(b: Seq<PacketModel>, now: u64) -> Seq<Seq<u8>> {
    b.filter(is_due(now)).map_values(|p: PacketModel| p.data)
}

/// The views of a sequence of byte vectors.
pub open spec fn byte_views(v: Seq<Vec<u8>>) -> Seq<Seq<u8>> {
    v.map_values(|d: Vec<u8>| d@)
}

/// A datagram sent and not yet acknowledged.
pub struct Packet {
    pub id: u64,
    pub creation_time: u64,
    pub data: Vec<u8>,
}

/// What a [`Packet`] holds.
pub struct PacketModel {
    pub id: u64,
    pub creation_time: u64,
    pub data: Seq<u8>,
}

impl View for Packet {
    type V = PacketModel;

    open spec fn view(&self) -> PacketModel {
        PacketModel { id: self.id, creation_time: self.creation_time, data: self.data@ }
    }
}

/// True when the ids of `b` rise strictly from oldest to newest.
pub open spec fn ids_increasing(b: Seq<PacketModel>) -> bool {
    forall|i: int, j: int| 0 <= i < j < b.len() ==> #[trigger] b[i].id < #[trigger] b[j].id
}

/// True when some entry of `b` has sequence id `id`.
pub open spec fn has_id(b: Seq<PacketModel>, id: u64) -> bool {
    exists|i: int| 0 <= i < b.len() && #[trigger] b[i].id == id
}

/// `b` once `id` is acknowledged: without the entry of that id, if there is one.
pub open spec fn acked(b: Seq<PacketModel>, id: u64) -> Seq<PacketModel> {
    if has_id(b, id) {
        b.remove(choose|i: int| 0 <= i < b.len() && #[trigger] b[i].id == id)
    } else {
        b
    }
}

/// Acknowledging one id twice leaves the backlog as acknowledging it once.
pub proof fn lemma_ack_idempotent(b: Seq<PacketModel>, id: u64)
    requires
        ids_increasing(b),
    ensures
        acked(acked(b, id), id) == acked(b, id),
{
    if has_id(b, id) {
        let k = choose|i: int| 0 <= i < b.len() && #[trigger] b[i].id == id;
        let a = b.remove(k);
        assert forall|i: int| 0 <= i < a.len() implies #[trigger] a[i].id != id by {
            if i < k {
                assert(b[i].id < b[k].id);
            } else {
                assert(b[k].id < b[i + 1].id);
            }
        }
    }
}

/// The outbound half of a client's connection.
pub struct PacketShipper {
    socket_address: String,
    next_id: u64,
    backed_up: Vec<Packet>,
}

impl PacketShipper {
    /// The address that this shipper sends to.
    pub closed spec fn address(&self) -> Seq<char> {
        self.socket_address@
    }

    /// The id the next datagram will carry.
    pub closed spec fn next_id(&self) -> u64 {
        self.next_id
    }

    /// The datagrams not yet acknowledged, oldest first.
    pub closed spec fn backlog(&self) -> Seq<PacketModel> {
        self.backed_up@.map_values(|p: Packet| p@)
    }

    /// The ids in the backlog rise, and all lie below the next id.
    pub open spec fn wf(&self) -> bool {
        &&& ids_increasing(self.backlog())
        &&& forall|i: int| 0 <= i < self.backlog().len() ==> #[trigger] self.backlog()[i].id < self.next_id()
    }

    /// True when the shipper has an id left to give.
    pub open spec fn can_send(&self) -> bool {
        self.next_id() < u64::MAX
    }

    pub fn new(socket_address: String) -> (r: PacketShipper)
        ensures
            r.wf(),
            r.address() == socket_address@,
            r.next_id() == 0,
            r.backlog().len() == 0,
    {
        PacketShipper { socket_address, next_id: 0, backed_up: Vec::new() }
    }

    /// True when the shipper has an id left to give.
    pub fn has_id_left(&self) -> (r: bool)
        ensures
            r == self.can_send(),
    {
        self.next_id < u64::MAX
    }

    /// The id the next datagram will carry.
    pub fn next_sequence_id(&self) -> (r: u64)
        ensures
            r == self.next_id(),
    {
        self.next_id
    }

    /// The sequence ids still waiting for an acknowledgement, oldest first.
    pub fn unacknowledged_ids(&self) -> (r: Vec<u64>)
        ensures
            r@ == self.backlog().map_values(|p: PacketModel| p.id),
    {
        let mut ids: Vec<u64> = Vec::new();
        let mut i: usize = 0;
        while i < self.backed_up.len()
            invariant
                i <= self.backed_up@.len(),
                ids@ == self.backlog().subrange(0, i as int).map_values(|p: PacketModel| p.id),
            decreases self.backed_up@.len() - i,
        {
            ids.push(self.backed_up[i].id);
            i = i + 1;
            assert(ids@ =~= self.backlog().subrange(0, i as int).map_values(|p: PacketModel| p.id));
        }
        assert(self.backlog().subrange(0, i as int) =~= self.backlog());
        ids
    }

    /// Frames `packet` with the next sequence id, records it in the backlog with
    /// the time `now`, and returns the datagram to send.
    pub fn send(&mut self, packet: &ServerPacket, now: u64) -> (r: Vec<u8>)
        requires
            old(self).wf(),
            old(self).can_send(),
        ensures
            final(self).wf(),
            r@ == framed(old(self).next_id(), packet@),
            final(self).next_id() == old(self).next_id() + 1,
            final(self).backlog() == old(self).backlog().push(
                PacketModel { id: old(self).next_id(), creation_time: now, data: r@ },
            ),
            final(self).address() == old(self).address(),
    {
        let mut data: Vec<u8> = Vec::new();
        write_u64(&mut data, self.next_id);
        let body = build_server_packet(packet);
        push_all(&mut data, &body);
        let out = copy_bytes(&data);
        self.backed_up.push(Packet { id: self.next_id, creation_time: now, data });
        self.next_id = self.next_id + 1;
        proof {
            assert(self.backlog() =~= old(self).backlog().push(
                PacketModel { id: old(self).next_id(), creation_time: now, data: out@ },
            ));
        }
        out
    }

    /// The datagrams to send again at time `now`: every one older than
    /// [`RETRY_DELAY_MS`], oldest first.
    pub fn resend_unacknowledged_packets(&self, now: u64) -> (r: Vec<Vec<u8>>)
        ensures
            byte_views(r@) == due(self.backlog(), now),
    {
        let mut out: Vec<Vec<u8>> = Vec::new();
        let mut i: usize = 0;
        while i < self.backed_up.len()
            invariant
                i <= self.backed_up@.len(),
                byte_views(out@) == due(self.backlog().subrange(0, i as int), now),
            decreases self.backed_up@.len() - i,
        {
            let packet = &self.backed_up[i];
            let ghost before = self.backlog().subrange(0, i as int);
            proof {
                assert(self.backlog()[i as int] == packet@);
                assert(self.backlog().subrange(0, i + 1) =~= before.push(packet@));
                before.lemma_filter_push(packet@, is_due(now));
            }
            if elapsed(now, packet.creation_time) > RETRY_DELAY_MS {
                let ghost prev = out@;
                out.push(copy_bytes(&packet.data));
                proof {
                    let f = |p: PacketModel| p.data;
                    assert(before.filter(is_due(now)).push(packet@).map_values(f) =~= before.filter(
                        is_due(now),
                    ).map_values(f).push(packet@.data));
                    assert(byte_views(out@) =~= byte_views(prev).push(packet.data@));
                }
            }
            i = i + 1;
        }
        assert(self.backlog().subrange(0, i as int) =~= self.backlog());
        out
    }

    /// Drops the backlog entry with sequence id `id`; no change if there is none.
    pub fn acknowledge(&mut self, id: u64)
        requires
            old(self).wf(),
        ensures
            final(self).wf(),
            final(self).backlog() == acked(old(self).backlog(), id),
            final(self).next_id() == old(self).next_id(),
            final(self).address() == old(self).address(),
    {
        let ghost b = self.backlog();
        let mut i: usize = 0;
        while i < self.backed_up.len()
            invariant
                i <= self.backed_up@.len(),
                self.backlog() == b,
                b == old(self).backlog(),
                self.next_id == old(self).next_id,
                self.socket_address == old(self).socket_address,
                self.wf(),
                forall|k: int| 0 <= k < i ==> #[trigger] b[k].id != id,
            decreases self.backed_up@.len() - i,
        {
            assert(b[i as int].id == self.backed_up@[i as int].id);
            if self.backed_up[i].id == id {
                self.backed_up.remove(i);
                proof {
                    assert(has_id(b, id));
                    let k = choose|k: int| 0 <= k < b.len() && #[trigger] b[k].id == id;
                    if k < i {
                        assert(false);
                    } else if k > i {
                        assert(b[i as int].id < b[k].id);
                    }
                    assert(self.backlog() =~= b.remove(i as int));
                    assert forall|x: int, y: int| 0 <= x < y < self.backlog().len() implies
                        #[trigger] self.backlog()[x].id < #[trigger] self.backlog()[y].id by {
                        let x2 = if x < i { x } else { x + 1 };
                        let y2 = if y < i { y } else { y + 1 };
                        assert(b[x2].id < b[y2].id);
                    }
                    assert forall|x: int| 0 <= x < self.backlog().len() implies
                        #[trigger] self.backlog()[x].id < self.next_id() by {
                        let x2 = if x < i { x } else { x + 1 };
                        assert(b[x2].id < self.next_id());
                    }
                }
                return;
            }
            i = i + 1;
        }
        assert(!has_id(b, id));
    }
}

/// The inbound half of a client's connection.
pub struct PacketReciever {
    socket_address: String,
    highest: Option<u64>,
    last_message_time: u64,
}

impl PacketReciever {
    /// The address that this receiver acknowledges to.
    pub closed spec fn address(&self) -> Seq<char> {
        self.socket_address@
    }

    /// The lowest sequence id not yet passed on: one past the highest seen.
    pub closed spec fn next_expected(&self) -> nat {
        match self.highest {
            Some(h) => (h + 1) as nat,
            None => 0,
        }
    }

    /// When the client was last heard from.
    pub closed spec fn last_heard(&self) -> u64 {
        self.last_message_time
    }

    pub fn new(socket_address: String, now: u64) -> (r: PacketReciever)
        ensures
            r.address() == socket_address@,
            r.next_expected() == 0,
            r.last_heard() == now,
    {
        PacketReciever { socket_address, highest: None, last_message_time: now }
    }

    /// The lowest sequence id that will still be passed on.
    pub fn next_expected_id(&self) -> (r: u128)
        ensures
            r == self.next_expected(),
    {
        match self.highest {
            Some(h) => h as u128 + 1,
            None => 0,
        }
    }

    pub fn get_last_message_time(&self) -> (r: u64)
        ensures
            r == self.last_heard(),
    {
        self.last_message_time
    }

    /// Takes in a packet with sequence id `id` at time `now`. Returns the packet
    /// when it is new, `None` when it is older than one already passed on, and in
    /// both cases the acknowledgement datagram to send back.
    pub fn sort_packets(&mut self, now: u64, id: u64, packet: ClientPacket) -> (r: (
        Option<ClientPacket>,
        Vec<u8>,
    ))
        ensures
            final(self).last_heard() == now,
            final(self).address() == old(self).address(),
            r.1@ == framed(id, ServerMsg::Ack { id }),
            id < old(self).next_expected() ==> r.0 is None && final(self).next_expected()
                == old(self).next_expected(),
            id >= old(self).next_expected() ==> r.0 == Some(packet) && final(self).next_expected()
                == id + 1,
    {
        self.last_message_time = now;
        let ack = self.send_ack(id);
        let fresh = match self.highest {
            Some(h) => id > h,
            None => true,
        };
        if fresh {
            self.highest = Some(id);
            (Some(packet), ack)
        } else {
            (None, ack)
        }
    }

    /// The acknowledgement of sequence id `id`. It is not itself sequenced
    /// (nothing acknowledges it), so its header repeats the id it acknowledges.
    fn send_ack(&self, id: u64) -> (r: Vec<u8>)
        ensures
            r@ == framed(id, ServerMsg::Ack { id }),
    {
        let mut data: Vec<u8> = Vec::new();
        write_u64(&mut data, id);
        let body = build_server_packet(&ServerPacket::Ack { id });
        push_all(&mut data, &body);
        data
    }
}

} // verus!
