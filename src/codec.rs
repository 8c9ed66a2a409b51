//! Binary encoding and decoding of control packets.
//!
//! A datagram is an 8-byte little-endian sequence id, a 2-byte little-endian
//! packet tag, then the fields of that kind of packet. A string field is one
//! length byte followed by at most 255 bytes of UTF-8; longer strings are cut
//! to their first 255 bytes when written. A boolean is one byte, zero meaning
//! false.
use vstd::prelude::*;
use vstd::bytes::{
    lemma_auto_spec_u16_to_from_le_bytes,
    lemma_auto_spec_u64_to_from_le_bytes,
    spec_u16_from_le_bytes,
    spec_u16_to_le_bytes,
    spec_u32_from_le_bytes,
    spec_u32_to_le_bytes,
    spec_u64_from_le_bytes,
    spec_u64_to_le_bytes,
};
use vstd::utf8::{valid_utf8, decode_utf8, encode_utf8, encode_utf8_decode_utf8, encode_utf8_valid_utf8};
use vstd::string::StringSliceAdditionalSpecFns;
use byteorder::{ByteOrder, LittleEndian};

verus! {

broadcast use encode_utf8_decode_utf8;

/// The longest string field, in bytes.
pub const MAX_FIELD_BYTES: u8 = 255;

/// The kinds of packet, as numbered on the wire.
#[derive(PartialEq, Eq, Structural, Clone, Copy, Debug)]
pub enum PacketId {
    PingPong,
    Ack,
    Create,
    Join,
    Close,
    Error,
}

impl PacketId {
    pub open spec fn spec_tag(self) -> u16 {
        match self {
            PacketId::PingPong => 0,
            PacketId::Ack => 1,
            PacketId::Create => 2,
            PacketId::Join => 3,
            PacketId::Close => 4,
            PacketId::Error => 5,
        }
    }

    /// The number that stands for this kind on the wire.
    pub fn tag(self) -> (r: u16)
        ensures
            r == self.spec_tag(),
    {
        match self {
            PacketId::PingPong => 0,
            PacketId::Ack => 1,
            PacketId::Create => 2,
            PacketId::Join => 3,
            PacketId::Close => 4,
            PacketId::Error => 5,
        }
    }

    /// The kind a wire number stands for, if any.
    pub fn from_tag(t: u16) -> (r: Option<PacketId>)
        ensures
            t <= 5 ==> (r matches Some(k) && k.spec_tag() == t),
            t > 5 ==> r is None,
    {
        if t == 0 {
            Some(PacketId::PingPong)
        } else if t == 1 {
            Some(PacketId::Ack)
        } else if t == 2 {
            Some(PacketId::Create)
        } else if t == 3 {
            Some(PacketId::Join)
        } else if t == 4 {
            Some(PacketId::Close)
        } else if t == 5 {
            Some(PacketId::Error)
        } else {
            None
        }
    }
}

/// A packet sent by a client to the server.
#[derive(Debug, PartialEq, Eq)]
pub enum ClientPacket {
    Ping,
    Ack { id: u64 },
    Create { client_hash: String, password_protected: bool },
    Join { client_hash: String, session_key: String },
    Close,
}

/// A packet sent by the server to a client.
#[derive(Debug, PartialEq, Eq)]
pub enum ServerPacket {
    Pong,
    Ack { id: u64 },
    Create { session_key: String },
    Join { client_addr: String },
    Close,
    Error { id: u64, message: String },
}

/// What a client packet says, with its strings as characters.
pub enum ClientMsg {
    Ping,
    Ack { id: u64 },
    Create { client_hash: Seq<char>, password_protected: bool },
    Join { client_hash: Seq<char>, session_key: Seq<char> },
    Close,
}

/// What a server packet says, with its strings as characters.
pub enum ServerMsg {
    Pong,
    Ack { id: u64 },
    Create { session_key: Seq<char> },
    Join { client_addr: Seq<char> },
    Close,
    Error { id: u64, message: Seq<char> },
}

impl View for ClientPacket {
    type V = ClientMsg;

    open spec fn view(&self) -> ClientMsg {
        match self {
            ClientPacket::Ping => ClientMsg::Ping,
            ClientPacket::Ack { id } => ClientMsg::Ack { id: *id },
            ClientPacket::Create { client_hash, password_protected } => ClientMsg::Create {
                client_hash: client_hash@,
                password_protected: *password_protected,
            },
            ClientPacket::Join { client_hash, session_key } => ClientMsg::Join {
                client_hash: client_hash@,
                session_key: session_key@,
            },
            ClientPacket::Close => ClientMsg::Close,
        }
    }
}

impl View for ServerPacket {
    type V = ServerMsg;

    open spec fn view(&self) -> ServerMsg {
        match self {
            ServerPacket::Pong => ServerMsg::Pong,
            ServerPacket::Ack { id } => ServerMsg::Ack { id: *id },
            ServerPacket::Create { session_key } => ServerMsg::Create { session_key: session_key@ },
            ServerPacket::Join { client_addr } => ServerMsg::Join { client_addr: client_addr@ },
            ServerPacket::Close => ServerMsg::Close,
            ServerPacket::Error { id, message } => ServerMsg::Error { id: *id, message: message@ },
        }
    }
}

// ---------------------------------------------------------------------------
// The wire format, as mathematics.
// ---------------------------------------------------------------------------

/// `b` without its first `n` bytes.
pub open spec fn skip(b: Seq<u8>, n: int) -> Seq<u8> {
    b.subrange(n, b.len() as int)
}

/// How many bytes of `s`'s UTF-8 encoding a string field keeps.
pub open spec fn field_len(s: Seq<char>) -> int {
    if encode_utf8(s).len() < 255 {
        encode_utf8(s).len() as int
    } else {
        255
    }
}

/// The string field that holds `s`: its length byte, then its bytes.
pub open spec fn string_field(s: Seq<char>) -> Seq<u8> {
    seq![field_len(s) as u8] + encode_utf8(s).subrange(0, field_len(s))
}

pub open spec fn bool_byte(b: bool) -> u8 {
    if b {
        1
    } else {
        0
    }
}

pub open spec fn tag_bytes(k: PacketId) -> Seq<u8> {
    spec_u16_to_le_bytes(k.spec_tag())
}

/// The bytes of a client packet after the sequence id.
pub open spec fn client_packet_bytes(m: ClientMsg) -> Seq<u8> {
    match m {
        ClientMsg::Ping => tag_bytes(PacketId::PingPong),
        ClientMsg::Ack { id } => tag_bytes(PacketId::Ack) + spec_u64_to_le_bytes(id),
        ClientMsg::Create { client_hash, password_protected } => tag_bytes(PacketId::Create)
            + string_field(client_hash) + seq![bool_byte(password_protected)],
        ClientMsg::Join { client_hash, session_key } => tag_bytes(PacketId::Join) + string_field(
            client_hash,
        ) + string_field(session_key),
        ClientMsg::Close => tag_bytes(PacketId::Close),
    }
}

/// The bytes of a server packet after the sequence id.
pub open spec fn server_packet_bytes(m: ServerMsg) -> Seq<u8> {
    match m {
        ServerMsg::Pong => tag_bytes(PacketId::PingPong),
        ServerMsg::Ack { id } => tag_bytes(PacketId::Ack) + spec_u64_to_le_bytes(id),
        ServerMsg::Create { session_key } => tag_bytes(PacketId::Create) + string_field(
            session_key,
        ),
        ServerMsg::Join { client_addr } => tag_bytes(PacketId::Join) + string_field(client_addr),
        ServerMsg::Close => tag_bytes(PacketId::Close),
        ServerMsg::Error { id, message } => tag_bytes(PacketId::Error) + spec_u64_to_le_bytes(id)
            + string_field(message),
    }
}

/// The string field at the front of `b`, and how many bytes it takes.
pub open spec fn decode_string_field(b: Seq<u8>) -> Option<(Seq<char>, int)> {
    if b.len() < 1 {
        None
    } else if b.len() < 1 + b[0] {
        None
    } else if !valid_utf8(b.subrange(1, 1 + b[0])) {
        None
    } else {
        Some((decode_utf8(b.subrange(1, 1 + b[0])), 1 + b[0]))
    }
}

/// The tag at the front of `b`.
pub open spec fn decode_tag(b: Seq<u8>) -> u16 {
    spec_u16_from_le_bytes(b.subrange(0, 2))
}

/// The client packet at the front of `b` (bytes after it are ignored).
pub open spec fn decode_client_body(b: Seq<u8>) -> Option<ClientMsg> {
    if b.len() < 2 {
        None
    } else {
        let t = decode_tag(b);
        let rest = skip(b, 2);
        if t == 0 {
            Some(ClientMsg::Ping)
        } else if t == 1 {
            if rest.len() < 8 {
                None
            } else {
                Some(ClientMsg::Ack { id: spec_u64_from_le_bytes(rest.subrange(0, 8)) })
            }
        } else if t == 2 {
            match decode_string_field(rest) {
                Some((h, n)) => if rest.len() <= n {
                    None
                } else {
                    Some(ClientMsg::Create { client_hash: h, password_protected: rest[n] != 0 })
                },
                None => None,
            }
        } else if t == 3 {
            match decode_string_field(rest) {
                Some((h, n)) => match decode_string_field(skip(rest, n)) {
                    Some((k, _)) => Some(ClientMsg::Join { client_hash: h, session_key: k }),
                    None => None,
                },
                None => None,
            }
        } else if t == 4 {
            Some(ClientMsg::Close)
        } else {
            None
        }
    }
}

/// The sequence id and client packet of a whole datagram.
pub open spec fn decode_client_datagram(b: Seq<u8>) -> Option<(u64, ClientMsg)> {
    if b.len() < 8 {
        None
    } else {
        match decode_client_body(skip(b, 8)) {
            Some(m) => Some((spec_u64_from_le_bytes(b.subrange(0, 8)), m)),
            None => None,
        }
    }
}

/// The server packet at the front of `b` (bytes after it are ignored).
pub open spec fn decode_server_body(b: Seq<u8>) -> Option<ServerMsg> {
    if b.len() < 2 {
        None
    } else {
        let t = decode_tag(b);
        let rest = skip(b, 2);
        if t == 0 {
            Some(ServerMsg::Pong)
        } else if t == 1 {
            if rest.len() < 8 {
                None
            } else {
                Some(ServerMsg::Ack { id: spec_u64_from_le_bytes(rest.subrange(0, 8)) })
            }
        } else if t == 2 {
            match decode_string_field(rest) {
                Some((k, _)) => Some(ServerMsg::Create { session_key: k }),
                None => None,
            }
        } else if t == 3 {
            match decode_string_field(rest) {
                Some((a, _)) => Some(ServerMsg::Join { client_addr: a }),
                None => None,
            }
        } else if t == 4 {
            Some(ServerMsg::Close)
        } else if t == 5 {
            if rest.len() < 8 {
                None
            } else {
                match decode_string_field(skip(rest, 8)) {
                    Some((s, _)) => Some(
                        ServerMsg::Error { id: spec_u64_from_le_bytes(rest.subrange(0, 8)), message: s },
                    ),
                    None => None,
                }
            }
        } else {
            None
        }
    }
}

// ---------------------------------------------------------------------------
// Calls into byteorder and std.
// ---------------------------------------------------------------------------

/// Relies on byteorder's `LittleEndian::read_u16`: the first two bytes, least
/// significant first (it panics on fewer than two).
#[verifier::external_body]
fn le_read_u16(b: &[u8]) -> (r: u16)
    requires
        b@.len() >= 2,
    ensures
        r == spec_u16_from_le_bytes(b@.subrange(0, 2)),
{
    LittleEndian::read_u16(b)
}

/// Relies on byteorder's `LittleEndian::read_u32`: the first four bytes, least
/// significant first (it panics on fewer than four).
#[verifier::external_body]
fn le_read_u32(b: &[u8]) -> (r: u32)
    requires
        b@.len() >= 4,
    ensures
        r == spec_u32_from_le_bytes(b@.subrange(0, 4)),
{
    LittleEndian::read_u32(b)
}

/// Relies on byteorder's `LittleEndian::read_u64`: the first eight bytes, least
/// significant first (it panics on fewer than eight).
#[verifier::external_body]
fn le_read_u64(b: &[u8]) -> (r: u64)
    requires
        b@.len() >= 8,
    ensures
        r == spec_u64_from_le_bytes(b@.subrange(0, 8)),
{
    LittleEndian::read_u64(b)
}

/// Relies on byteorder's `LittleEndian::write_u16`: the two bytes of `n`, least
/// significant first.
#[verifier::external_body]
fn le_write_u16(n: u16) -> (r: [u8; 2])
    ensures
        r@ == spec_u16_to_le_bytes(n),
{
    let mut b = [0u8; 2];
    LittleEndian::write_u16(&mut b, n);
    b
}

/// Relies on byteorder's `LittleEndian::write_u32`: the four bytes of `n`, least
/// significant first.
#[verifier::external_body]
fn le_write_u32(n: u32) -> (r: [u8; 4])
    ensures
        r@ == spec_u32_to_le_bytes(n),
{
    let mut b = [0u8; 4];
    LittleEndian::write_u32(&mut b, n);
    b
}

/// Relies on byteorder's `LittleEndian::write_u64`: the eight bytes of `n`, least
/// significant first.
#[verifier::external_body]
fn le_write_u64(n: u64) -> (r: [u8; 8])
    ensures
        r@ == spec_u64_to_le_bytes(n),
{
    let mut b = [0u8; 8];
    LittleEndian::write_u64(&mut b, n);
    b
}

/// Relies on `std::str::from_utf8`: it succeeds exactly on valid UTF-8, and the
/// string it gives back is made of those bytes.
#[verifier::external_body]
fn utf8_to_string(b: &[u8]) -> (r: Option<String>)
    ensures
        r is Some <==> valid_utf8(b@),
        r matches Some(s) ==> encode_utf8(s@) == b@,
{
    match std::str::from_utf8(b) {
        Ok(s) => Some(s.to_string()),
        Err(_) => None,
    }
}

// ---------------------------------------------------------------------------
// Readers: each takes what it reads off the front of `buf`.
// ---------------------------------------------------------------------------

/// The byte at the front of `buf`, if any; on success `buf` moves past it.
pub fn read_byte(buf: &mut &[u8]) -> (r: Option<u8>)
    ensures
        old(buf)@.len() == 0 ==> r is None && final(buf)@ == old(buf)@,
        old(buf)@.len() > 0 ==> r == Some(old(buf)@[0]) && final(buf)@ == skip(old(buf)@, 1),
{
    if buf.len() == 0 {
        return None;
    }
    let byte = buf[0];
    *buf = &buf[1..buf.len()];
    Some(byte)
}

/// A boolean byte: zero is false, anything else is true.
pub fn read_bool(buf: &mut &[u8]) -> (r: Option<bool>)
    ensures
        old(buf)@.len() == 0 ==> r is None && final(buf)@ == old(buf)@,
        old(buf)@.len() > 0 ==> r == Some(old(buf)@[0] != 0) && final(buf)@ == skip(old(buf)@, 1),
{
    match read_byte(buf) {
        Some(b) => Some(b != 0),
        None => None,
    }
}

/// A little-endian `u16`; on too short a buffer, `None`, and the buffer is used up.
pub fn read_u16(buf: &mut &[u8]) -> (r: Option<u16>)
    ensures
        old(buf)@.len() < 2 ==> r is None && final(buf)@.len() == 0,
        old(buf)@.len() >= 2 ==> r == Some(spec_u16_from_le_bytes(old(buf)@.subrange(0, 2)))
            && final(buf)@ == skip(old(buf)@, 2),
{
    if buf.len() < 2 {
        *buf = &buf[buf.len()..buf.len()];
        return None;
    }
    let data = le_read_u16(*buf);
    *buf = &buf[2..buf.len()];
    Some(data)
}

/// A little-endian `u32`; on too short a buffer, `None`, and the buffer is used up.
pub fn read_u32(buf: &mut &[u8]) -> (r: Option<u32>)
    ensures
        old(buf)@.len() < 4 ==> r is None && final(buf)@.len() == 0,
        old(buf)@.len() >= 4 ==> r == Some(spec_u32_from_le_bytes(old(buf)@.subrange(0, 4)))
            && final(buf)@ == skip(old(buf)@, 4),
{
    if buf.len() < 4 {
        *buf = &buf[buf.len()..buf.len()];
        return None;
    }
    let data = le_read_u32(*buf);
    *buf = &buf[4..buf.len()];
    Some(data)
}

/// A little-endian `u64`; on too short a buffer, `None`, and the buffer is used up.
pub fn read_u64(buf: &mut &[u8]) -> (r: Option<u64>)
    ensures
        old(buf)@.len() < 8 ==> r is None && final(buf)@.len() == 0,
        old(buf)@.len() >= 8 ==> r == Some(spec_u64_from_le_bytes(old(buf)@.subrange(0, 8)))
            && final(buf)@ == skip(old(buf)@, 8),
{
    if buf.len() < 8 {
        *buf = &buf[buf.len()..buf.len()];
        return None;
    }
    let data = le_read_u64(*buf);
    *buf = &buf[8..buf.len()];
    Some(data)
}

/// `len` bytes of UTF-8. On too short a buffer, `None`, and the buffer is used
/// up; otherwise the buffer moves past the `len` bytes, valid or not.
fn read_string(buf: &mut &[u8], len: usize) -> (r: Option<String>)
    ensures
        old(buf)@.len() < len ==> r is None && final(buf)@.len() == 0,
        old(buf)@.len() >= len ==> final(buf)@ == skip(old(buf)@, len as int) && (r is Some
            <==> valid_utf8(old(buf)@.subrange(0, len as int))),
        old(buf)@.len() >= len ==> (r matches Some(s) ==> s@ == decode_utf8(
            old(buf)@.subrange(0, len as int),
        )),
{
    if buf.len() < len {
        *buf = &buf[buf.len()..buf.len()];
        return None;
    }
    let s = utf8_to_string(&buf[0..len]);
    *buf = &buf[len..buf.len()];
    s
}

/// A string field: a length byte, then that many bytes of UTF-8.
pub fn read_string_u8(buf: &mut &[u8]) -> (r: Option<String>)
    ensures
        r is Some <==> decode_string_field(old(buf)@) is Some,
        r matches Some(s) ==> decode_string_field(old(buf)@) == Some((s@, 1 + old(buf)@[0])),
        old(buf)@.len() == 0 ==> final(buf)@ == old(buf)@,
        0 < old(buf)@.len() < 1 + old(buf)@[0] ==> final(buf)@.len() == 0,
        0 < old(buf)@.len() && 1 + old(buf)@[0] <= old(buf)@.len() ==> final(buf)@ == skip(
            old(buf)@,
            1 + old(buf)@[0],
        ),
{
    let ghost b = buf@;
    let len = match read_byte(buf) {
        Some(n) => n,
        None => return None,
    };
    let ghost rest = buf@;
    let r = read_string(buf, len as usize);
    assert(rest.len() >= len ==> rest.subrange(0, len as int) == b.subrange(1, 1 + len));
    assert(rest.len() >= len ==> skip(rest, len as int) == skip(b, 1 + len));
    r
}

/// The sequence id at the front of a datagram.
fn parse_headers(buf: &mut &[u8]) -> (r: Option<u64>)
    ensures
        old(buf)@.len() < 8 ==> r is None && final(buf)@.len() == 0,
        old(buf)@.len() >= 8 ==> r == Some(spec_u64_from_le_bytes(old(buf)@.subrange(0, 8)))
            && final(buf)@ == skip(old(buf)@, 8),
{
    read_u64(buf)
}

/// The client packet that follows the sequence id.
fn parse_packet(buf: &mut &[u8]) -> (r: Option<ClientPacket>)
    ensures
        match decode_client_body(old(buf)@) {
            Some(m) => (r matches Some(p) && p@ == m),
            None => r is None,
        },
{
    let ghost b = buf@;
    let t = match read_u16(buf) {
        Some(t) => t,
        None => return None,
    };
    let ghost rest = buf@;
    assert(rest == skip(b, 2));
    match PacketId::from_tag(t) {
        Some(PacketId::PingPong) => Some(ClientPacket::Ping),
        Some(PacketId::Ack) => match read_u64(buf) {
            Some(id) => Some(ClientPacket::Ack { id }),
            None => None,
        },
        Some(PacketId::Create) => {
            let client_hash = match read_string_u8(buf) {
                Some(s) => s,
                None => return None,
            };
            let password_protected = match read_bool(buf) {
                Some(p) => p,
                None => return None,
            };
            Some(ClientPacket::Create { client_hash, password_protected })
        },
        Some(PacketId::Join) => {
            let client_hash = match read_string_u8(buf) {
                Some(s) => s,
                None => return None,
            };
            let session_key = match read_string_u8(buf) {
                Some(s) => s,
                None => return None,
            };
            Some(ClientPacket::Join { client_hash, session_key })
        },
        Some(PacketId::Close) => Some(ClientPacket::Close),
        _ => None,
    }
}

/// Decodes a datagram from a client into its sequence id and packet; `None` on
/// a truncated buffer, an unknown tag or a string that is not UTF-8.
pub fn parse_client_packet(buf: &[u8]) -> (r: Option<(u64, ClientPacket)>)
    ensures
        match decode_client_datagram(buf@) {
            Some((id, m)) => (r matches Some((i, p)) && i == id && p@ == m),
            None => r is None,
        },
{
    let mut rest = buf;
    let id = match parse_headers(&mut rest) {
        Some(id) => id,
        None => return None,
    };
    match parse_packet(&mut rest) {
        Some(p) => Some((id, p)),
        None => None,
    }
}

// ---------------------------------------------------------------------------
// Writers: each appends to `buf`.
// ---------------------------------------------------------------------------

/// Appends every byte of `src`.
pub(crate) fn push_all(buf: &mut Vec<u8>, src: &[u8])
    ensures
        final(buf)@ == old(buf)@ + src@,
{
    let ghost start = buf@;
    let mut i: usize = 0;
    while i < src.len()
        invariant
            i <= src@.len(),
            buf@ == start + src@.subrange(0, i as int),
        decreases src@.len() - i,
    {
        buf.push(src[i]);
        i = i + 1;
        assert(buf@ == start + src@.subrange(0, i as int));
    }
    assert(src@.subrange(0, src@.len() as int) == src@);
}

/// A boolean as one byte: 1 for true, 0 for false.
pub fn write_bool(buf: &mut Vec<u8>, data: bool)
    ensures
        final(buf)@ == old(buf)@.push(bool_byte(data)),
{
    buf.push(if data {
        1
    } else {
        0
    });
}

/// A `u16`, least significant byte first.
pub fn write_u16(buf: &mut Vec<u8>, data: u16)
    ensures
        final(buf)@ == old(buf)@ + spec_u16_to_le_bytes(data),
{
    let bytes = le_write_u16(data);
    push_all(buf, &bytes);
}

/// A `u32`, least significant byte first.
pub fn write_u32(buf: &mut Vec<u8>, data: u32)
    ensures
        final(buf)@ == old(buf)@ + spec_u32_to_le_bytes(data),
{
    let bytes = le_write_u32(data);
    push_all(buf, &bytes);
}

/// A `u64`, least significant byte first.
pub fn write_u64(buf: &mut Vec<u8>, data: u64)
    ensures
        final(buf)@ == old(buf)@ + spec_u64_to_le_bytes(data),
{
    let bytes = le_write_u64(data);
    push_all(buf, &bytes);
}

/// A string field: the length byte, then the UTF-8 bytes, cut to the first 255.
pub fn write_string_u8(buf: &mut Vec<u8>, data: &str)
    ensures
        final(buf)@ == old(buf)@ + string_field(data@),
{
    let bytes = data.as_bytes();
    let len: u8 = if bytes.len() < 255 {
        bytes.len() as u8
    } else {
        MAX_FIELD_BYTES
    };
    buf.push(len);
    push_all(buf, &bytes[0..len as usize]);
    assert(old(buf)@ + string_field(data@) == old(buf)@.push(len) + bytes@.subrange(0, len as int));
}

/// The bytes of a server packet after the sequence id: its tag, then its fields.
pub fn build_server_packet(packet: &ServerPacket) -> (r: Vec<u8>)
    ensures
        r@ == server_packet_bytes(packet@),
{
    let mut buf: Vec<u8> = Vec::new();
    match packet {
        ServerPacket::Pong => {
            write_u16(&mut buf, PacketId::PingPong.tag());
        },
        ServerPacket::Ack { id } => {
            write_u16(&mut buf, PacketId::Ack.tag());
            write_u64(&mut buf, *id);
        },
        ServerPacket::Create { session_key } => {
            write_u16(&mut buf, PacketId::Create.tag());
            write_string_u8(&mut buf, session_key.as_str());
        },
        ServerPacket::Join { client_addr } => {
            write_u16(&mut buf, PacketId::Join.tag());
            write_string_u8(&mut buf, client_addr.as_str());
        },
        ServerPacket::Close => {
            write_u16(&mut buf, PacketId::Close.tag());
        },
        ServerPacket::Error { id, message } => {
            write_u16(&mut buf, PacketId::Error.tag());
            write_u64(&mut buf, *id);
            write_string_u8(&mut buf, message.as_str());
        },
    }
    assert(buf@ =~= server_packet_bytes(packet@));
    buf
}

/// A whole datagram as a client sends it: the sequence id, the tag, the fields.
pub fn build_client_packet(id: u64, packet: &ClientPacket) -> (r: Vec<u8>)
    ensures
        r@ == spec_u64_to_le_bytes(id) + client_packet_bytes(packet@),
{
    let mut buf: Vec<u8> = Vec::new();
    write_u64(&mut buf, id);
    match packet {
        ClientPacket::Ping => {
            write_u16(&mut buf, PacketId::PingPong.tag());
        },
        ClientPacket::Ack { id } => {
            write_u16(&mut buf, PacketId::Ack.tag());
            write_u64(&mut buf, *id);
        },
        ClientPacket::Create { client_hash, password_protected } => {
            write_u16(&mut buf, PacketId::Create.tag());
            write_string_u8(&mut buf, client_hash.as_str());
            write_bool(&mut buf, *password_protected);
        },
        ClientPacket::Join { client_hash, session_key } => {
            write_u16(&mut buf, PacketId::Join.tag());
            write_string_u8(&mut buf, client_hash.as_str());
            write_string_u8(&mut buf, session_key.as_str());
        },
        ClientPacket::Close => {
            write_u16(&mut buf, PacketId::Close.tag());
        },
    }
    assert(buf@ =~= spec_u64_to_le_bytes(id) + client_packet_bytes(packet@));
    buf
}

/// Decodes the bytes of a server packet (tag and fields, no sequence id), as a
/// client would; `None` on a truncated buffer, an unknown tag or a string that
/// is not UTF-8.
pub fn parse_server_packet(buf: &[u8]) -> (r: Option<ServerPacket>)
    ensures
        match decode_server_body(buf@) {
            Some(m) => (r matches Some(p) && p@ == m),
            None => r is None,
        },
{
    let mut rest = buf;
    let t = match read_u16(&mut rest) {
        Some(t) => t,
        None => return None,
    };
    assert(rest@ == skip(buf@, 2));
    match PacketId::from_tag(t) {
        Some(PacketId::PingPong) => Some(ServerPacket::Pong),
        Some(PacketId::Ack) => match read_u64(&mut rest) {
            Some(id) => Some(ServerPacket::Ack { id }),
            None => None,
        },
        Some(PacketId::Create) => match read_string_u8(&mut rest) {
            Some(session_key) => Some(ServerPacket::Create { session_key }),
            None => None,
        },
        Some(PacketId::Join) => match read_string_u8(&mut rest) {
            Some(client_addr) => Some(ServerPacket::Join { client_addr }),
            None => None,
        },
        Some(PacketId::Close) => Some(ServerPacket::Close),
        Some(PacketId::Error) => {
            let id = match read_u64(&mut rest) {
                Some(id) => id,
                None => return None,
            };
            match read_string_u8(&mut rest) {
                Some(message) => Some(ServerPacket::Error { id, message }),
                None => None,
            }
        },
        None => None,
    }
}

// ---------------------------------------------------------------------------
// Round trips.
// ---------------------------------------------------------------------------

/// True when the string field written for `s` reads back as UTF-8: always when
/// `s` fits in 255 bytes, and when the cut falls between characters.
pub open spec fn field_decodes(s: Seq<char>) -> bool {
    valid_utf8(encode_utf8(s).subrange(0, field_len(s)))
}

/// What reading back the string field written for `s` gives.
pub open spec fn field_value(s: Seq<char>) -> Seq<char> {
    decode_utf8(encode_utf8(s).subrange(0, field_len(s)))
}

/// True when `s` fits in a string field uncut.
pub open spec fn fits_field(s: Seq<char>) -> bool {
    encode_utf8(s).len() <= 255
}

pub open spec fn client_fields_decode(m: ClientMsg) -> bool {
    match m {
        ClientMsg::Create { client_hash, .. } => field_decodes(client_hash),
        ClientMsg::Join { client_hash, session_key } => field_decodes(client_hash) && field_decodes(
            session_key,
        ),
        _ => true,
    }
}

pub open spec fn client_fields_fit(m: ClientMsg) -> bool {
    match m {
        ClientMsg::Create { client_hash, .. } => fits_field(client_hash),
        ClientMsg::Join { client_hash, session_key } => fits_field(client_hash) && fits_field(
            session_key,
        ),
        _ => true,
    }
}

pub open spec fn server_fields_decode(m: ServerMsg) -> bool {
    match m {
        ServerMsg::Create { session_key } => field_decodes(session_key),
        ServerMsg::Join { client_addr } => field_decodes(client_addr),
        ServerMsg::Error { message, .. } => field_decodes(message),
        _ => true,
    }
}

pub open spec fn server_fields_fit(m: ServerMsg) -> bool {
    match m {
        ServerMsg::Create { session_key } => fits_field(session_key),
        ServerMsg::Join { client_addr } => fits_field(client_addr),
        ServerMsg::Error { message, .. } => fits_field(message),
        _ => true,
    }
}

/// `m` with each string replaced by what its field reads back as.
pub open spec fn client_as_sent(m: ClientMsg) -> ClientMsg {
    match m {
        ClientMsg::Create { client_hash, password_protected } => ClientMsg::Create {
            client_hash: field_value(client_hash),
            password_protected,
        },
        ClientMsg::Join { client_hash, session_key } => ClientMsg::Join {
            client_hash: field_value(client_hash),
            session_key: field_value(session_key),
        },
        _ => m,
    }
}

/// `m` with each string replaced by what its field reads back as.
pub open spec fn server_as_sent(m: ServerMsg) -> ServerMsg {
    match m {
        ServerMsg::Create { session_key } => ServerMsg::Create { session_key: field_value(session_key) },
        ServerMsg::Join { client_addr } => ServerMsg::Join { client_addr: field_value(client_addr) },
        ServerMsg::Error { id, message } => ServerMsg::Error { id, message: field_value(message) },
        _ => m,
    }
}

/// A string that fits is read back unchanged.
pub proof fn lemma_fitting_field(s: Seq<char>)
    requires
        fits_field(s),
    ensures
        field_decodes(s),
        field_value(s) == s,
{
    encode_utf8_valid_utf8(s);
    assert(encode_utf8(s).subrange(0, field_len(s)) == encode_utf8(s));
}

/// A string field followed by anything reads back as `field_value`, taking its
/// length byte and its bytes.
pub proof fn lemma_string_field_read(s: Seq<char>, rest: Seq<u8>)
    requires
        field_decodes(s),
    ensures
        decode_string_field(string_field(s) + rest) == Some((field_value(s), 1 + field_len(s))),
        skip(string_field(s) + rest, 1 + field_len(s)) == rest,
{
    let b = string_field(s) + rest;
    let n = field_len(s);
    assert(b[0] == n as u8);
    assert(b.subrange(1, 1 + n) == encode_utf8(s).subrange(0, n));
    assert(skip(b, 1 + n) =~= rest);
}

/// Decoding a client datagram built from an id and a packet gives back the id
/// and the packet, with each string as its field holds it, provided that each
/// field reads back as UTF-8.
pub proof fn lemma_client_round_trip_cut(id: u64, m: ClientMsg)
    requires
        client_fields_decode(m),
    ensures
        decode_client_datagram(spec_u64_to_le_bytes(id) + client_packet_bytes(m)) == Some(
            (id, client_as_sent(m)),
        ),
{
    lemma_auto_spec_u16_to_from_le_bytes();
    lemma_auto_spec_u64_to_from_le_bytes();
    let b = spec_u64_to_le_bytes(id) + client_packet_bytes(m);
    assert(b.subrange(0, 8) == spec_u64_to_le_bytes(id));
    let body = skip(b, 8);
    assert(body =~= client_packet_bytes(m));
    match m {
        ClientMsg::Ping => {
            assert(body.subrange(0, 2) == tag_bytes(PacketId::PingPong));
        },
        ClientMsg::Ack { id: a } => {
            assert(body.subrange(0, 2) == tag_bytes(PacketId::Ack));
            assert(skip(body, 2).subrange(0, 8) == spec_u64_to_le_bytes(a));
        },
        ClientMsg::Create { client_hash, password_protected } => {
            assert(body.subrange(0, 2) == tag_bytes(PacketId::Create));
            let rest = skip(body, 2);
            assert(rest =~= string_field(client_hash) + seq![bool_byte(password_protected)]);
            lemma_string_field_read(client_hash, seq![bool_byte(password_protected)]);
            let n = 1 + field_len(client_hash);
            assert(rest[n] == skip(rest, n)[0]);
        },
        ClientMsg::Join { client_hash, session_key } => {
            assert(body.subrange(0, 2) == tag_bytes(PacketId::Join));
            let rest = skip(body, 2);
            assert(rest =~= string_field(client_hash) + string_field(session_key));
            lemma_string_field_read(client_hash, string_field(session_key));
            lemma_string_field_read(session_key, Seq::empty());
            assert(string_field(session_key) + Seq::<u8>::empty() =~= string_field(session_key));
        },
        ClientMsg::Close => {
            assert(body.subrange(0, 2) == tag_bytes(PacketId::Close));
        },
    }
}

/// Decoding a client datagram built from an id and a packet whose strings each
/// fit in 255 bytes gives back exactly that id and packet.
pub proof fn lemma_client_round_trip(id: u64, m: ClientMsg)
    requires
        client_fields_fit(m),
    ensures
        decode_client_datagram(spec_u64_to_le_bytes(id) + client_packet_bytes(m)) == Some((id, m)),
{
    match m {
        ClientMsg::Create { client_hash, .. } => lemma_fitting_field(client_hash),
        ClientMsg::Join { client_hash, session_key } => {
            lemma_fitting_field(client_hash);
            lemma_fitting_field(session_key);
        },
        _ => {},
    }
    lemma_client_round_trip_cut(id, m);
}

/// Decoding the bytes built from a server packet gives back the packet, with
/// each string as its field holds it, provided that each field reads back as
/// UTF-8.
pub proof fn lemma_server_round_trip_cut(m: ServerMsg)
    requires
        server_fields_decode(m),
    ensures
        decode_server_body(server_packet_bytes(m)) == Some(server_as_sent(m)),
{
    lemma_auto_spec_u16_to_from_le_bytes();
    lemma_auto_spec_u64_to_from_le_bytes();
    let body = server_packet_bytes(m);
    match m {
        ServerMsg::Pong => {
            assert(body.subrange(0, 2) == tag_bytes(PacketId::PingPong));
        },
        ServerMsg::Ack { id } => {
            assert(body.subrange(0, 2) == tag_bytes(PacketId::Ack));
            assert(skip(body, 2).subrange(0, 8) == spec_u64_to_le_bytes(id));
        },
        ServerMsg::Create { session_key } => {
            assert(body.subrange(0, 2) == tag_bytes(PacketId::Create));
            assert(skip(body, 2) =~= string_field(session_key) + Seq::<u8>::empty());
            lemma_string_field_read(session_key, Seq::empty());
        },
        ServerMsg::Join { client_addr } => {
            assert(body.subrange(0, 2) == tag_bytes(PacketId::Join));
            assert(skip(body, 2) =~= string_field(client_addr) + Seq::<u8>::empty());
            lemma_string_field_read(client_addr, Seq::empty());
        },
        ServerMsg::Close => {
            assert(body.subrange(0, 2) == tag_bytes(PacketId::Close));
        },
        ServerMsg::Error { id, message } => {
            assert(body.subrange(0, 2) == tag_bytes(PacketId::Error));
            let rest = skip(body, 2);
            assert(rest.subrange(0, 8) == spec_u64_to_le_bytes(id));
            assert(skip(rest, 8) =~= string_field(message) + Seq::<u8>::empty());
            lemma_string_field_read(message, Seq::empty());
        },
    }
}

/// Decoding the bytes built from a server packet whose strings each fit in 255
/// bytes gives back exactly that packet.
pub proof fn lemma_server_round_trip(m: ServerMsg)
    requires
        server_fields_fit(m),
    ensures
        decode_server_body(server_packet_bytes(m)) == Some(m),
{
    match m {
        ServerMsg::Create { session_key } => lemma_fitting_field(session_key),
        ServerMsg::Join { client_addr } => lemma_fitting_field(client_addr),
        ServerMsg::Error { message, .. } => lemma_fitting_field(message),
        _ => {},
    }
    lemma_server_round_trip_cut(m);
}

} // verus!
