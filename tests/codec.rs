use rendezvous::codec::{
    build_client_packet, build_server_packet, parse_client_packet, parse_server_packet, read_bool,
    read_byte, read_string_u8, read_u16, read_u32, read_u64, write_bool, write_string_u8, write_u16,
    write_u32, write_u64, ClientPacket, PacketId, ServerPacket,
};

#[test]
fn read_byte_takes_first() {
    let data = [7u8, 8, 9];
    let mut buf: &[u8] = &data;
    assert_eq!(read_byte(&mut buf), Some(7));
    assert_eq!(buf, &[8u8, 9][..]);
    let mut empty: &[u8] = &[];
    assert_eq!(read_byte(&mut empty), None);
}

#[test]
fn read_bool_nonzero_is_true() {
    let data = [0u8, 1, 200];
    let mut buf: &[u8] = &data;
    assert_eq!(read_bool(&mut buf), Some(false));
    assert_eq!(read_bool(&mut buf), Some(true));
    assert_eq!(read_bool(&mut buf), Some(true));
    assert_eq!(read_bool(&mut buf), None);
}

#[test]
fn read_integers_little_endian() {
    let data = [0x34u8, 0x12];
    let mut buf: &[u8] = &data;
    assert_eq!(read_u16(&mut buf), Some(0x1234));
    assert!(buf.is_empty());

    let data = [0x78u8, 0x56, 0x34, 0x12, 0xff];
    let mut buf: &[u8] = &data;
    assert_eq!(read_u32(&mut buf), Some(0x1234_5678));
    assert_eq!(buf, &[0xffu8][..]);

    let data = [1u8, 2, 3, 4, 5, 6, 7, 8];
    let mut buf: &[u8] = &data;
    assert_eq!(read_u64(&mut buf), Some(0x0807_0605_0403_0201));
}

#[test]
fn read_integers_short_buffer_is_used_up() {
    let data = [1u8, 2, 3];
    let mut buf: &[u8] = &data;
    assert_eq!(read_u64(&mut buf), None);
    assert!(buf.is_empty());
    let data = [1u8];
    let mut buf: &[u8] = &data;
    assert_eq!(read_u16(&mut buf), None);
    assert!(buf.is_empty());
}

#[test]
fn write_integers_little_endian() {
    let mut buf = Vec::new();
    write_u16(&mut buf, 0x1234);
    write_u32(&mut buf, 0x1234_5678);
    write_u64(&mut buf, 0x0807_0605_0403_0201);
    write_bool(&mut buf, true);
    write_bool(&mut buf, false);
    assert_eq!(
        buf,
        vec![0x34, 0x12, 0x78, 0x56, 0x34, 0x12, 1, 2, 3, 4, 5, 6, 7, 8, 1, 0]
    );
}

#[test]
fn string_field_round_trip() {
    let mut buf = Vec::new();
    write_string_u8(&mut buf, "héllo");
    assert_eq!(buf[0], 6);
    let mut rd: &[u8] = &buf;
    assert_eq!(read_string_u8(&mut rd), Some("héllo".to_string()));
    assert!(rd.is_empty());
}

#[test]
fn long_string_is_cut_to_255_bytes() {
    let long = "a".repeat(300);
    let mut buf = Vec::new();
    write_string_u8(&mut buf, &long);
    assert_eq!(buf.len(), 256);
    assert_eq!(buf[0], 255);
    let mut rd: &[u8] = &buf;
    assert_eq!(read_string_u8(&mut rd), Some("a".repeat(255)));
}

#[test]
fn string_of_exactly_255_bytes_is_kept() {
    let s = "b".repeat(255);
    let mut buf = Vec::new();
    write_string_u8(&mut buf, &s);
    assert_eq!(buf.len(), 256);
    let mut rd: &[u8] = &buf;
    assert_eq!(read_string_u8(&mut rd), Some(s));
}

#[test]
fn string_field_rejects_invalid_utf8() {
    let data = [2u8, 0xff, 0xfe];
    let mut buf: &[u8] = &data;
    assert_eq!(read_string_u8(&mut buf), None);
}

#[test]
fn string_field_rejects_truncated() {
    let data = [5u8, b'a', b'b'];
    let mut buf: &[u8] = &data;
    assert_eq!(read_string_u8(&mut buf), None);
}

#[test]
fn packet_tags() {
    assert_eq!(PacketId::PingPong.tag(), 0);
    assert_eq!(PacketId::Ack.tag(), 1);
    assert_eq!(PacketId::Create.tag(), 2);
    assert_eq!(PacketId::Join.tag(), 3);
    assert_eq!(PacketId::Close.tag(), 4);
    assert_eq!(PacketId::Error.tag(), 5);
    assert_eq!(PacketId::from_tag(3), Some(PacketId::Join));
    assert_eq!(PacketId::from_tag(6), None);
}

#[test]
fn parse_client_ping() {
    let data = [9u8, 0, 0, 0, 0, 0, 0, 0, 0, 0];
    assert_eq!(parse_client_packet(&data), Some((9, ClientPacket::Ping)));
}

#[test]
fn parse_client_create_bytes() {
    let data = [1u8, 0, 0, 0, 0, 0, 0, 0, 2, 0, 2, b'h', b'x', 1];
    assert_eq!(
        parse_client_packet(&data),
        Some((
            1,
            ClientPacket::Create { client_hash: "hx".to_string(), password_protected: true }
        ))
    );
}

#[test]
fn parse_client_rejects_unknown_tag() {
    let data = [0u8, 0, 0, 0, 0, 0, 0, 0, 5, 0];
    assert_eq!(parse_client_packet(&data), None);
    let data = [0u8, 0, 0, 0, 0, 0, 0, 0, 99, 0];
    assert_eq!(parse_client_packet(&data), None);
}

#[test]
fn parse_client_rejects_truncated() {
    assert_eq!(parse_client_packet(&[]), None);
    assert_eq!(parse_client_packet(&[1, 2, 3, 4, 5, 6, 7, 8]), None);
    assert_eq!(parse_client_packet(&[0, 0, 0, 0, 0, 0, 0, 0, 1, 0, 1, 2]), None);
    assert_eq!(parse_client_packet(&[0, 0, 0, 0, 0, 0, 0, 0, 2, 0, 1, b'h']), None);
    assert_eq!(parse_client_packet(&[0, 0, 0, 0, 0, 0, 0, 0, 3, 0, 1, b'h']), None);
}

#[test]
fn parse_client_rejects_invalid_utf8() {
    let data = [0u8, 0, 0, 0, 0, 0, 0, 0, 3, 0, 1, 0xff, 0];
    assert_eq!(parse_client_packet(&data), None);
}

#[test]
fn build_server_bytes() {
    assert_eq!(build_server_packet(&ServerPacket::Pong), vec![0, 0]);
    assert_eq!(build_server_packet(&ServerPacket::Close), vec![4, 0]);
    assert_eq!(
        build_server_packet(&ServerPacket::Ack { id: 0x0102 }),
        vec![1, 0, 2, 1, 0, 0, 0, 0, 0, 0]
    );
    assert_eq!(
        build_server_packet(&ServerPacket::Create { session_key: "K7x9QmZ".to_string() }),
        vec![2, 0, 7, b'K', b'7', b'x', b'9', b'Q', b'm', b'Z']
    );
    assert_eq!(
        build_server_packet(&ServerPacket::Error { id: 3, message: "no".to_string() }),
        vec![5, 0, 3, 0, 0, 0, 0, 0, 0, 0, 2, b'n', b'o']
    );
    assert_eq!(
        build_server_packet(&ServerPacket::Join { client_addr: "1.2.3.4:5".to_string() }),
        [vec![3u8, 0, 9], b"1.2.3.4:5".to_vec()].concat()
    );
}

fn client_round_trip(id: u64, p: ClientPacket) -> Option<(u64, ClientPacket)> {
    parse_client_packet(&build_client_packet(id, &p))
}

#[test]
fn client_codec_round_trip_every_kind() {
    let cases = vec![
        ClientPacket::Ping,
        ClientPacket::Ack { id: u64::MAX },
        ClientPacket::Create { client_hash: "abc".to_string(), password_protected: false },
        ClientPacket::Create { client_hash: String::new(), password_protected: true },
        ClientPacket::Join { client_hash: "abc".to_string(), session_key: "K7x9QmZ".to_string() },
        ClientPacket::Join { client_hash: "ü".repeat(100), session_key: String::new() },
        ClientPacket::Close,
    ];
    for (n, p) in cases.into_iter().enumerate() {
        let id = n as u64 * 1_000_003;
        let expected = format!("{:?}", p);
        let back = client_round_trip(id, p).expect("decodes");
        assert_eq!(back.0, id);
        assert_eq!(format!("{:?}", back.1), expected);
    }
}

#[test]
fn client_codec_round_trip_cuts_long_strings() {
    let p = ClientPacket::Join { client_hash: "h".repeat(256), session_key: "k".repeat(400) };
    assert_eq!(
        client_round_trip(5, p),
        Some((
            5,
            ClientPacket::Join { client_hash: "h".repeat(255), session_key: "k".repeat(255) }
        ))
    );
}

#[test]
fn server_codec_round_trip_every_kind() {
    let cases = vec![
        ServerPacket::Pong,
        ServerPacket::Ack { id: 42 },
        ServerPacket::Create { session_key: "aB3dE5g".to_string() },
        ServerPacket::Join { client_addr: "[::1]:4000".to_string() },
        ServerPacket::Close,
        ServerPacket::Error { id: 7, message: "No open session found".to_string() },
    ];
    for p in cases {
        let bytes = build_server_packet(&p);
        assert_eq!(parse_server_packet(&bytes), Some(p));
    }
}

#[test]
fn server_codec_round_trip_cuts_long_message() {
    let p = ServerPacket::Error { id: 1, message: "m".repeat(256) };
    assert_eq!(
        parse_server_packet(&build_server_packet(&p)),
        Some(ServerPacket::Error { id: 1, message: "m".repeat(255) })
    );
}
