use rendezvous::codec::{parse_server_packet, ClientPacket, ServerPacket};
use rendezvous::registry::{generate_key, is_valid_key, Datagram, Server, HEARTBEAT_INTERVAL_MS, MAX_SILENCE_MS};

const HASH: &str = "good-hash";

fn server() -> Server {
    let mut s = Server::new(4000);
    s.support_client_hashes(vec!["other".to_string(), HASH.to_string()]);
    s
}

fn addr(n: u8) -> String {
    format!("10.0.0.{}:5000", n)
}

/// A datagram sent through a shipper: sequence id, then the packet.
fn framed(d: &Datagram) -> (u64, ServerPacket) {
    let mut id = [0u8; 8];
    id.copy_from_slice(&d.bytes[..8]);
    (u64::from_le_bytes(id), parse_server_packet(&d.bytes[8..]).expect("server packet"))
}

fn create(h: &str, password_protected: bool) -> ClientPacket {
    ClientPacket::Create { client_hash: h.to_string(), password_protected }
}

fn join(h: &str, key: &str) -> ClientPacket {
    ClientPacket::Join { client_hash: h.to_string(), session_key: key.to_string() }
}

fn key_of(d: &Datagram) -> String {
    match framed(d).1 {
        ServerPacket::Create { session_key } => session_key,
        other => panic!("expected a key, got {:?}", other),
    }
}

#[test]
fn new_server_is_empty() {
    let s = Server::new(4000);
    assert_eq!(s.port(), 4000);
    assert_eq!(s.client_count(), 0);
    assert!(!s.valid_client_hash(HASH));
}

#[test]
fn allow_list_lookup() {
    let s = server();
    assert!(s.valid_client_hash(HASH));
    assert!(s.valid_client_hash("other"));
    assert!(!s.valid_client_hash("good"));
    assert!(!s.valid_client_hash(""));
}

#[test]
fn valid_keys() {
    assert!(is_valid_key("K7x9QmZ"));
    assert!(is_valid_key("0000000"));
    assert!(!is_valid_key("K7x9Qm"));
    assert!(!is_valid_key("K7x9QmZZ"));
    assert!(!is_valid_key("K7x9Qm!"));
    assert!(!is_valid_key("K7x9Qmé"));
}

#[test]
fn first_packet_adds_client_and_is_acked() {
    let mut s = server();
    let out = s.receive(&addr(1), 0, ClientPacket::Ping, 0);
    assert_eq!(out.len(), 2);
    assert_eq!(out[0].to, addr(1));
    assert_eq!(framed(&out[0]), (0, ServerPacket::Ack { id: 0 }));
    assert_eq!(out[1].to, addr(1));
    assert_eq!(framed(&out[1]), (0, ServerPacket::Pong));
    assert!(s.has_client(&addr(1)));
    assert_eq!(s.client_count(), 1);
}

#[test]
fn duplicate_packet_is_acked_not_handled() {
    let mut s = server();
    s.receive(&addr(1), 3, ClientPacket::Ping, 0);
    let out = s.receive(&addr(1), 2, ClientPacket::Ping, 1);
    assert_eq!(out.len(), 1);
    assert_eq!(framed(&out[0]), (2, ServerPacket::Ack { id: 2 }));
    let out = s.receive(&addr(1), 3, ClientPacket::Ping, 2);
    assert_eq!(out.len(), 1);
    let out = s.receive(&addr(1), 4, ClientPacket::Ping, 3);
    assert_eq!(out.len(), 2);
    assert_eq!(framed(&out[1]), (1, ServerPacket::Pong));
}

#[test]
fn create_gives_a_fresh_key() {
    let mut s = server();
    let out = s.receive(&addr(1), 0, create(HASH, false), 0);
    assert_eq!(out.len(), 2);
    let key = key_of(&out[1]);
    assert_eq!(key.len(), 7);
    assert!(key.chars().all(|c| c.is_ascii_alphanumeric()));
    assert!(is_valid_key(&key));
    assert!(s.has_key(&key));
    assert!(s.has_session(&addr(1)));
    assert_eq!(s.get_socket_addr_from_session(&key), Some(addr(1)));
}

#[test]
fn create_with_unknown_hash_is_ignored() {
    let mut s = server();
    let out = s.receive(&addr(1), 0, create("bad", false), 0);
    assert_eq!(out.len(), 1);
    assert!(!s.has_session(&addr(1)));
}

#[test]
fn second_create_is_an_error() {
    let mut s = server();
    let out = s.receive(&addr(1), 0, create(HASH, true), 0);
    let key = key_of(&out[1]);
    let out = s.receive(&addr(1), 1, create(HASH, false), 1);
    assert_eq!(out.len(), 2);
    assert_eq!(
        framed(&out[1]),
        (1, ServerPacket::Error { id: 1, message: "Session failed to create".to_string() })
    );
    assert!(s.has_key(&key));
    assert_eq!(s.get_socket_addr_from_session(&key), Some(addr(1)));
    assert_eq!(s.get_socket_addr_from_open_session(), None);
}

#[test]
fn keys_are_unique_and_well_formed() {
    let mut s = server();
    let mut keys: Vec<String> = Vec::new();
    for n in 1..=60u8 {
        let out = s.receive(&addr(n), 0, create(HASH, n % 2 == 0), 0);
        let key = key_of(&out[1]);
        assert!(is_valid_key(&key));
        assert!(!keys.contains(&key));
        keys.push(key);
    }
    for (n, key) in keys.iter().enumerate() {
        assert_eq!(s.get_socket_addr_from_session(key), Some(addr(n as u8 + 1)));
    }
}

#[test]
fn create_session_with_key_rules() {
    let mut s = server();
    assert!(!s.create_session_with_key(&addr(1), "K7x9QmZ".to_string(), false));
    s.receive(&addr(1), 0, ClientPacket::Ping, 0);
    s.receive(&addr(2), 0, ClientPacket::Ping, 0);
    assert!(!s.create_session_with_key(&addr(1), "short".to_string(), false));
    assert!(!s.create_session_with_key(&addr(1), "K7x9Qm-".to_string(), false));
    assert!(s.create_session_with_key(&addr(1), "K7x9QmZ".to_string(), false));
    assert!(!s.create_session_with_key(&addr(1), "Abcdefg".to_string(), false));
    assert!(!s.create_session_with_key(&addr(2), "K7x9QmZ".to_string(), false));
    assert!(s.create_session_with_key(&addr(2), "k7x9QmZ".to_string(), true));
    assert_eq!(s.get_socket_addr_from_session("k7x9QmZ"), Some(addr(2)));
}

#[test]
fn pairing_consumes_both_sides() {
    let mut s = server();
    s.receive(&addr(1), 0, ClientPacket::Ping, 0);
    assert!(s.create_session_with_key(&addr(1), "K7x9QmZ".to_string(), false));
    let out = s.receive(&addr(2), 0, join(HASH, "K7x9QmZ"), 1);
    assert_eq!(out.len(), 3);
    assert_eq!(framed(&out[0]), (0, ServerPacket::Ack { id: 0 }));
    assert_eq!(out[1].to, addr(2));
    assert_eq!(framed(&out[1]), (0, ServerPacket::Join { client_addr: addr(1) }));
    assert_eq!(out[2].to, addr(1));
    assert_eq!(framed(&out[2]), (1, ServerPacket::Join { client_addr: addr(2) }));
    assert!(!s.has_client(&addr(1)));
    assert!(!s.has_client(&addr(2)));
    assert!(!s.has_key("K7x9QmZ"));

    let out = s.receive(&addr(3), 0, join(HASH, "K7x9QmZ"), 2);
    assert_eq!(out.len(), 2);
    assert_eq!(
        framed(&out[1]),
        (0, ServerPacket::Error { id: 0, message: "No session found with key".to_string() })
    );
}

#[test]
fn pairing_drops_requesters_own_session() {
    let mut s = server();
    s.receive(&addr(1), 0, ClientPacket::Ping, 0);
    s.receive(&addr(2), 0, ClientPacket::Ping, 0);
    assert!(s.create_session_with_key(&addr(1), "AAAAAAA".to_string(), false));
    assert!(s.create_session_with_key(&addr(2), "BBBBBBB".to_string(), true));
    let out = s.receive(&addr(2), 1, join(HASH, "AAAAAAA"), 1);
    assert_eq!(out.len(), 3);
    assert!(!s.has_key("AAAAAAA"));
    assert!(!s.has_key("BBBBBBB"));
    assert_eq!(s.client_count(), 0);
}

#[test]
fn join_with_unknown_hash_is_ignored() {
    let mut s = server();
    s.receive(&addr(1), 0, ClientPacket::Ping, 0);
    assert!(s.create_session_with_key(&addr(1), "K7x9QmZ".to_string(), false));
    let out = s.receive(&addr(2), 0, join("bad", "K7x9QmZ"), 1);
    assert_eq!(out.len(), 1);
    assert!(s.has_key("K7x9QmZ"));
}

#[test]
fn keyless_join_skips_protected_sessions() {
    let mut s = server();
    s.receive(&addr(1), 0, ClientPacket::Ping, 0);
    assert!(s.create_session_with_key(&addr(1), "Secret1".to_string(), true));
    let out = s.receive(&addr(2), 0, join(HASH, ""), 1);
    assert_eq!(out.len(), 2);
    assert_eq!(
        framed(&out[1]),
        (0, ServerPacket::Error { id: 0, message: "No open session found".to_string() })
    );
    assert!(s.has_key("Secret1"));
    assert!(s.has_client(&addr(1)));
}

#[test]
fn keyless_join_matches_first_open_session() {
    let mut s = server();
    for n in 1..=3u8 {
        s.receive(&addr(n), 0, ClientPacket::Ping, 0);
    }
    assert!(s.create_session_with_key(&addr(1), "Closed1".to_string(), true));
    assert!(s.create_session_with_key(&addr(2), "Open222".to_string(), false));
    assert!(s.create_session_with_key(&addr(3), "Open333".to_string(), false));
    assert_eq!(s.get_socket_addr_from_open_session(), Some(addr(2)));
    let out = s.receive(&addr(4), 0, join(HASH, ""), 1);
    assert_eq!(out.len(), 3);
    assert_eq!(framed(&out[1]).1, ServerPacket::Join { client_addr: addr(2) });
    assert_eq!(out[2].to, addr(2));
    assert_eq!(framed(&out[2]).1, ServerPacket::Join { client_addr: addr(4) });
    assert!(s.has_key("Closed1"));
    assert!(s.has_key("Open333"));
    assert!(!s.has_key("Open222"));
}

#[test]
fn close_removes_client_and_session() {
    let mut s = server();
    s.receive(&addr(1), 0, ClientPacket::Ping, 0);
    assert!(s.create_session_with_key(&addr(1), "K7x9QmZ".to_string(), false));
    let out = s.receive(&addr(1), 1, ClientPacket::Close, 1);
    assert_eq!(out.len(), 1);
    assert!(!s.has_client(&addr(1)));
    assert!(!s.has_key("K7x9QmZ"));
}

#[test]
fn ack_packet_retires_backlog() {
    let mut s = server();
    s.receive(&addr(1), 0, ClientPacket::Ping, 0);
    let due = s.resend_unacknowledged_packets(1000);
    assert_eq!(due.len(), 1);
    assert_eq!(due[0].len(), 1);
    assert_eq!(framed(&due[0][0]), (0, ServerPacket::Pong));
    s.receive(&addr(1), 1, ClientPacket::Ack { id: 0 }, 10);
    s.receive(&addr(1), 2, ClientPacket::Ack { id: 0 }, 20);
    let due = s.resend_unacknowledged_packets(1000);
    assert_eq!(due.len(), 1);
    assert!(due[0].is_empty());
}

#[test]
fn handle_packet_from_unknown_client_is_ignored() {
    let mut s = server();
    let out = s.handle_packet(&addr(9), 0, ClientPacket::Ping, 0);
    assert!(out.is_empty());
    assert_eq!(s.client_count(), 0);
}

#[test]
fn silent_client_is_evicted() {
    let mut s = server();
    s.receive(&addr(1), 0, ClientPacket::Ping, 0);
    assert!(s.create_session_with_key(&addr(1), "K7x9QmZ".to_string(), false));
    s.receive(&addr(2), 0, ClientPacket::Ping, 30_000);
    let out = s.evict_silent_clients(MAX_SILENCE_MS);
    assert!(out.is_empty());
    let out = s.evict_silent_clients(MAX_SILENCE_MS + 1);
    assert_eq!(out.len(), 1);
    assert_eq!(out[0].to, addr(1));
    assert_eq!(framed(&out[0]), (1, ServerPacket::Close));
    assert!(!s.has_client(&addr(1)));
    assert!(!s.has_key("K7x9QmZ"));
    assert!(s.has_client(&addr(2)));
}

#[test]
fn tick_evicts_then_sends_heartbeats() {
    let mut s = server();
    s.receive(&addr(1), 0, ClientPacket::Ping, 0);
    s.receive(&addr(2), 0, ClientPacket::Ping, 59_500);
    let out = s.tick(60_001);
    assert_eq!(out.len(), 2);
    assert_eq!(out[0].to, addr(1));
    assert_eq!(framed(&out[0]), (1, ServerPacket::Close));
    assert_eq!(out[1].to, addr(2));
    assert_eq!(framed(&out[1]), (1, ServerPacket::Pong));
    assert_eq!(s.client_count(), 1);
    let out = s.tick(60_001 + HEARTBEAT_INTERVAL_MS - 1);
    assert!(out.is_empty());
    let out = s.tick(60_001 + HEARTBEAT_INTERVAL_MS);
    assert_eq!(out.len(), 1);
    assert_eq!(framed(&out[0]), (2, ServerPacket::Pong));
}

#[test]
fn heartbeat_reaches_every_client() {
    let mut s = server();
    for n in 1..=3u8 {
        s.receive(&addr(n), 0, ClientPacket::Ping, 0);
    }
    let out = s.broadcast_heartbeat(5);
    assert_eq!(out.len(), 3);
    for (k, d) in out.iter().enumerate() {
        assert_eq!(d.to, addr(k as u8 + 1));
        assert_eq!(framed(d), (1, ServerPacket::Pong));
    }
}

#[test]
fn generated_keys_are_well_formed() {
    for _ in 0..100 {
        let key = generate_key();
        assert_eq!(key.chars().count(), 7);
        assert!(key.chars().all(|c| c.is_ascii_alphanumeric()));
        assert!(is_valid_key(&key));
    }
}
