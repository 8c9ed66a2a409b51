use rendezvous::codec::{parse_server_packet, ClientPacket, ServerPacket};
use rendezvous::transport::{elapsed, PacketReciever, PacketShipper, RETRY_DELAY_MS};

/// The sequence id and packet of a framed datagram.
fn unframe(d: &[u8]) -> (u64, ServerPacket) {
    let mut id = [0u8; 8];
    id.copy_from_slice(&d[..8]);
    (u64::from_le_bytes(id), parse_server_packet(&d[8..]).expect("server packet"))
}

fn shipper_with(n: u64) -> PacketShipper {
    let mut s = PacketShipper::new("10.0.0.1:9".to_string());
    for t in 0..n {
        s.send(&ServerPacket::Pong, t * 10);
    }
    s
}

#[test]
fn send_numbers_from_zero() {
    let mut s = PacketShipper::new("10.0.0.1:9".to_string());
    let d0 = s.send(&ServerPacket::Pong, 0);
    let d1 = s.send(&ServerPacket::Close, 0);
    assert_eq!(d0, vec![0, 0, 0, 0, 0, 0, 0, 0, 0, 0]);
    assert_eq!(d1, vec![1, 0, 0, 0, 0, 0, 0, 0, 4, 0]);
    assert_eq!(parse_server_packet(&d1[8..]), Some(ServerPacket::Close));
    assert_eq!(s.next_sequence_id(), 2);
    assert_eq!(s.unacknowledged_ids(), vec![0, 1]);
}

#[test]
fn acknowledge_removes_entry() {
    let mut s = shipper_with(3);
    s.acknowledge(1);
    assert_eq!(s.unacknowledged_ids(), vec![0, 2]);
    s.acknowledge(7);
    assert_eq!(s.unacknowledged_ids(), vec![0, 2]);
}

#[test]
fn acknowledge_twice_same_as_once() {
    let mut once = shipper_with(4);
    let mut twice = shipper_with(4);
    once.acknowledge(2);
    twice.acknowledge(2);
    twice.acknowledge(2);
    assert_eq!(once.unacknowledged_ids(), twice.unacknowledged_ids());
    assert_eq!(twice.unacknowledged_ids(), vec![0, 1, 3]);
}

#[test]
fn resend_takes_entries_older_than_the_delay() {
    let mut s = PacketShipper::new("10.0.0.1:9".to_string());
    let a = s.send(&ServerPacket::Pong, 0);
    let b = s.send(&ServerPacket::Close, 50);
    let _c = s.send(&ServerPacket::Pong, 300);
    let due = s.resend_unacknowledged_packets(51 + RETRY_DELAY_MS);
    assert_eq!(due, vec![a.clone(), b]);
    let due = s.resend_unacknowledged_packets(RETRY_DELAY_MS + 1);
    assert_eq!(due, vec![a]);
    // an entry exactly as old as the delay is not yet due
    assert!(s.resend_unacknowledged_packets(RETRY_DELAY_MS).is_empty());
}

#[test]
fn resend_selects_every_old_entry() {
    let mut s = PacketShipper::new("10.0.0.1:9".to_string());
    let _young = s.send(&ServerPacket::Pong, 1_000);
    let old = s.send(&ServerPacket::Close, 0);
    assert_eq!(s.resend_unacknowledged_packets(500), vec![old]);
}

#[test]
fn elapsed_never_negative() {
    assert_eq!(elapsed(10, 4), 6);
    assert_eq!(elapsed(4, 10), 0);
}

#[test]
fn receiver_dedupe() {
    let mut r = PacketReciever::new("10.0.0.2:1".to_string(), 0);
    assert_eq!(r.next_expected_id(), 0);
    let (fwd, ack) = r.sort_packets(5, 4, ClientPacket::Ping);
    assert_eq!(fwd, Some(ClientPacket::Ping));
    assert_eq!(unframe(&ack), (4, ServerPacket::Ack { id: 4 }));
    assert_eq!(r.next_expected_id(), 5);
    assert_eq!(r.get_last_message_time(), 5);

    // next-expected is 5: id 4 is suppressed but still acknowledged
    let (fwd, ack) = r.sort_packets(9, 4, ClientPacket::Close);
    assert_eq!(fwd, None);
    assert_eq!(unframe(&ack), (4, ServerPacket::Ack { id: 4 }));
    assert_eq!(r.next_expected_id(), 5);
    assert_eq!(r.get_last_message_time(), 9);

    // id 5 is passed on; a gap closes at once
    let (fwd, _) = r.sort_packets(10, 5, ClientPacket::Close);
    assert_eq!(fwd, Some(ClientPacket::Close));
    let (fwd, _) = r.sort_packets(11, 20, ClientPacket::Ping);
    assert_eq!(fwd, Some(ClientPacket::Ping));
    assert_eq!(r.next_expected_id(), 21);
    let (fwd, _) = r.sort_packets(12, 7, ClientPacket::Ping);
    assert_eq!(fwd, None);
}

#[test]
fn receiver_highest_id() {
    let mut r = PacketReciever::new("10.0.0.2:1".to_string(), 0);
    let (fwd, _) = r.sort_packets(1, u64::MAX, ClientPacket::Ping);
    assert!(fwd.is_some());
    assert_eq!(r.next_expected_id(), u64::MAX as u128 + 1);
    let (fwd, _) = r.sort_packets(2, u64::MAX, ClientPacket::Ping);
    assert!(fwd.is_none());
}
