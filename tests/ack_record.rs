use gaffer_udp::connection::{AckRecord, ExternalAcks};
use gaffer_udp::packet::{GafferPacket, PeerAddr};

fn tagged(tag: u8) -> GafferPacket {
    GafferPacket::new(PeerAddr::V4 { ip: 0x7f00_0001, port: 9000 }, vec![tag])
}

#[test]
fn record_acking_single_packet() {
    let mut record = AckRecord::new();
    record.enqueue(0, GafferPacket::dummy_packet());
    let dropped = record.ack(0, 0);
    assert_eq!(dropped.len(), 0);
    assert!(record.is_empty());
}

#[test]
fn record_acking_several_packets() {
    let mut record = AckRecord::new();
    record.enqueue(0, GafferPacket::dummy_packet());
    record.enqueue(1, GafferPacket::dummy_packet());
    record.enqueue(2, GafferPacket::dummy_packet());
    let dropped = record.ack(2, 1 | (1 << 1));
    assert_eq!(dropped.len(), 0);
    assert!(record.is_empty());
}

#[test]
fn record_acking_a_full_set_of_packets() {
    let mut record = AckRecord::new();
    for idx in 0..33 {
        record.enqueue(idx, GafferPacket::dummy_packet());
    }
    let dropped = record.ack(32, !0);
    assert_eq!(dropped.len(), 0);
    assert!(record.is_empty());
}

#[test]
fn dropping_one_packet() {
    let mut record = AckRecord::new();
    for idx in 0..34 {
        record.enqueue(idx, GafferPacket::dummy_packet());
    }
    let dropped = record.ack(33, !0);
    assert_eq!(dropped, vec![(0, GafferPacket::dummy_packet())]);
    assert!(record.is_empty());
}

#[test]
fn record_acking_around_zero() {
    let mut record = AckRecord::new();
    for idx in 0..33u16 {
        record.enqueue(idx.wrapping_sub(16), GafferPacket::dummy_packet());
    }
    let dropped = record.ack(16, !0);
    assert_eq!(dropped.len(), 0);
    assert!(record.is_empty());
}

#[test]
fn not_dropping_new_packets() {
    let mut record = AckRecord::new();
    record.enqueue(0, GafferPacket::dummy_packet());
    record.enqueue(1, GafferPacket::dummy_packet());
    record.enqueue(2, GafferPacket::dummy_packet());
    record.enqueue(5, GafferPacket::dummy_packet());
    record.enqueue(30000, GafferPacket::dummy_packet());
    let dropped = record.ack(1, 1);
    assert_eq!(dropped.len(), 0);
    assert_eq!(record.len(), 3);
}

#[test]
fn drops_old_packets() {
    let mut record = AckRecord::new();
    record.enqueue(0, GafferPacket::dummy_packet());
    record.enqueue(40, GafferPacket::dummy_packet());
    let dropped = record.ack(40, 0);
    assert_eq!(dropped, vec![(0, GafferPacket::dummy_packet())]);
    assert!(record.is_empty());
}

#[test]
fn drops_really_old_packets() {
    let mut record = AckRecord::new();
    record.enqueue(50000, GafferPacket::dummy_packet());
    record.enqueue(0, GafferPacket::dummy_packet());
    record.enqueue(1, GafferPacket::dummy_packet());
    let dropped = record.ack(1, 1);
    assert_eq!(dropped, vec![(50000, GafferPacket::dummy_packet())]);
    assert!(record.is_empty());
}

#[test]
fn full_window_below_the_anchor_is_no_loss() {
    let mut record = AckRecord::new();
    for idx in 0..32u16 {
        record.enqueue(idx, GafferPacket::dummy_packet());
    }
    let dropped = record.ack(32, !0);
    assert!(dropped.is_empty());
    assert!(record.is_empty());
}

#[test]
fn unset_bits_keep_packets_waiting() {
    let mut record = AckRecord::new();
    for idx in 0..5u16 {
        record.enqueue(idx, tagged(idx as u8));
    }
    // anchor 4 acks 4; bit 1 acks 2; 3, 1 and 0 keep waiting
    let dropped = record.ack(4, 0b10);
    assert!(dropped.is_empty());
    assert_eq!(record.len(), 3);
    let later = record.ack(40, 0);
    let mut seqs: Vec<u16> = later.iter().map(|e| e.0).collect();
    seqs.sort();
    assert_eq!(seqs, vec![0, 1, 3]);
    for (seq, packet) in later {
        assert_eq!(packet, tagged(seq as u8));
    }
    assert!(record.is_empty());
}

#[test]
fn lost_packets_come_back_with_their_payloads() {
    let mut record = AckRecord::new();
    record.enqueue(3, tagged(3));
    record.enqueue(4, tagged(4));
    record.enqueue(100, tagged(100));
    let mut dropped = record.ack(100, 0);
    dropped.sort_by_key(|e| e.0);
    assert_eq!(dropped, vec![(3, tagged(3)), (4, tagged(4))]);
    assert!(record.is_empty());
}

#[test]
fn enqueue_replaces_the_same_sequence_number() {
    let mut record = AckRecord::new();
    record.enqueue(9, tagged(1));
    record.enqueue(9, tagged(2));
    assert_eq!(record.len(), 1);
    let dropped = record.ack(50, 0);
    assert_eq!(dropped, vec![(9, tagged(2))]);
}

#[test]
fn a_peer_header_acknowledges_what_the_peer_saw() {
    let mut record = AckRecord::new();
    for idx in 0..6u16 {
        record.enqueue(idx, tagged(idx as u8));
    }
    let mut peer = ExternalAcks::new();
    peer.ack(0);
    peer.ack(2);
    peer.ack(5);
    assert_eq!(peer.field, (1 << 2) | (1 << 4));
    let dropped = record.ack(peer.last_seq, peer.field);
    assert!(dropped.is_empty());
    assert_eq!(record.len(), 3);
    let mut later = record.ack(60, 0);
    later.sort_by_key(|e| e.0);
    assert_eq!(later, vec![(1, tagged(1)), (3, tagged(3)), (4, tagged(4))]);
}
