use gaffer_udp::connection::{Connection, ExternalAcks};
use gaffer_udp::packet::{CompleteGafferPacket, GafferPacket, PeerAddr};
use gaffer_udp::state::{assemble_packet, GafferState};

fn addr_a() -> PeerAddr {
    PeerAddr::V4 { ip: 0x7f00_0001, port: 45214 }
}

fn addr_b() -> PeerAddr {
    PeerAddr::V4 { ip: 0x7f00_0001, port: 45215 }
}

fn header(bytes: Vec<u8>) -> CompleteGafferPacket {
    CompleteGafferPacket::deserialize(bytes).unwrap()
}

#[test]
fn three_packets_are_acknowledged_in_the_reply() {
    let mut a = GafferState::new();
    let mut b = GafferState::new();
    let mut sent = Vec::new();
    for payload in [vec![1u8], vec![2u8], vec![3u8]] {
        let (to, bytes) = a.preprocess_packet(GafferPacket::new(addr_b(), payload.clone()));
        assert_eq!(to, addr_b());
        let wire = header(bytes);
        sent.push(wire.seq);
        let got = b.receive(addr_a(), wire);
        assert_eq!(got, GafferPacket::new(addr_a(), payload));
    }
    assert_eq!(sent, vec![0, 1, 2]);
    let (to, bytes) = b.preprocess_packet(GafferPacket::new(addr_a(), vec![9]));
    assert_eq!(to, addr_a());
    let reply = header(bytes);
    assert_eq!(reply.seq, 0);
    assert_eq!(reply.ack_seq, sent[2]);
    assert_eq!(reply.ack_field, 0b11);
    assert_eq!(reply.payload, vec![9]);

    a.receive(addr_b(), reply);
    assert!(a.dropped_packets(addr_b()).is_empty());
}

#[test]
fn outgoing_bytes_carry_sequence_and_ack() {
    let mut state = GafferState::new();
    let (_, first) = state.preprocess_packet(GafferPacket::new(addr_b(), vec![5, 6]));
    assert_eq!(first, vec![0, 0, 0, 0, 0, 0, 0, 0, 5, 6]);
    state.receive(
        addr_b(),
        CompleteGafferPacket { seq: 0x0203, ack_seq: 0, ack_field: 0, payload: Vec::new() },
    );
    let (_, second) = state.preprocess_packet(GafferPacket::new(addr_b(), vec![7]));
    assert_eq!(second, vec![0, 1, 0x02, 0x03, 0, 0, 0, 0, 7]);
}

#[test]
fn connections_are_kept_apart() {
    let mut state = GafferState::new();
    let (_, to_b) = state.preprocess_packet(GafferPacket::new(addr_b(), vec![]));
    let (_, to_a) = state.preprocess_packet(GafferPacket::new(addr_a(), vec![]));
    let (_, to_b_again) = state.preprocess_packet(GafferPacket::new(addr_b(), vec![]));
    assert_eq!(header(to_b).seq, 0);
    assert_eq!(header(to_a).seq, 0);
    assert_eq!(header(to_b_again).seq, 1);
}

#[test]
fn lost_packets_wait_for_resending() {
    let mut a = GafferState::new();
    for i in 0..40u8 {
        a.preprocess_packet(GafferPacket::new(addr_b(), vec![i]));
    }
    // the peer saw only the last one
    a.receive(
        addr_b(),
        CompleteGafferPacket { seq: 0, ack_seq: 39, ack_field: 0, payload: vec![] },
    );
    let mut dropped: Vec<u8> = a.dropped_packets(addr_b()).into_iter().map(|p| p.payload[0]).collect();
    dropped.sort();
    assert_eq!(dropped, vec![0, 1, 2, 3, 4, 5, 6]);
    assert!(a.dropped_packets(addr_b()).is_empty());
}

#[test]
fn resent_packets_get_fresh_sequence_numbers() {
    let mut a = GafferState::new();
    for i in 0..34u8 {
        a.preprocess_packet(GafferPacket::new(addr_b(), vec![i]));
    }
    a.receive(
        addr_b(),
        CompleteGafferPacket { seq: 0, ack_seq: 33, ack_field: !0, payload: vec![] },
    );
    let dropped = a.dropped_packets(addr_b());
    assert_eq!(dropped, vec![GafferPacket::new(addr_b(), vec![0])]);
    let (_, bytes) = a.preprocess_packet(dropped.into_iter().next().unwrap());
    let resent = header(bytes);
    assert_eq!(resent.seq, 34);
    assert_eq!(resent.payload, vec![0]);
}

#[test]
fn a_later_ack_replaces_unsent_drops() {
    let mut a = GafferState::new();
    for i in 0..34u8 {
        a.preprocess_packet(GafferPacket::new(addr_b(), vec![i]));
    }
    a.receive(
        addr_b(),
        CompleteGafferPacket { seq: 0, ack_seq: 33, ack_field: !0, payload: vec![] },
    );
    a.receive(
        addr_b(),
        CompleteGafferPacket { seq: 1, ack_seq: 33, ack_field: !0, payload: vec![] },
    );
    assert!(a.dropped_packets(addr_b()).is_empty());
}

#[test]
fn unknown_peer_has_nothing_dropped() {
    let mut state = GafferState::new();
    assert!(state.dropped_packets(addr_a()).is_empty());
}

#[test]
fn assembled_packet_takes_the_connection_ack() {
    let mut connection = Connection::new();
    connection.their_acks = ExternalAcks { last_seq: 77, field: 0b101, initialized: true };
    let packet = assemble_packet(12, GafferPacket::new(addr_a(), vec![4, 2]), &connection);
    assert_eq!(
        packet,
        CompleteGafferPacket { seq: 12, ack_seq: 77, ack_field: 0b101, payload: vec![4, 2] }
    );
}

#[test]
fn dummy_packet_is_empty_for_the_unspecified_address() {
    let packet = GafferPacket::dummy_packet();
    assert_eq!(packet.addr, PeerAddr::V4 { ip: 0, port: 7878 });
    assert!(packet.payload.is_empty());
}
