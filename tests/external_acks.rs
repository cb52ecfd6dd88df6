use gaffer_udp::connection::ExternalAcks;

#[test]
fn lib_acking_single_packet() {
    let mut acks = ExternalAcks::new();
    acks.ack(0);

    assert_eq!(acks.last_seq, 0);
    assert_eq!(acks.field, 0);
}

#[test]
fn lib_acking_several_packets() {
    let mut acks = ExternalAcks::new();
    acks.ack(0);
    acks.ack(1);
    acks.ack(2);

    assert_eq!(acks.last_seq, 2);
    assert_eq!(acks.field, 1 | (1 << 1));
}

#[test]
fn acking_several_packets_out_of_order() {
    let mut acks = ExternalAcks::new();
    acks.ack(1);
    acks.ack(0);
    acks.ack(2);

    assert_eq!(acks.last_seq, 2);
    assert_eq!(acks.field, 1 | (1 << 1));
}

#[test]
fn acking_a_nearly_full_set_of_packets() {
    let mut acks = ExternalAcks::new();
    for idx in 0..32 {
        acks.ack(idx);
    }

    assert_eq!(acks.last_seq, 31);
    assert_eq!(acks.field, !0 >> 1);
}

#[test]
fn lib_acking_a_full_set_of_packets() {
    let mut acks = ExternalAcks::new();
    for idx in 0..33 {
        acks.ack(idx);
    }

    assert_eq!(acks.last_seq, 32);
    assert_eq!(acks.field, !0);
}

#[test]
fn acking_to_the_edge_forward() {
    let mut acks = ExternalAcks::new();
    acks.ack(0);
    acks.ack(32);

    assert_eq!(acks.last_seq, 32);
    assert_eq!(acks.field, 1 << 31);
}

#[test]
fn acking_too_far_forward() {
    let mut acks = ExternalAcks::new();
    acks.ack(0);
    acks.ack(1);
    acks.ack(34);

    assert_eq!(acks.last_seq, 34);
    assert_eq!(acks.field, 0);
}

#[test]
fn acking_a_whole_buffer_too_far_forward() {
    let mut acks = ExternalAcks::new();
    acks.ack(0);
    acks.ack(60);

    assert_eq!(acks.last_seq, 60);
    assert_eq!(acks.field, 0);
}

#[test]
fn acking_too_far_backward() {
    let mut acks = ExternalAcks::new();
    acks.ack(33);
    acks.ack(0);

    assert_eq!(acks.last_seq, 33);
    assert_eq!(acks.field, 0);
}

#[test]
fn lib_acking_around_zero() {
    let mut acks = ExternalAcks::new();
    for idx in 0..33u16 {
        acks.ack(idx.wrapping_sub(16));
    }
    assert_eq!(acks.last_seq, 16);
    assert_eq!(acks.field, !0);
}

#[test]
fn ignores_old_packets() {
    let mut acks = ExternalAcks::new();
    acks.ack(40);
    acks.ack(0);
    assert_eq!(acks.last_seq, 40);
    assert_eq!(acks.field, 0);
}

#[test]
fn ignores_really_old_packets() {
    let mut acks = ExternalAcks::new();
    acks.ack(30000);
    acks.ack(0);
    assert_eq!(acks.last_seq, 30000);
    assert_eq!(acks.field, 0);
}

#[test]
fn skips_missing_acks_correctly() {
    let mut acks = ExternalAcks::new();
    acks.ack(0);
    acks.ack(1);
    acks.ack(6);
    acks.ack(4);
    assert_eq!(acks.last_seq, 6);
    assert_eq!(
        acks.field,
        0 | (1 << 1) | (0 << 2) | (0 << 3) | (1 << 4) | (1 << 5)
    );
}

#[test]
fn fresh_acks_are_uninitialized() {
    let acks = ExternalAcks::new();
    assert_eq!(acks.last_seq, 0);
    assert_eq!(acks.field, 0);
    assert!(!acks.initialized);
}

#[test]
fn first_packet_sets_the_anchor_anywhere() {
    let mut acks = ExternalAcks::new();
    acks.ack(50000);
    assert!(acks.initialized);
    assert_eq!(acks.last_seq, 50000);
    assert_eq!(acks.field, 0);
}

#[test]
fn in_order_acks_mark_every_earlier_packet_in_the_window() {
    let mut acks = ExternalAcks::new();
    for idx in 0..=40u16 {
        acks.ack(idx);
    }
    assert_eq!(acks.last_seq, 40);
    assert_eq!(acks.field, 0xffff_ffff);

    let mut short = ExternalAcks::new();
    for idx in 0..=5u16 {
        short.ack(idx);
    }
    assert_eq!(short.last_seq, 5);
    assert_eq!(short.field, 0b1_1111);
}

#[test]
fn out_of_order_matches_in_order() {
    let mut in_order = ExternalAcks::new();
    in_order.ack(0);
    in_order.ack(1);
    in_order.ack(2);
    let mut shuffled = ExternalAcks::new();
    shuffled.ack(1);
    shuffled.ack(0);
    shuffled.ack(2);
    assert_eq!(in_order.last_seq, shuffled.last_seq);
    assert_eq!(in_order.field, shuffled.field);
    assert_eq!(shuffled.last_seq, 2);
    assert_eq!(shuffled.field, 0b11);
}

#[test]
fn window_exceeded_clears_the_field() {
    let mut acks = ExternalAcks::new();
    acks.ack(0);
    acks.ack(34);
    assert_eq!(acks.last_seq, 34);
    assert_eq!(acks.field, 0);
}

#[test]
fn repeated_anchor_changes_nothing() {
    let mut acks = ExternalAcks::new();
    acks.ack(7);
    acks.ack(5);
    acks.ack(7);
    assert_eq!(acks.last_seq, 7);
    assert_eq!(acks.field, 0b10);
}

#[test]
fn shift_keeps_older_bits_and_skips_gaps() {
    let mut acks = ExternalAcks::new();
    acks.ack(10);
    acks.ack(8);
    acks.ack(13);
    // 12, 11 missing; 10 present; 9 missing; 8 present
    assert_eq!(acks.last_seq, 13);
    assert_eq!(acks.field, 0b10100);
}

#[test]
fn forward_across_wraparound() {
    let mut acks = ExternalAcks::new();
    acks.ack(65535);
    acks.ack(1);
    assert_eq!(acks.last_seq, 1);
    assert_eq!(acks.field, 0b10);
}

#[test]
fn half_range_jump_counts_as_behind() {
    let mut acks = ExternalAcks::new();
    acks.ack(0);
    acks.ack(32000);
    assert_eq!(acks.last_seq, 0);
    assert_eq!(acks.field, 0);
    acks.ack(31999);
    assert_eq!(acks.last_seq, 31999);
    assert_eq!(acks.field, 0);
}
