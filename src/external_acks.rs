//! Which of a peer's packets we have seen: the newest sequence number as
//! anchor, and a 32-bit field that marks the 32 numbers before it.
//!
//! This is what every packet we send to the peer carries back as its
//! acknowledgement.
use crate::sequence::{distance, wrapping_distance, HALF_RANGE, WINDOW};
use vstd::prelude::*;

verus! {

/// Whether bit `i` of `field` is set.
pub open spec fn has_bit(field: u32, i: int) -> bool {
    (field >> (i as u32)) & 1u32 == 1u32
}

/// The bitfield after the anchor moves `d` steps forward: the old anchor
/// becomes bit `d - 1`, every older bit moves up by `d`, and the `d - 1`
/// numbers skipped over stay unmarked.
pub open spec fn shifted_in(field: u32, d: int) -> u32 {
    ((field << 1u32) | 1u32) << ((d - 1) as u32)
}

/// The `k` lowest bits set, for `k` from 0 to 32.
pub open spec fn low_bits(k: int) -> u32 {
    if k <= 0 {
        0
    } else if k >= 32 {
        0xffff_ffff
    } else {
        0xffff_ffffu32 >> ((32 - k) as u32)
    }
}

/// The peer's packets that we have seen: the newest sequence number
/// (`last_seq`) and, in `field`, bit `i` for `last_seq - (i + 1)`.
#[derive(Debug)]
pub struct ExternalAcks {
    pub last_seq: u16,
    pub field: u32,
    /// Whether any packet of the peer has been seen yet.
    pub initialized: bool,
}

impl ExternalAcks {
    /// The state before the peer's first packet.
    pub open spec fn fresh() -> ExternalAcks {
        ExternalAcks { last_seq: 0, field: 0, initialized: false }
    }

    /// The state after seeing the peer's packet `seq`.
    pub open spec fn acked(self, seq: u16) -> ExternalAcks {
        let forward = distance(self.last_seq, seq);
        let backward = distance(seq, self.last_seq);
        if !self.initialized {
            ExternalAcks { last_seq: seq, field: 0, initialized: true }
        } else if forward == 0 {
            self
        } else if forward < HALF_RANGE {
            ExternalAcks {
                last_seq: seq,
                field: if forward <= WINDOW {
                    shifted_in(self.field, forward)
                } else {
                    0
                },
                initialized: true,
            }
        } else if backward <= WINDOW {
            ExternalAcks { field: self.field | (1u32 << ((backward - 1) as u32)), ..self }
        } else {
            self
        }
    }

    /// The peer's packets that the bitfield marks as seen:
    /// `last_seq - (i + 1)` for each set bit `i`.
    pub open spec fn marked(self) -> Set<u16> {
        Set::new(
            |s: u16|
                1 <= distance(s, self.last_seq) <= WINDOW && has_bit(
                    self.field,
                    distance(s, self.last_seq) - 1,
                ),
        )
    }

    /// The peer's packets recorded as seen: the anchor and the marked ones.
    pub open spec fn seen(self) -> Set<u16> {
        if self.initialized {
            self.marked().insert(self.last_seq)
        } else {
            Set::empty()
        }
    }

    /// The state after seeing each packet of `seqs`, in order.
    pub open spec fn acked_all(self, seqs: Seq<u16>) -> ExternalAcks
        decreases seqs.len(),
    {
        if seqs.len() == 0 {
            self
        } else {
            self.acked_all(seqs.drop_last()).acked(seqs.last())
        }
    }

    pub fn new() -> (r: ExternalAcks)
        ensures
            r == ExternalAcks::fresh(),
    {
        ExternalAcks { last_seq: 0, field: 0, initialized: false }
    }

    /// Records that the peer's packet `seq_num` arrived.
    ///
    /// The first packet becomes the anchor. A newer one becomes the anchor,
    /// shifting the bitfield, or clearing it when the jump is wider than the
    /// window. An older one within the window sets its bit; one further
    /// behind, or a repeat of the anchor, changes nothing.
    pub fn ack(&mut self, seq_num: u16)
        ensures
            *final(self) == old(self).acked(seq_num),
    {
        if !self.initialized {
            self.last_seq = seq_num;
            self.field = 0;
            self.initialized = true;
            return;
        }
        let pos_diff = wrapping_distance(self.last_seq, seq_num);
        let neg_diff = wrapping_distance(seq_num, self.last_seq);
        if pos_diff == 0 {
            return;
        }
        if pos_diff < HALF_RANGE {
            if pos_diff <= WINDOW {
                self.field = ((self.field << 1u32) | 1u32) << ((pos_diff - 1) as u32);
            } else {
                self.field = 0;
            }
            self.last_seq = seq_num;
        } else if neg_diff <= WINDOW {
            proof {
                assert(neg_diff >= 1) by {
                    crate::sequence::lemma_distance_back_and_forth(seq_num, self.last_seq);
                }
            }
            self.field = self.field | (1u32 << ((neg_diff - 1) as u32));
        }
    }
}

// Facts about single bits, proved by bit-blasting.

proof fn lemma_bits_equal(f1: u32, f2: u32)
    requires
        forall|j: int| 0 <= j < 32 ==> has_bit(f1, j) == has_bit(f2, j),
    ensures
        f1 == f2,
{
    assert(has_bit(f1, 0) == has_bit(f2, 0));
    assert(has_bit(f1, 1) == has_bit(f2, 1));
    assert(has_bit(f1, 2) == has_bit(f2, 2));
    assert(has_bit(f1, 3) == has_bit(f2, 3));
    assert(has_bit(f1, 4) == has_bit(f2, 4));
    assert(has_bit(f1, 5) == has_bit(f2, 5));
    assert(has_bit(f1, 6) == has_bit(f2, 6));
    assert(has_bit(f1, 7) == has_bit(f2, 7));
    assert(has_bit(f1, 8) == has_bit(f2, 8));
    assert(has_bit(f1, 9) == has_bit(f2, 9));
    assert(has_bit(f1, 10) == has_bit(f2, 10));
    assert(has_bit(f1, 11) == has_bit(f2, 11));
    assert(has_bit(f1, 12) == has_bit(f2, 12));
    assert(has_bit(f1, 13) == has_bit(f2, 13));
    assert(has_bit(f1, 14) == has_bit(f2, 14));
    assert(has_bit(f1, 15) == has_bit(f2, 15));
    assert(has_bit(f1, 16) == has_bit(f2, 16));
    assert(has_bit(f1, 17) == has_bit(f2, 17));
    assert(has_bit(f1, 18) == has_bit(f2, 18));
    assert(has_bit(f1, 19) == has_bit(f2, 19));
    assert(has_bit(f1, 20) == has_bit(f2, 20));
    assert(has_bit(f1, 21) == has_bit(f2, 21));
    assert(has_bit(f1, 22) == has_bit(f2, 22));
    assert(has_bit(f1, 23) == has_bit(f2, 23));
    assert(has_bit(f1, 24) == has_bit(f2, 24));
    assert(has_bit(f1, 25) == has_bit(f2, 25));
    assert(has_bit(f1, 26) == has_bit(f2, 26));
    assert(has_bit(f1, 27) == has_bit(f2, 27));
    assert(has_bit(f1, 28) == has_bit(f2, 28));
    assert(has_bit(f1, 29) == has_bit(f2, 29));
    assert(has_bit(f1, 30) == has_bit(f2, 30));
    assert(has_bit(f1, 31) == has_bit(f2, 31));
    assert(f1 == f2) by (bit_vector)
        requires
            ((f1 >> 0u32) & 1u32 == 1u32) == ((f2 >> 0u32) & 1u32 == 1u32),
            ((f1 >> 1u32) & 1u32 == 1u32) == ((f2 >> 1u32) & 1u32 == 1u32),
            ((f1 >> 2u32) & 1u32 == 1u32) == ((f2 >> 2u32) & 1u32 == 1u32),
            ((f1 >> 3u32) & 1u32 == 1u32) == ((f2 >> 3u32) & 1u32 == 1u32),
            ((f1 >> 4u32) & 1u32 == 1u32) == ((f2 >> 4u32) & 1u32 == 1u32),
            ((f1 >> 5u32) & 1u32 == 1u32) == ((f2 >> 5u32) & 1u32 == 1u32),
            ((f1 >> 6u32) & 1u32 == 1u32) == ((f2 >> 6u32) & 1u32 == 1u32),
            ((f1 >> 7u32) & 1u32 == 1u32) == ((f2 >> 7u32) & 1u32 == 1u32),
            ((f1 >> 8u32) & 1u32 == 1u32) == ((f2 >> 8u32) & 1u32 == 1u32),
            ((f1 >> 9u32) & 1u32 == 1u32) == ((f2 >> 9u32) & 1u32 == 1u32),
            ((f1 >> 10u32) & 1u32 == 1u32) == ((f2 >> 10u32) & 1u32 == 1u32),
            ((f1 >> 11u32) & 1u32 == 1u32) == ((f2 >> 11u32) & 1u32 == 1u32),
            ((f1 >> 12u32) & 1u32 == 1u32) == ((f2 >> 12u32) & 1u32 == 1u32),
            ((f1 >> 13u32) & 1u32 == 1u32) == ((f2 >> 13u32) & 1u32 == 1u32),
            ((f1 >> 14u32) & 1u32 == 1u32) == ((f2 >> 14u32) & 1u32 == 1u32),
            ((f1 >> 15u32) & 1u32 == 1u32) == ((f2 >> 15u32) & 1u32 == 1u32),
            ((f1 >> 16u32) & 1u32 == 1u32) == ((f2 >> 16u32) & 1u32 == 1u32),
            ((f1 >> 17u32) & 1u32 == 1u32) == ((f2 >> 17u32) & 1u32 == 1u32),
            ((f1 >> 18u32) & 1u32 == 1u32) == ((f2 >> 18u32) & 1u32 == 1u32),
            ((f1 >> 19u32) & 1u32 == 1u32) == ((f2 >> 19u32) & 1u32 == 1u32),
            ((f1 >> 20u32) & 1u32 == 1u32) == ((f2 >> 20u32) & 1u32 == 1u32),
            ((f1 >> 21u32) & 1u32 == 1u32) == ((f2 >> 21u32) & 1u32 == 1u32),
            ((f1 >> 22u32) & 1u32 == 1u32) == ((f2 >> 22u32) & 1u32 == 1u32),
            ((f1 >> 23u32) & 1u32 == 1u32) == ((f2 >> 23u32) & 1u32 == 1u32),
            ((f1 >> 24u32) & 1u32 == 1u32) == ((f2 >> 24u32) & 1u32 == 1u32),
            ((f1 >> 25u32) & 1u32 == 1u32) == ((f2 >> 25u32) & 1u32 == 1u32),
            ((f1 >> 26u32) & 1u32 == 1u32) == ((f2 >> 26u32) & 1u32 == 1u32),
            ((f1 >> 27u32) & 1u32 == 1u32) == ((f2 >> 27u32) & 1u32 == 1u32),
            ((f1 >> 28u32) & 1u32 == 1u32) == ((f2 >> 28u32) & 1u32 == 1u32),
            ((f1 >> 29u32) & 1u32 == 1u32) == ((f2 >> 29u32) & 1u32 == 1u32),
            ((f1 >> 30u32) & 1u32 == 1u32) == ((f2 >> 30u32) & 1u32 == 1u32),
            ((f1 >> 31u32) & 1u32 == 1u32) == ((f2 >> 31u32) & 1u32 == 1u32),
    ;
}

proof fn lemma_shifted_in_bit(f: u32, d: u32, j: u32)
    requires
        1 <= d <= 32,
        j < 32,
    ensures
        has_bit(shifted_in(f, d as int), j as int) == (j + 1 == d || (j >= d && has_bit(
            f,
            j - d,
        ))),
{
    assert((((((f << 1u32) | 1u32) << ((d - 1) as u32)) >> j) & 1u32 == 1u32) == (j + 1 == d || (j
        >= d && (f >> ((j - d) as u32)) & 1u32 == 1u32))) by (bit_vector)
        requires
            1 <= d <= 32,
            j < 32,
    ;
}

proof fn lemma_set_bit(f: u32, b: u32, j: u32)
    requires
        b < 32,
        j < 32,
    ensures
        has_bit(f | (1u32 << b), j as int) == (j == b || has_bit(f, j as int)),
{
    assert((((f | (1u32 << b)) >> j) & 1u32 == 1u32) == (j == b || (f >> j) & 1u32 == 1u32))
        by (bit_vector)
        requires
            b < 32,
            j < 32,
    ;
}

proof fn lemma_zero_bits(j: u32)
    requires
        j < 32,
    ensures
        !has_bit(0, j as int),
{
    assert((0u32 >> j) & 1u32 != 1u32) by (bit_vector);
}

proof fn lemma_low_bits_grow(k: u32)
    requires
        k <= 32,
    ensures
        shifted_in(low_bits(k as int), 1) == low_bits(k + 1),
{
    let f = low_bits(k as int);
    let g = low_bits(k + 1);
    if k == 0 {
        assert(f == 0u32 && g == 0xffff_ffffu32 >> 31u32);
        assert(((f << 1u32) | 1u32) << 0u32 == g) by (bit_vector)
            requires
                f == 0u32 && g == 0xffff_ffffu32 >> 31u32,
        ;
    } else if k == 31 {
        assert(f == 0xffff_ffffu32 >> 1u32 && g == 0xffff_ffffu32);
        assert(((f << 1u32) | 1u32) << 0u32 == g) by (bit_vector)
            requires
                f == 0xffff_ffffu32 >> 1u32 && g == 0xffff_ffffu32,
        ;
    } else if k < 31 {
        assert(f == 0xffff_ffffu32 >> ((32u32 - k) as u32));
        assert(g == 0xffff_ffffu32 >> ((31u32 - k) as u32));
        assert(((f << 1u32) | 1u32) << 0u32 == g) by (bit_vector)
            requires
                1 <= k < 31,
                f == 0xffff_ffffu32 >> ((32u32 - k) as u32),
                g == 0xffff_ffffu32 >> ((31u32 - k) as u32),
        ;
    } else {
        assert(f == 0xffff_ffffu32 && g == 0xffff_ffffu32);
        assert(((f << 1u32) | 1u32) << 0u32 == g) by (bit_vector)
            requires
                f == 0xffff_ffffu32 && g == 0xffff_ffffu32,
        ;
    }
    assert(shifted_in(f, 1) == ((f << 1u32) | 1u32) << 0u32);
}

proof fn lemma_low_bits_bit(k: u32, i: u32)
    requires
        k <= 32,
        i < 32,
    ensures
        has_bit(low_bits(k as int), i as int) == (i < k),
{
    if k == 0 {
        lemma_zero_bits(i);
    } else if k < 32 {
        assert((((0xffff_ffffu32 >> ((32u32 - k) as u32)) >> i) & 1u32 == 1u32) == (i < k)) by (bit_vector)
            requires
                1 <= k < 32,
                i < 32,
        ;
    } else {
        assert((0xffff_ffffu32 >> i) & 1u32 == 1u32) by (bit_vector)
            requires
                i < 32,
        ;
    }
}

// What the state means, and the laws it obeys.

/// What one packet does to the packets recorded as seen. The first one is
/// all there is. A newer one within the window joins them, and those that
/// fall out of the window behind it are forgotten; one beyond the window
/// starts afresh. An older one within the window joins them; anything else
/// changes nothing.
pub proof fn lemma_ack_records_seen(a: ExternalAcks, seq: u16)
    ensures
        !a.initialized ==> a.acked(seq).last_seq == seq && a.acked(seq).seen() == set![seq],
        a.initialized && 1 <= distance(a.last_seq, seq) <= WINDOW ==> {
            &&& a.acked(seq).last_seq == seq
            &&& a.acked(seq).seen() == Set::new(
                |s: u16| a.seen().insert(seq).contains(s) && distance(s, seq) <= WINDOW,
            )
        },
        a.initialized && WINDOW < distance(a.last_seq, seq) < HALF_RANGE ==> {
            &&& a.acked(seq).last_seq == seq
            &&& a.acked(seq).seen() == set![seq]
        },
        a.initialized && distance(a.last_seq, seq) >= HALF_RANGE && distance(seq, a.last_seq)
            <= WINDOW ==> {
            &&& a.acked(seq).last_seq == a.last_seq
            &&& a.acked(seq).seen() == a.seen().insert(seq)
        },
        a.initialized && (distance(a.last_seq, seq) == 0 || (distance(a.last_seq, seq)
            >= HALF_RANGE && distance(seq, a.last_seq) > WINDOW)) ==> a.acked(seq) == a,
{
    let n = a.acked(seq);
    let last = a.last_seq;
    let fwd = distance(last, seq);
    let back = distance(seq, last);
    if !a.initialized {
        assert forall|s: u16| !n.marked().contains(s) by {
            if 1 <= distance(s, seq) <= WINDOW {
                lemma_zero_bits((distance(s, seq) - 1) as u32);
            }
        }
        assert(n.seen() =~= set![seq]);
    } else if 1 <= fwd <= WINDOW {
        let target = Set::new(|s: u16| a.seen().insert(seq).contains(s) && distance(s, seq) <= WINDOW);
        assert forall|s: u16| n.seen().contains(s) == target.contains(s) by {
            let e = distance(s, seq);
            crate::sequence::lemma_distance_add(s, last, seq);
            crate::sequence::lemma_distance_add(s, seq, last);
            crate::sequence::lemma_distance_back_and_forth(s, seq);
            crate::sequence::lemma_distance_back_and_forth(s, last);
            crate::sequence::lemma_distance_back_and_forth(last, seq);
            if 1 <= e <= WINDOW {
                lemma_shifted_in_bit(a.field, fwd as u32, (e - 1) as u32);
            }
        }
        assert(n.seen() =~= target);
    } else if WINDOW < fwd < HALF_RANGE {
        assert forall|s: u16| !n.marked().contains(s) by {
            if 1 <= distance(s, seq) <= WINDOW {
                lemma_zero_bits((distance(s, seq) - 1) as u32);
            }
        }
        assert(n.seen() =~= set![seq]);
    } else if fwd >= HALF_RANGE && back <= WINDOW {
        crate::sequence::lemma_distance_back_and_forth(seq, last);
        assert forall|s: u16| n.seen().contains(s) == a.seen().insert(seq).contains(s) by {
            crate::sequence::lemma_distance_back_and_forth(s, last);
            crate::sequence::lemma_distance_back_and_forth(s, seq);
            if 1 <= distance(s, last) <= WINDOW {
                lemma_set_bit(a.field, (back - 1) as u32, (distance(s, last) - 1) as u32);
            }
        }
        assert(n.seen() =~= a.seen().insert(seq));
    }
}

/// Two states with the same anchor and the same packets seen are the same
/// state: the bitfield holds nothing but the marks.
pub proof fn lemma_seen_determines_state(a: ExternalAcks, b: ExternalAcks)
    requires
        a.initialized,
        b.initialized,
        a.last_seq == b.last_seq,
        a.seen() == b.seen(),
    ensures
        a == b,
{
    assert forall|j: int| 0 <= j < 32 implies has_bit(a.field, j) == has_bit(b.field, j) by {
        let s = ((a.last_seq as int - (j + 1)) % 0x1_0000) as u16;
        assert(distance(s, a.last_seq) == j + 1);
        assert(a.marked().contains(s) == has_bit(a.field, j));
        assert(b.marked().contains(s) == has_bit(b.field, j));
        assert(s != a.last_seq);
        assert(a.seen().contains(s) == a.marked().contains(s));
        assert(b.seen().contains(s) == b.marked().contains(s));
        assert(a.seen().contains(s) == b.seen().contains(s));
    }
    lemma_bits_equal(a.field, b.field);
}

/// The anchor after `seqs`, all at most `WINDOW` behind `m`, is the one of
/// them nearest to `m`, and the packets seen are exactly those of `seqs`.
proof fn lemma_acks_below(seqs: Seq<u16>, m: u16)
    requires
        seqs.len() > 0,
        forall|i: int| 0 <= i < seqs.len() ==> distance(#[trigger] seqs[i], m) <= WINDOW,
    ensures
        ExternalAcks::fresh().acked_all(seqs).initialized,
        seqs.contains(ExternalAcks::fresh().acked_all(seqs).last_seq),
        forall|i: int|
            0 <= i < seqs.len() ==> distance(ExternalAcks::fresh().acked_all(seqs).last_seq, m)
                <= distance(#[trigger] seqs[i], m),
        ExternalAcks::fresh().acked_all(seqs).seen() == seqs.to_set(),
    decreases seqs.len(),
{
    let fresh = ExternalAcks::fresh();
    let p = seqs.drop_last();
    let x = seqs.last();
    assert(seqs =~= p.push(x));
    lemma_to_set_push(p, x);
    lemma_ack_records_seen(fresh.acked_all(p), x);
    assert(seqs[seqs.len() - 1] == x);
    if p.len() == 0 {
        assert(p.to_set() =~= Set::<u16>::empty());
        assert(seqs.to_set() =~= set![x]);
    } else {
        lemma_acks_below(p, m);
        let prev = fresh.acked_all(p);
        let l = prev.last_seq;
        assert(forall|i: int| 0 <= i < p.len() ==> p[i] == seqs[i]);
        assert(distance(x, m) <= WINDOW);
        let li = choose|i: int| 0 <= i < p.len() && p[i] == l;
        assert(distance(l, m) <= WINDOW);
        crate::sequence::lemma_distance_add(l, x, m);
        crate::sequence::lemma_distance_add(x, l, m);
        crate::sequence::lemma_distance_back_and_forth(l, x);
        crate::sequence::lemma_distance_back_and_forth(x, m);
        crate::sequence::lemma_distance_back_and_forth(l, m);
        if distance(x, m) == distance(l, m) {
            assert(x == l);
            assert(p.contains(x));
            assert(p.to_set().insert(x) =~= p.to_set());
        } else if distance(x, m) < distance(l, m) {
            assert(1 <= distance(l, x) <= WINDOW);
            assert forall|y: u16| p.to_set().contains(y) implies distance(y, x) <= WINDOW by {
                let i = choose|i: int| 0 <= i < p.len() && p[i] == y;
                assert(distance(y, m) <= WINDOW);
                assert(distance(l, m) <= distance(y, m));
                crate::sequence::lemma_distance_add(y, x, m);
                crate::sequence::lemma_distance_back_and_forth(y, x);
            }
            assert(fresh.acked_all(seqs).seen() =~= seqs.to_set());
            assert(seqs.contains(x));
        } else {
            assert(1 <= distance(x, l) <= WINDOW);
            assert(distance(l, x) >= HALF_RANGE);
            assert(seqs[li] == l);
        }
    }
}

/// Within the window the order of arrival does not matter: when every
/// number in `seqs` lies at most `WINDOW` behind `m`, one of them, seeing
/// them in any order leaves `m` as the anchor and exactly the numbers of
/// `seqs` recorded as seen.
pub proof fn lemma_order_within_window(seqs: Seq<u16>, m: u16)
    requires
        seqs.contains(m),
        forall|i: int| 0 <= i < seqs.len() ==> distance(#[trigger] seqs[i], m) <= WINDOW,
    ensures
        ExternalAcks::fresh().acked_all(seqs).last_seq == m,
        ExternalAcks::fresh().acked_all(seqs).seen() == seqs.to_set(),
{
    lemma_acks_below(seqs, m);
    let mi = choose|i: int| 0 <= i < seqs.len() && seqs[i] == m;
    assert(distance(m, m) == 0);
    let l = ExternalAcks::fresh().acked_all(seqs).last_seq;
    assert(distance(l, m) <= distance(seqs[mi], m));
    crate::sequence::lemma_distance_back_and_forth(l, m);
}

/// Two arrival orders of the same packets, all within the window behind one
/// of them, leave the same state.
pub proof fn lemma_arrival_order_irrelevant(first: Seq<u16>, second: Seq<u16>, m: u16)
    requires
        first.contains(m),
        first.to_set() == second.to_set(),
        forall|i: int| 0 <= i < first.len() ==> distance(#[trigger] first[i], m) <= WINDOW,
    ensures
        ExternalAcks::fresh().acked_all(first) == ExternalAcks::fresh().acked_all(second),
{
    assert(first.to_set().contains(m));
    assert(second.contains(m));
    assert forall|i: int| 0 <= i < second.len() implies distance(#[trigger] second[i], m) <= WINDOW by {
        assert(second.to_set().contains(second[i]));
        let j = choose|j: int| 0 <= j < first.len() && first[j] == second[i];
    }
    lemma_order_within_window(first, m);
    lemma_order_within_window(second, m);
    lemma_seen_determines_state(
        ExternalAcks::fresh().acked_all(first),
        ExternalAcks::fresh().acked_all(second),
    );
}

proof fn lemma_to_set_push(p: Seq<u16>, x: u16)
    ensures
        p.push(x).to_set() == p.to_set().insert(x),
{
    let q = p.push(x);
    assert forall|y: u16| q.contains(y) == (p.contains(y) || y == x) by {
        if p.contains(y) {
            let i = choose|i: int| 0 <= i < p.len() && p[i] == y;
            assert(q[i] == y);
        }
        if q.contains(y) && y != x {
            let i = choose|i: int| 0 <= i < q.len() && q[i] == y;
            assert(p[i] == y);
        }
        assert(q[p.len() as int] == x);
    }
    assert(q.to_set() =~= p.to_set().insert(x));
}

/// Seeing the packets `0, 1, ..., n` in order leaves `n` as the anchor and
/// marks the `min(n, 32)` packets before it: every earlier packet that the
/// window can still describe.
pub proof fn lemma_in_order_acks(n: u16)
    ensures
        ExternalAcks::fresh().acked_all(Seq::new((n + 1) as nat, |i: int| i as u16)) == (ExternalAcks {
            last_seq: n,
            field: low_bits(n as int),
            initialized: true,
        }),
        forall|i: int|
            0 <= i < 32 ==> (has_bit(low_bits(n as int), i) <==> i < n),
    decreases n,
{
    let seqs = Seq::new((n + 1) as nat, |i: int| i as u16);
    let fresh = ExternalAcks::fresh();
    if n == 0 {
        assert(seqs.drop_last() =~= Seq::<u16>::empty());
        assert(fresh.acked_all(seqs) == fresh.acked_all(Seq::<u16>::empty()).acked(0));
    } else {
        let m = (n - 1) as u16;
        lemma_in_order_acks(m);
        assert(seqs.drop_last() =~= Seq::new((m + 1) as nat, |i: int| i as u16));
        let prev = fresh.acked_all(seqs.drop_last());
        assert(prev == ExternalAcks { last_seq: m, field: low_bits(m as int), initialized: true });
        assert(fresh.acked_all(seqs) == prev.acked(n));
        assert(distance(m, n) == 1);
        let k: u32 = if m >= 32 { 32 } else { m as u32 };
        lemma_low_bits_grow(k);
        assert(low_bits(m as int) == low_bits(k as int));
        assert(low_bits(n as int) == low_bits(k + 1));
    }
    let k: u32 = if n >= 32 { 32 } else { n as u32 };
    assert forall|i: int| 0 <= i < 32 implies (has_bit(low_bits(n as int), i) <==> i < n) by {
        lemma_low_bits_bit(k, i as u32);
    }
}

} // verus!
