//! Our packets that wait for the peer's acknowledgement, and how an
//! acknowledgement sorts them into acknowledged, lost, and still waiting.
use crate::external_acks::{has_bit, ExternalAcks};
use crate::packet::GafferPacket;
use crate::sequence::{distance, wrapping_distance, HALF_RANGE, WINDOW};
use std::collections::HashMap;
use vstd::prelude::*;

verus! {

broadcast use vstd::std_specs::hash::group_hash_axioms;

/// Whether the acknowledgement `(seq, field)` from the peer covers our
/// packet `k`: it is the anchor, or within the window with its bit set.
pub open spec fn is_acked(seq: u16, field: u32, k: u16) -> bool {
    let d = distance(k, seq);
    d == 0 || (d <= WINDOW && has_bit(field, d - 1))
}

/// Whether the acknowledgement anchored at `seq` has left our packet `k`
/// behind for good: further back than the window, yet not so far that `k`
/// counts as newer than `seq`.
pub open spec fn is_lost(seq: u16, k: u16) -> bool {
    let d = distance(k, seq);
    WINDOW < d < HALF_RANGE
}

/// The packets of `window` that the acknowledgement `(seq, field)` decides
/// nothing about.
pub open spec fn still_waiting(
    window: Map<u16, GafferPacket>,
    seq: u16,
    field: u32,
) -> Map<u16, GafferPacket> {
    Map::new(
        |k: u16| window.contains_key(k) && !is_acked(seq, field, k) && !is_lost(seq, k),
        |k: u16| window[k],
    )
}

/// The header that a peer builds from its record of our packets
/// acknowledges exactly the packets that the record holds as seen.
pub proof fn lemma_header_acks_seen(acks: ExternalAcks, k: u16)
    requires
        acks.initialized,
    ensures
        is_acked(acks.last_seq, acks.field, k) == acks.seen().contains(k),
{
    crate::sequence::lemma_distance_back_and_forth(k, acks.last_seq);
}

/// `out` lists each packet of `window` that the acknowledgement anchored at
/// `seq` leaves lost, with its sequence number, once, and nothing else.
pub open spec fn lists_lost(
    window: Map<u16, GafferPacket>,
    seq: u16,
    out: Seq<(u16, GafferPacket)>,
) -> bool {
    &&& forall|i: int|
        0 <= i < out.len() ==> {
            &&& window.contains_key(#[trigger] out[i].0)
            &&& is_lost(seq, out[i].0)
            &&& out[i].1 == window[out[i].0]
        }
    &&& forall|i: int, j: int| 0 <= i < j < out.len() ==> out[i].0 != out[j].0
    &&& forall|k: u16|
        window.contains_key(k) && is_lost(seq, k) ==> exists|i: int|
            0 <= i < out.len() && #[trigger] out[i].0 == k
}

/// Our packets sent and not yet acknowledged or given up, by sequence number.
#[derive(Debug)]
pub struct AckRecord {
    packets: HashMap<u16, GafferPacket>,
}

impl View for AckRecord {
    type V = Map<u16, GafferPacket>;

    closed spec fn view(&self) -> Map<u16, GafferPacket> {
        self.packets@
    }
}

proof fn lemma_bit_test(field: u32, i: u32)
    requires
        i < 32,
    ensures
        (field & (1u32 << i) != 0u32) == has_bit(field, i as int),
{
    assert((field & (1u32 << i) != 0u32) == ((field >> i) & 1u32 == 1u32)) by (bit_vector)
        requires
            i < 32,
    ;
}

impl AckRecord {
    pub fn new() -> (r: AckRecord)
        ensures
            r@ == Map::<u16, GafferPacket>::empty(),
    {
        AckRecord { packets: HashMap::new() }
    }

    pub fn is_empty(&mut self) -> (r: bool)
        ensures
            r == (old(self)@.len() == 0),
            *final(self) == *old(self),
    {
        self.packets.is_empty()
    }

    pub fn len(&mut self) -> (r: usize)
        ensures
            r == old(self)@.len(),
            *final(self) == *old(self),
    {
        self.packets.len()
    }

    /// Adds a packet to the waiting packets, in place of any other under the
    /// same sequence number.
    pub fn enqueue(&mut self, seq: u16, packet: GafferPacket)
        ensures
            final(self)@ == old(self)@.insert(seq, packet),
    {
        self.packets.insert(seq, packet);
    }

    /// Applies the peer's acknowledgement `(seq, seq_field)`: forgets the
    /// packets it covers, and removes and returns those it leaves lost.
    /// Packets within the window without their bit, and packets newer than
    /// `seq`, keep waiting.
    pub fn ack(&mut self, seq: u16, seq_field: u32) -> (r: Vec<(u16, GafferPacket)>)
        ensures
            final(self)@ == still_waiting(old(self)@, seq, seq_field),
            lists_lost(old(self)@, seq, r@),
    {
        let ghost window = self.packets@;
        let mut acked_seqs: Vec<u16> = Vec::new();
        let mut lost_seqs: Vec<u16> = Vec::new();
        for k in it: self.packets.keys()
            invariant
                self.packets@ == window,
                forall|key: u16|
                    window.contains_key(key) ==> exists|j: int|
                        0 <= j < it.seq().len() && *it.seq()[j] == key,
                forall|j: int| 0 <= j < acked_seqs.len() ==> is_acked(seq, seq_field, #[trigger] acked_seqs@[j]),
                forall|j: int| 0 <= j < lost_seqs.len() ==> is_lost(seq, #[trigger] lost_seqs@[j]),
                forall|j: int|
                    0 <= j < it.index() ==> {
                        &&& is_acked(seq, seq_field, *it.seq()[j]) ==> acked_seqs@.contains(*it.seq()[j])
                        &&& is_lost(seq, *it.seq()[j]) ==> lost_seqs@.contains(*it.seq()[j])
                    },
        {
            let ghost acked_before = acked_seqs@;
            let ghost lost_before = lost_seqs@;
            proof {
                assert(*k == *it.seq()[it.index()]);
            }
            let diff = wrapping_distance(*k, seq);
            if diff == 0 {
                acked_seqs.push(*k);
            } else if diff <= WINDOW {
                proof {
                    lemma_bit_test(seq_field, (diff - 1) as u32);
                }
                if seq_field & (1u32 << ((diff - 1) as u32)) != 0 {
                    acked_seqs.push(*k);
                }
            } else if diff < HALF_RANGE {
                lost_seqs.push(*k);
            }
            proof {
                assert forall|x: u16| acked_before.contains(x) implies acked_seqs@.contains(x) by {
                    let i = choose|i: int| 0 <= i < acked_before.len() && acked_before[i] == x;
                    assert(acked_seqs@[i] == x);
                }
                assert forall|x: u16| lost_before.contains(x) implies lost_seqs@.contains(x) by {
                    let i = choose|i: int| 0 <= i < lost_before.len() && lost_before[i] == x;
                    assert(lost_seqs@[i] == x);
                }
                if is_acked(seq, seq_field, *k) {
                    assert(acked_seqs@[acked_seqs@.len() - 1] == *k);
                }
                if is_lost(seq, *k) {
                    assert(lost_seqs@[lost_seqs@.len() - 1] == *k);
                }
            }
        }
        assert(forall|key: u16|
            window.contains_key(key) && is_acked(seq, seq_field, key) ==> acked_seqs@.contains(key));
        assert(forall|key: u16| window.contains_key(key) && is_lost(seq, key) ==> lost_seqs@.contains(key));
        let mut i: usize = 0;
        while i < acked_seqs.len()
            invariant
                i <= acked_seqs.len(),
                self.packets@ == Map::new(
                    |key: u16| window.contains_key(key) && !acked_seqs@.take(i as int).contains(key),
                    |key: u16| window[key],
                ),
            decreases acked_seqs.len() - i,
        {
            let a = acked_seqs[i];
            let ghost taken = acked_seqs@.take(i as int);
            proof {
                assert(acked_seqs@.take(i + 1) =~= taken.push(a));
                assert forall|key: u16| taken.contains(key) implies taken.push(a).contains(key) by {
                    let w = choose|w: int| 0 <= w < taken.len() && taken[w] == key;
                    assert(taken.push(a)[w] == key);
                }
                assert forall|key: u16| #[trigger] taken.push(a).contains(key) implies taken.contains(key) || key == a by {
                    let w = choose|w: int| 0 <= w < taken.len() + 1 && taken.push(a)[w] == key;
                    if w < taken.len() {
                        assert(taken[w] == key);
                    }
                }
                assert(taken.push(a)[i as int] == a);
            }
            self.packets.remove(&a);
            proof {
                assert(self.packets@ =~= Map::new(
                    |key: u16| window.contains_key(key) && !acked_seqs@.take(i + 1).contains(key),
                    |key: u16| window[key],
                ));
            }
            i = i + 1;
        }
        assert(acked_seqs@.take(acked_seqs@.len() as int) =~= acked_seqs@);
        let ghost after_acks = self.packets@;
        let mut dropped: Vec<(u16, GafferPacket)> = Vec::new();
        let mut i: usize = 0;
        while i < lost_seqs.len()
            invariant
                i <= lost_seqs.len(),
                after_acks == Map::new(
                    |key: u16| window.contains_key(key) && !acked_seqs@.contains(key),
                    |key: u16| window[key],
                ),
                forall|j: int| 0 <= j < acked_seqs.len() ==> is_acked(seq, seq_field, #[trigger] acked_seqs@[j]),
                forall|j: int| 0 <= j < lost_seqs.len() ==> is_lost(seq, #[trigger] lost_seqs@[j]),
                self.packets@ == Map::new(
                    |key: u16| after_acks.contains_key(key) && !lost_seqs@.take(i as int).contains(key),
                    |key: u16| window[key],
                ),
                forall|o: int|
                    0 <= o < dropped.len() ==> {
                        &&& window.contains_key(#[trigger] dropped@[o].0)
                        &&& is_lost(seq, dropped@[o].0)
                        &&& dropped@[o].1 == window[dropped@[o].0]
                        &&& lost_seqs@.take(i as int).contains(dropped@[o].0)
                    },
                forall|o: int, q: int| 0 <= o < q < dropped.len() ==> dropped@[o].0 != dropped@[q].0,
                forall|j: int|
                    0 <= j < i && window.contains_key(#[trigger] lost_seqs@[j]) ==> exists|o: int|
                        0 <= o < dropped.len() && #[trigger] dropped@[o].0 == lost_seqs@[j],
            decreases lost_seqs.len() - i,
        {
            let k = lost_seqs[i];
            let ghost taken = lost_seqs@.take(i as int);
            let ghost dropped_before = dropped@;
            proof {
                assert(lost_seqs@.take(i + 1) =~= taken.push(k));
                assert forall|key: u16| taken.contains(key) implies taken.push(k).contains(key) by {
                    let w = choose|w: int| 0 <= w < taken.len() && taken[w] == key;
                    assert(taken.push(k)[w] == key);
                }
                assert forall|key: u16| #[trigger] taken.push(k).contains(key) implies taken.contains(key) || key == k by {
                    let w = choose|w: int| 0 <= w < taken.len() + 1 && taken.push(k)[w] == key;
                    if w < taken.len() {
                        assert(taken[w] == key);
                    }
                }
                assert(taken.push(k)[i as int] == k);
            }
            match self.packets.remove(&k) {
                Some(p) => {
                    dropped.push((k, p));
                    proof {
                        assert(dropped@[dropped@.len() - 1].0 == k);
                    }
                },
                None => {},
            }
            proof {
                assert(self.packets@ =~= Map::new(
                    |key: u16| after_acks.contains_key(key) && !lost_seqs@.take(i + 1).contains(key),
                    |key: u16| window[key],
                ));
                assert forall|j: int|
                    0 <= j < i + 1 && window.contains_key(#[trigger] lost_seqs@[j]) implies exists|o: int|
                        0 <= o < dropped.len() && #[trigger] dropped@[o].0 == lost_seqs@[j] by {
                    if j < i {
                        let o = choose|o: int| 0 <= o < dropped_before.len() && dropped_before[o].0 == lost_seqs@[j];
                        assert(dropped@[o].0 == lost_seqs@[j]);
                    } else {
                        assert(!acked_seqs@.contains(k)) by {
                            if acked_seqs@.contains(k) {
                                let w = choose|w: int| 0 <= w < acked_seqs.len() && acked_seqs@[w] == k;
                                assert(is_acked(seq, seq_field, acked_seqs@[w]));
                            }
                        }
                        if !taken.contains(k) {
                            assert(dropped@[dropped@.len() - 1].0 == k);
                        } else {
                            let w = choose|w: int| 0 <= w < taken.len() && taken[w] == k;
                            assert(lost_seqs@[w] == k);
                            let o = choose|o: int| 0 <= o < dropped_before.len() && dropped_before[o].0 == lost_seqs@[w];
                            assert(dropped@[o].0 == k);
                        }
                    }
                }
            }
            i = i + 1;
        }
        assert(lost_seqs@.take(lost_seqs@.len() as int) =~= lost_seqs@);
        proof {
            assert forall|key: u16| window.contains_key(key) && is_lost(seq, key) implies exists|o: int|
                0 <= o < dropped.len() && #[trigger] dropped@[o].0 == key by {
                let j = choose|j: int| 0 <= j < lost_seqs.len() && lost_seqs@[j] == key;
                assert(window.contains_key(lost_seqs@[j]));
            }
            assert forall|key: u16| #[trigger] acked_seqs@.contains(key) implies is_acked(seq, seq_field, key) by {
                let w = choose|w: int| 0 <= w < acked_seqs.len() && acked_seqs@[w] == key;
                assert(is_acked(seq, seq_field, acked_seqs@[w]));
            }
            assert forall|key: u16| #[trigger] lost_seqs@.contains(key) implies is_lost(seq, key) by {
                let w = choose|w: int| 0 <= w < lost_seqs.len() && lost_seqs@[w] == key;
                assert(is_lost(seq, lost_seqs@[w]));
            }
            assert(self.packets@ =~= still_waiting(window, seq, seq_field));
        }
        dropped
    }
}

} // verus!
