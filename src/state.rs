//! The protocol engine: one connection per peer address, created on first
//! use and kept for the engine's lifetime.
//!
//! Before each datagram goes out, `preprocess_packet` gives it the next
//! sequence number and the current acknowledgement of the peer; after each
//! one comes in, `receive` records it and sorts our waiting packets by the
//! peer's acknowledgement. Packets found lost wait in the connection until
//! `dropped_packets` hands them out to be sent again, each under a new
//! sequence number.
use crate::ack_record::{lists_lost, still_waiting};
use crate::connection::{Connection, ConnectionView};
use crate::packet::{encode, CompleteGafferPacket, GafferPacket, PeerAddr, WireView};
use crate::sequence::next_seq;
use vstd::prelude::*;

verus! {

/// The header and payload of the packet that goes out on connection `c`
/// with `payload`.
pub open spec fn outgoing(c: ConnectionView, payload: Seq<u8>) -> WireView {
    WireView {
        seq: c.seq_num,
        ack_seq: c.their_acks.last_seq,
        ack_field: c.their_acks.field,
        payload: payload,
    }
}

/// Connection `c` after `p` goes out on it.
pub open spec fn after_send(c: ConnectionView, p: GafferPacket) -> ConnectionView {
    ConnectionView { seq_num: next_seq(c.seq_num), waiting: c.waiting.insert(c.seq_num, p), ..c }
}

/// Connection `c` after the peer's packet `w` comes in, where `lost` is the
/// listing of the packets that its acknowledgement leaves lost.
pub open spec fn after_receive(
    c: ConnectionView,
    w: WireView,
    lost: Seq<(u16, GafferPacket)>,
) -> ConnectionView {
    ConnectionView {
        seq_num: c.seq_num,
        dropped: lost.map_values(|e: (u16, GafferPacket)| e.1),
        waiting: still_waiting(c.waiting, w.ack_seq, w.ack_field),
        their_acks: c.their_acks.acked(w.seq),
    }
}

/// The per-peer state of one endpoint.
pub struct GafferState {
    connections: Vec<(PeerAddr, Connection)>,
}

/// The connections that `entries` hold, by address.
pub closed spec fn entries_view(entries: Seq<(PeerAddr, Connection)>) -> Map<PeerAddr, ConnectionView> {
    Map::new(
        |a: PeerAddr| exists|i: int| 0 <= i < entries.len() && entries[i].0 == a,
        |a: PeerAddr| entries[choose|i: int| 0 <= i < entries.len() && entries[i].0 == a].1@,
    )
}

spec fn addresses_unique(entries: Seq<(PeerAddr, Connection)>) -> bool {
    forall|i: int, j: int| 0 <= i < j < entries.len() ==> entries[i].0 != entries[j].0
}

/// The view holds the connection of each entry under its address.
proof fn lemma_entry_in_view(entries: Seq<(PeerAddr, Connection)>, i: int)
    requires
        addresses_unique(entries),
        0 <= i < entries.len(),
    ensures
        entries_view(entries).contains_key(entries[i].0),
        entries_view(entries)[entries[i].0] == entries[i].1@,
{
    let m = choose|m: int| 0 <= m < entries.len() && entries[m].0 == entries[i].0;
    assert(m == i);
}

/// Replacing the connection of the entry at `i` replaces it in the view.
proof fn lemma_update_entry(
    before: Seq<(PeerAddr, Connection)>,
    after: Seq<(PeerAddr, Connection)>,
    i: int,
)
    requires
        addresses_unique(before),
        0 <= i < before.len(),
        after.len() == before.len(),
        after[i].0 == before[i].0,
        forall|j: int| 0 <= j < before.len() && j != i ==> after[j] == before[j],
    ensures
        addresses_unique(after),
        entries_view(after) == entries_view(before).insert(before[i].0, after[i].1@),
{
    let a = before[i].0;
    assert forall|j: int, k: int| 0 <= j < k < after.len() implies after[j].0 != after[k].0 by {
        assert(before[j].0 != before[k].0);
    }
    assert forall|b: PeerAddr| b != a && #[trigger] entries_view(before).contains_key(b) implies entries_view(after).contains_key(b)
        && entries_view(after)[b] == entries_view(before)[b] by {
        let k = choose|k: int| 0 <= k < before.len() && before[k].0 == b;
        assert(after[k].0 == b);
        let m = choose|m: int| 0 <= m < after.len() && after[m].0 == b;
        assert(m != i);
        assert(before[m].0 == b);
        assert(m == k);
    }
    assert forall|b: PeerAddr| #[trigger] entries_view(after).contains_key(b) implies b == a || entries_view(before).contains_key(b) by {
        let m = choose|m: int| 0 <= m < after.len() && after[m].0 == b;
        if m != i {
            assert(before[m].0 == b);
        }
    }
    assert(after[i].0 == a);
    assert(entries_view(after).contains_key(a));
    assert(entries_view(after)[a] == after[i].1@);
    assert(entries_view(after) =~= entries_view(before).insert(a, after[i].1@));
}

impl View for GafferState {
    type V = Map<PeerAddr, ConnectionView>;

    closed spec fn view(&self) -> Map<PeerAddr, ConnectionView> {
        entries_view(self.connections@)
    }
}

impl GafferState {
    /// Each address has at most one connection.
    pub closed spec fn wf(self) -> bool {
        addresses_unique(self.connections@)
    }

    /// The connection to `addr`: the one held, or a fresh one.
    pub open spec fn connection(self, addr: PeerAddr) -> ConnectionView {
        if self@.contains_key(addr) {
            self@[addr]
        } else {
            ConnectionView::fresh()
        }
    }

    pub fn new() -> (r: GafferState)
        ensures
            r.wf(),
            r@ == Map::<PeerAddr, ConnectionView>::empty(),
    {
        let r = GafferState { connections: Vec::new() };
        assert(r@ =~= Map::<PeerAddr, ConnectionView>::empty());
        r
    }

    /// Where the connection to `addr` stands, adding a fresh one if there is
    /// none.
    fn connection_index(&mut self, addr: PeerAddr) -> (i: usize)
        requires
            old(self).wf(),
        ensures
            final(self).wf(),
            final(self)@ == old(self)@.insert(addr, old(self).connection(addr)),
            i < final(self).connections.len(),
            final(self).connections@[i as int].0 == addr,
            forall|j: int|
                0 <= j < final(self).connections.len() && j != i ==> final(self).connections@[j].0
                    != addr,
    {
        let mut i: usize = 0;
        while i < self.connections.len()
            invariant
                i <= self.connections.len(),
                self.wf(),
                *self == *old(self),
                forall|j: int| 0 <= j < i ==> self.connections@[j].0 != addr,
            decreases self.connections.len() - i,
        {
            if self.connections[i].0 == addr {
                assert(old(self)@.contains_key(addr));
                assert(final(self)@ =~= old(self)@.insert(addr, old(self).connection(addr)));
                return i;
            }
            i = i + 1;
        }
        let ghost before = self.connections@;
        assert(!old(self)@.contains_key(addr));
        self.connections.push((addr, Connection::new()));
        proof {
            let after = self.connections@;
            assert forall|a: PeerAddr| #[trigger] old(self)@.contains_key(a) implies final(self)@.contains_key(a) && final(self)@[a] == old(self)@[a] by {
                let k = choose|k: int| 0 <= k < before.len() && before[k].0 == a;
                assert(after[k].0 == a);
                let m = choose|m: int| 0 <= m < after.len() && after[m].0 == a;
                assert(m != before.len());
                assert(m == k);
            }
            assert(after[before.len() as int].0 == addr);
            assert(final(self)@.contains_key(addr));
            assert(final(self)@[addr] == ConnectionView::fresh());
            assert(final(self)@ =~= old(self)@.insert(addr, old(self).connection(addr)));
        }
        i
    }

    /// Prepares `p` for sending: gives it the connection's next sequence
    /// number and the current acknowledgement of the peer's packets, keeps it
    /// among the packets waiting for the peer's word, and returns where to
    /// send which bytes.
    pub fn preprocess_packet(&mut self, p: GafferPacket) -> (r: (PeerAddr, Vec<u8>))
        requires
            old(self).wf(),
        ensures
            final(self).wf(),
            r.0 == p.addr,
            r.1@ == encode(outgoing(old(self).connection(p.addr), p.payload@)),
            final(self)@ == old(self)@.insert(p.addr, after_send(old(self).connection(p.addr), p)),
    {
        let ghost c = self.connection(p.addr);
        let i = self.connection_index(p.addr);
        let ghost before = self.connections@;
        proof {
            lemma_entry_in_view(before, i as int);
        }
        let seq = self.connections[i].1.seq_num;
        let copy = GafferPacket { addr: p.addr, payload: p.payload.clone() };
        assert(copy.payload@ =~= p.payload@);
        let final_packet = assemble_packet(seq, copy, &self.connections[i].1);
        let bytes = final_packet.serialized();
        let addr = p.addr;
        self.connections[i].1.waiting_packets.enqueue(seq, p);
        self.connections[i].1.seq_num = seq.wrapping_add(1);
        proof {
            lemma_update_entry(before, self.connections@, i as int);
            assert(self.connections@[i as int].1@ == after_send(c, p));
        }
        (addr, bytes)
    }

    /// Hands out the packets of the connection to `addr` that were found
    /// lost, in the order found, and empties that list.
    pub fn dropped_packets(&mut self, addr: PeerAddr) -> (r: Vec<GafferPacket>)
        requires
            old(self).wf(),
        ensures
            final(self).wf(),
            r@ == old(self).connection(addr).dropped,
            final(self)@ == old(self)@.insert(
                addr,
                ConnectionView { dropped: Seq::empty(), ..old(self).connection(addr) },
            ),
    {
        let i = self.connection_index(addr);
        let ghost before = self.connections@;
        proof {
            lemma_entry_in_view(before, i as int);
        }
        let r = self.connections[i].1.dropped_packets.split_off(0);
        proof {
            lemma_update_entry(before, self.connections@, i as int);
            assert(self.connections@[i as int].1.dropped_packets@ =~= Seq::<GafferPacket>::empty());
            assert(self.connections@[i as int].1.seq_num == before[i as int].1.seq_num);
            assert(self.connections@[i as int].1.waiting_packets == before[i as int].1.waiting_packets);
            assert(self.connections@[i as int].1@ =~= ConnectionView {
                dropped: Seq::empty(),
                ..before[i as int].1@
            });
        }
        r
    }

    /// Takes in the peer's `packet` from `addr`: records its sequence number
    /// for the acknowledgements we send back, applies its acknowledgement to
    /// our waiting packets, and makes the packets that it leaves lost the
    /// connection's list of dropped packets, in place of the previous one.
    /// Returns the payload with its sender.
    pub fn receive(&mut self, addr: PeerAddr, packet: CompleteGafferPacket) -> (r: GafferPacket)
        requires
            old(self).wf(),
        ensures
            final(self).wf(),
            r.addr == addr,
            r.payload == packet.payload,
            exists|lost: Seq<(u16, GafferPacket)>|
                {
                    &&& lists_lost(old(self).connection(addr).waiting, packet.ack_seq, lost)
                    &&& final(self)@ == old(self)@.insert(
                        addr,
                        after_receive(old(self).connection(addr), packet@, lost),
                    )
                },
    {
        let ghost c = self.connection(addr);
        let i = self.connection_index(addr);
        let ghost before = self.connections@;
        proof {
            lemma_entry_in_view(before, i as int);
        }
        self.connections[i].1.their_acks.ack(packet.seq);
        let lost = self.connections[i].1.waiting_packets.ack(packet.ack_seq, packet.ack_field);
        let ghost listing = lost@;
        let mut dropped: Vec<GafferPacket> = Vec::new();
        for e in it: lost.into_iter()
            invariant
                it.seq() == listing,
                dropped@ == listing.take(it.index()).map_values(|e: (u16, GafferPacket)| e.1),
        {
            proof {
                assert(e == listing[it.index()]);
                assert(listing.take(it.index() + 1) =~= listing.take(it.index()).push(e));
            }
            dropped.push(e.1);
            proof {
                assert(dropped@ =~= listing.take(it.index() + 1).map_values(|e: (u16, GafferPacket)| e.1));
            }
        }
        assert(listing.take(listing.len() as int) =~= listing);
        self.connections[i].1.dropped_packets = dropped;
        proof {
            lemma_update_entry(before, self.connections@, i as int);
            assert(self.connections@[i as int].1@ =~= after_receive(c, packet@, listing));
        }
        GafferPacket { addr: addr, payload: packet.payload }
    }
}

/// The packet that goes out with sequence number `seq_num` and `p`'s
/// payload on `connection`, carrying its acknowledgement of the peer.
pub fn assemble_packet(seq_num: u16, p: GafferPacket, connection: &Connection) -> (r:
    CompleteGafferPacket)
    ensures
        r@ == (WireView {
            seq: seq_num,
            ack_seq: connection.their_acks.last_seq,
            ack_field: connection.their_acks.field,
            payload: p.payload@,
        }),
        r.payload == p.payload,
{
    CompleteGafferPacket {
        seq: seq_num,
        ack_seq: connection.their_acks.last_seq,
        ack_field: connection.their_acks.field,
        payload: p.payload,
    }
}

} // verus!
