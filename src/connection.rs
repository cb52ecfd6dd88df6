//! Connection to a known third party: the state kept per peer.
use crate::packet::GafferPacket;
use vstd::prelude::*;

pub use crate::ack_record::AckRecord;
pub use crate::external_acks::ExternalAcks;

verus! {

/// What a connection holds, as mathematical values.
pub ghost struct ConnectionView {
    pub seq_num: u16,
    pub dropped: Seq<GafferPacket>,
    pub waiting: Map<u16, GafferPacket>,
    pub their_acks: ExternalAcks,
}

impl ConnectionView {
    /// A connection to a peer that nothing has been sent to or received from.
    pub open spec fn fresh() -> ConnectionView {
        ConnectionView {
            seq_num: 0,
            dropped: Seq::empty(),
            waiting: Map::empty(),
            their_acks: ExternalAcks::fresh(),
        }
    }
}

/// Connection to a known third party: our next sequence number, our packets
/// found lost and not yet sent again, our packets waiting for an
/// acknowledgement, and which of the third party's packets we have seen.
#[derive(Debug)]
pub struct Connection {
    pub seq_num: u16,
    pub dropped_packets: Vec<GafferPacket>,
    pub waiting_packets: AckRecord,
    pub their_acks: ExternalAcks,
}

impl View for Connection {
    type V = ConnectionView;

    open spec fn view(&self) -> ConnectionView {
        ConnectionView {
            seq_num: self.seq_num,
            dropped: self.dropped_packets@,
            waiting: self.waiting_packets@,
            their_acks: self.their_acks,
        }
    }
}

impl Connection {
    pub fn new() -> (r: Connection)
        ensures
            r@ == ConnectionView::fresh(),
    {
        Connection {
            seq_num: 0,
            dropped_packets: Vec::new(),
            waiting_packets: AckRecord::new(),
            their_acks: ExternalAcks::new(),
        }
    }
}

} // verus!
