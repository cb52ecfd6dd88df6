//! Packets as the application sees them, and the wire format that carries
//! them: an 8-byte big-endian header followed by the payload verbatim.
use byteorder::{BigEndian, ByteOrder};
use vstd::prelude::*;

verus! {

/// The bytes an application hands over or receives.
pub type GafferPayload = Vec<u8>;

/// Length of the wire header: `seq`, `ack_seq` (two bytes each) and
/// `ack_field` (four bytes).
pub const HEADER_LEN: usize = 8;

/// A peer's datagram address, as plain values.
#[derive(Clone, Copy, PartialEq, Eq, Structural, Debug, Hash)]
#[allow(inconsistent_fields)]
pub enum PeerAddr {
    /// An IPv4 address, its four octets most significant first, and a port.
    V4 { ip: u32, port: u16 },
    /// An IPv6 address, its sixteen octets most significant first, a port,
    /// and the flow and scope identifiers.
    V6 { ip: u128, port: u16, flowinfo: u32, scope_id: u32 },
}

/// A payload together with the peer it comes from or goes to.
#[derive(Clone, PartialEq, Eq, Debug)]
pub struct GafferPacket {
    pub addr: PeerAddr,
    pub payload: GafferPayload,
}

impl GafferPacket {
    /// An empty payload for `0.0.0.0:7878`.
    pub fn dummy_packet() -> (r: GafferPacket)
        ensures
            r.addr == (PeerAddr::V4 { ip: 0, port: 7878 }),
            r.payload@.len() == 0,
    {
        GafferPacket::new(PeerAddr::V4 { ip: 0, port: 7878 }, GafferPayload::new())
    }

    pub fn new(addr: PeerAddr, payload: GafferPayload) -> (r: GafferPacket)
        ensures
            r.addr == addr,
            r.payload == payload,
    {
        GafferPacket { addr: addr, payload: payload }
    }
}

/// One packet as it travels: its own sequence number, the acknowledgement
/// of the peer's packets, and the payload.
#[derive(Clone, PartialEq, Eq, Debug)]
pub struct CompleteGafferPacket {
    pub seq: u16,
    pub ack_seq: u16,
    pub ack_field: u32,
    pub payload: GafferPayload,
}

/// The mathematical content of a `CompleteGafferPacket`.
pub ghost struct WireView {
    pub seq: u16,
    pub ack_seq: u16,
    pub ack_field: u32,
    pub payload: Seq<u8>,
}

impl View for CompleteGafferPacket {
    type V = WireView;

    open spec fn view(&self) -> WireView {
        WireView {
            seq: self.seq,
            ack_seq: self.ack_seq,
            ack_field: self.ack_field,
            payload: self.payload@,
        }
    }
}

/// `n` in two bytes, most significant first.
pub open spec fn be16(n: u16) -> Seq<u8> {
    seq![(n / 0x100) as u8, (n % 0x100) as u8]
}

/// `n` in four bytes, most significant first.
pub open spec fn be32(n: u32) -> Seq<u8> {
    seq![
        (n / 0x100_0000) as u8,
        (n / 0x1_0000 % 0x100) as u8,
        (n / 0x100 % 0x100) as u8,
        (n % 0x100) as u8,
    ]
}

/// The number that the first two bytes of `b` write, most significant first.
pub open spec fn from_be16(b: Seq<u8>) -> u16 {
    (b[0] * 0x100 + b[1]) as u16
}

/// The number that the first four bytes of `b` write, most significant first.
pub open spec fn from_be32(b: Seq<u8>) -> u32 {
    (b[0] * 0x100_0000 + b[1] * 0x1_0000 + b[2] * 0x100 + b[3]) as u32
}

/// The bytes of a packet on the wire.
pub open spec fn encode(w: WireView) -> Seq<u8> {
    be16(w.seq) + be16(w.ack_seq) + be32(w.ack_field) + w.payload
}

/// The packet that the bytes `b` hold, where there are at least
/// `HEADER_LEN` of them.
pub open spec fn decode(b: Seq<u8>) -> WireView {
    WireView {
        seq: from_be16(b.subrange(0, 2)),
        ack_seq: from_be16(b.subrange(2, 4)),
        ack_field: from_be32(b.subrange(4, 8)),
        payload: b.subrange(8, b.len() as int),
    }
}

/// Reading back the bytes of a packet gives the same packet: its sequence
/// number, its acknowledgement and its payload.
pub proof fn lemma_codec_round_trip(w: WireView)
    ensures
        encode(w).len() == HEADER_LEN + w.payload.len(),
        decode(encode(w)) == w,
{
    let b = encode(w);
    assert(b.subrange(0, 2) =~= be16(w.seq));
    assert(b.subrange(2, 4) =~= be16(w.ack_seq));
    assert(b.subrange(4, 8) =~= be32(w.ack_field));
    assert(b.subrange(8, b.len() as int) =~= w.payload);
    let n = w.ack_field;
    assert(n / 0x100_0000 * 0x100_0000 + n / 0x1_0000 % 0x100 * 0x1_0000 + n / 0x100 % 0x100 * 0x100
        + n % 0x100 == n) by (nonlinear_arith);
}

/// Any `HEADER_LEN` bytes or more are the wire form of the packet read from
/// them: the format has no bytes that it rejects or ignores.
pub proof fn lemma_decode_encode(b: Seq<u8>)
    requires
        b.len() >= HEADER_LEN,
    ensures
        encode(decode(b)) == b,
{
    let w = decode(b);
    assert(be16(w.seq) =~= b.subrange(0, 2));
    assert(be16(w.ack_seq) =~= b.subrange(2, 4));
    let (b4, b5, b6, b7) = (b[4] as int, b[5] as int, b[6] as int, b[7] as int);
    assert((b4 * 0x100_0000 + b5 * 0x1_0000 + b6 * 0x100 + b7) / 0x100_0000 == b4
        && (b4 * 0x100_0000 + b5 * 0x1_0000 + b6 * 0x100 + b7) / 0x1_0000 % 0x100 == b5
        && (b4 * 0x100_0000 + b5 * 0x1_0000 + b6 * 0x100 + b7) / 0x100 % 0x100 == b6
        && (b4 * 0x100_0000 + b5 * 0x1_0000 + b6 * 0x100 + b7) % 0x100 == b7) by (nonlinear_arith)
        requires
            0 <= b4 < 0x100,
            0 <= b5 < 0x100,
            0 <= b6 < 0x100,
            0 <= b7 < 0x100,
    ;
    assert(be32(w.ack_field) =~= b.subrange(4, 8));
    assert(encode(w) =~= b);
}

/// Why received bytes are no packet: fewer than `HEADER_LEN` of them.
#[derive(Clone, Copy, PartialEq, Eq, Structural, Debug)]
pub struct FormatError {
    /// How many bytes there were.
    pub received: usize,
}

/// Relies on byteorder's `BigEndian::read_u16`: it reads the first two bytes
/// of the slice it gets, most significant first.
#[verifier::external_body]
fn read_be_u16(buf: &Vec<u8>, at: usize) -> (r: u16)
    requires
        at + 2 <= buf@.len(),
    ensures
        r == from_be16(buf@.subrange(at as int, at + 2)),
{
    BigEndian::read_u16(&buf[at..])
}

/// Relies on byteorder's `BigEndian::read_u32`: it reads the first four bytes
/// of the slice it gets, most significant first.
#[verifier::external_body]
fn read_be_u32(buf: &Vec<u8>, at: usize) -> (r: u32)
    requires
        at + 4 <= buf@.len(),
    ensures
        r == from_be32(buf@.subrange(at as int, at + 4)),
{
    BigEndian::read_u32(&buf[at..])
}

/// Relies on byteorder's `BigEndian::write_u16`: it overwrites the first two
/// bytes of the slice it gets with `n`, most significant first.
#[verifier::external_body]
fn write_be_u16(buf: &mut Vec<u8>, at: usize, n: u16)
    requires
        at + 2 <= old(buf)@.len(),
    ensures
        final(buf)@ == old(buf)@.subrange(0, at as int) + be16(n) + old(buf)@.subrange(
            at + 2,
            old(buf)@.len() as int,
        ),
{
    BigEndian::write_u16(&mut buf[at..], n)
}

/// Relies on byteorder's `BigEndian::write_u32`: it overwrites the first four
/// bytes of the slice it gets with `n`, most significant first.
#[verifier::external_body]
fn write_be_u32(buf: &mut Vec<u8>, at: usize, n: u32)
    requires
        at + 4 <= old(buf)@.len(),
    ensures
        final(buf)@ == old(buf)@.subrange(0, at as int) + be32(n) + old(buf)@.subrange(
            at + 4,
            old(buf)@.len() as int,
        ),
{
    BigEndian::write_u32(&mut buf[at..], n)
}

impl CompleteGafferPacket {
    /// The packet's bytes on the wire.
    pub fn serialized(&self) -> (r: Vec<u8>)
        ensures
            r@ == encode(self@),
    {
        let mut wtr: Vec<u8> = vec![0u8; HEADER_LEN];
        write_be_u16(&mut wtr, 0, self.seq);
        write_be_u16(&mut wtr, 2, self.ack_seq);
        write_be_u32(&mut wtr, 4, self.ack_field);
        let mut payload = self.payload.clone();
        assert(payload@ =~= self.payload@);
        wtr.append(&mut payload);
        assert(wtr@ =~= encode(self@));
        wtr
    }

    /// Reads a packet from received bytes: the header from the first
    /// `HEADER_LEN`, the payload from the rest.
    pub fn deserialize(bytes: Vec<u8>) -> (r: Result<CompleteGafferPacket, FormatError>)
        ensures
            r is Ok <==> bytes@.len() >= HEADER_LEN,
            r matches Ok(p) ==> p@ == decode(bytes@),
            r matches Err(e) ==> e.received == bytes@.len(),
    {
        let mut bytes = bytes;
        if bytes.len() < HEADER_LEN {
            return Err(FormatError { received: bytes.len() });
        }
        let ghost all = bytes@;
        let payload = bytes.split_off(HEADER_LEN);
        let seq = read_be_u16(&bytes, 0);
        let ack_seq = read_be_u16(&bytes, 2);
        let ack_field = read_be_u32(&bytes, 4);
        assert(bytes@.subrange(0, 2) =~= all.subrange(0, 2));
        assert(bytes@.subrange(2, 4) =~= all.subrange(2, 4));
        assert(bytes@.subrange(4, 8) =~= all.subrange(4, 8));
        Ok(CompleteGafferPacket { seq: seq, ack_seq: ack_seq, ack_field: ack_field, payload: payload })
    }
}

} // verus!
