//! Packet identifiers: a 48-bit packet counter and a 16-bit request counter,
//! packed together into the 64-bit session id that travels in every packet.
use vstd::prelude::*;

verus! {

/// Mask of the bits of a session id that hold the request id.
pub const REQ_ID_MASK: u64 = 0xFFFF;

/// Mask of the bits that a packet id may use.
pub const PACKET_ID_MASK: u64 = 0x0000_FFFF_FFFF_FFFF;

/// Number of bits of the session id that hold the request id.
pub const REQ_ID_LEN: u64 = 16;

/// Number of distinct packet ids (2^48).
pub open spec fn packet_id_space() -> int {
    0x1_0000_0000_0000
}

/// Number of distinct request ids (2^16).
pub open spec fn request_id_space() -> int {
    0x1_0000
}

/// The session id made of a packet id and a request id: the packet id in the
/// 48 most significant bits, the request id in the 16 least significant ones.
pub open spec fn session_of(packet: int, request: int) -> int {
    (packet % packet_id_space()) * request_id_space() + request
}

/// A unique identifier for an outgoing packet.
///
/// It uses 16 bits for a request id and 48 for a packet id; both can be merged
/// into a 64-bit integer, the session id carried by the packets.
#[derive(Debug, Clone, Copy, PartialEq, Eq, Hash, Structural)]
pub struct PacketId {
    packet_id: u64,
    req_id: u16,
}

impl View for PacketId {
    type V = PacketId;

    open spec fn view(&self) -> PacketId {
        *self
    }
}

impl PacketId {
    /// The packet counter (only its 48 least significant bits are used).
    pub closed spec fn packet(self) -> u64 {
        self.packet_id
    }

    /// The request counter.
    pub closed spec fn request(self) -> u16 {
        self.req_id
    }

    /// The identifier with the given counters.
    pub closed spec fn spec_with(packet: u64, request: u16) -> PacketId {
        PacketId { packet_id: packet, req_id: request }
    }

    /// Every identifier that this module hands out keeps its packet counter
    /// within 48 bits.
    pub open spec fn wf(self) -> bool {
        self.packet() < packet_id_space()
    }

    /// The session id that this identifier stands for.
    pub open spec fn session(self) -> int {
        session_of(self.packet() as int, self.request() as int)
    }

    /// The identifier whose packet counter is `n` steps after this one's,
    /// with the same request counter.
    pub open spec fn advanced(self, n: int) -> PacketId {
        PacketId::spec_with(
            ((self.packet() + n) % packet_id_space()) as u64,
            self.request(),
        )
    }

    pub proof fn lemma_with(packet: u64, request: u16)
        ensures
            PacketId::spec_with(packet, request).packet() == packet,
            PacketId::spec_with(packet, request).request() == request,
    {
    }

    /// Two identifiers are equal exactly when both counters are.
    pub proof fn lemma_ext_equal(a: PacketId, b: PacketId)
        ensures
            (a == b) <==> (a.packet() == b.packet() && a.request() == b.request()),
    {
    }

    /// A fresh identifier, with both counters at zero.
    pub fn new() -> (id: PacketId)
        ensures
            id.packet() == 0,
            id.request() == 0,
            id.wf(),
    {
        PacketId { packet_id: 0, req_id: 0 }
    }

    /// Decomposes a session id into its packet id (48 most significant bits)
    /// and its request id (16 least significant bits).
    pub fn from_u64(n: u64) -> (id: PacketId)
        ensures
            id.packet() == n / 0x1_0000,
            id.request() == n % 0x1_0000,
            id.wf(),
            id.session() == n,
    {
        let packet_id = n >> REQ_ID_LEN;
        let req_id = (n & REQ_ID_MASK) as u16;
        assert(n >> 16u64 == n / 0x1_0000) by (bit_vector);
        assert(n & 0xFFFFu64 == n % 0x1_0000) by (bit_vector);
        assert(n / 0x1_0000 < 0x1_0000_0000_0000) by (bit_vector);
        PacketId { packet_id, req_id }
    }

    pub fn get_packet_id(&self) -> (r: u64)
        ensures
            r == self.packet(),
    {
        self.packet_id
    }

    pub fn get_request_id(&self) -> (r: u16)
        ensures
            r == self.request(),
    {
        self.req_id
    }

    /// The 64-bit session id that holds both the packet id and the request id.
    pub fn get_session_id(&self) -> (r: u64)
        ensures
            r == self.session(),
    {
        let p = self.packet_id;
        let q = self.req_id as u64;
        assert(q < 0x1_0000);
        assert(q < 0x1_0000 ==> (p << 16u64) | q == ((p % 0x1_0000_0000_0000) * 0x1_0000 + q)) by (bit_vector);
        (p << REQ_ID_LEN) | q
    }

    /// Moves to the next packet id, wrapping around within 48 bits.
    pub fn increment_packet_id(&mut self)
        requires
            old(self).wf(),
        ensures
            final(self).packet() == (old(self).packet() + 1) % packet_id_space(),
            final(self).request() == old(self).request(),
            final(self).wf(),
    {
        let next = self.packet_id + 1;
        assert(next <= 0x1_0000_0000_0000 ==> next & 0x0000_FFFF_FFFF_FFFFu64 == next % 0x1_0000_0000_0000) by (bit_vector);
        self.packet_id = next & PACKET_ID_MASK;
    }

    /// Moves to the next request id (wrapping around within 16 bits); a new
    /// request starts again from packet id zero.
    pub fn increment_request_id(&mut self)
        ensures
            final(self).packet() == 0,
            final(self).request() == (old(self).request() + 1) % request_id_space(),
            final(self).wf(),
    {
        self.packet_id = 0;
        self.req_id = self.req_id.wrapping_add(1);
    }
}

/// Splitting a session id and joining it again gives it back.
pub proof fn lemma_session_roundtrip(n: u64)
    ensures
        ({
            let id = PacketId::spec_with((n / 0x1_0000) as u64, (n % 0x1_0000) as u16);
            id.session() == n
        }),
{
    PacketId::lemma_with((n / 0x1_0000) as u64, (n % 0x1_0000) as u16);
    assert(n / 0x1_0000 < 0x1_0000_0000_0000) by (bit_vector);
}

/// A valid identifier is recovered from its session id.
pub proof fn lemma_identifier_roundtrip(id: PacketId)
    requires
        id.wf(),
    ensures
        id.session() / 0x1_0000 == id.packet(),
        id.session() % 0x1_0000 == id.request(),
        0 <= id.session() <= u64::MAX,
{
    let p = id.packet() as int;
    let q = id.request() as int;
    assert(id.session() == p * 0x1_0000 + q);
    assert(0 <= q < 0x1_0000);
    assert((p * 0x1_0000 + q) / 0x1_0000 == p && (p * 0x1_0000 + q) % 0x1_0000 == q) by (nonlinear_arith)
        requires 0 <= q < 0x1_0000, 0 <= p;
    assert(p * 0x1_0000 + q <= u64::MAX) by (nonlinear_arith)
        requires 0 <= q < 0x1_0000, 0 <= p < 0x1_0000_0000_0000;
}

} // verus!
