//! The packets that travel through the drone network, as the client reads
//! them: source-routing headers, message fragments, acknowledgements,
//! negative acknowledgements and flood messages.
use vstd::prelude::*;

verus! {

/// Identifier of a node of the network.
pub type NodeId = u8;

/// Number of payload bytes that a fragment carries.
pub const FRAGMENT_DSIZE: usize = 128;

/// The kind of a node, as announced in flood messages.
#[derive(Debug, Clone, Copy, PartialEq, Eq, Structural)]
pub enum NodeType {
    Client,
    Drone,
    Server,
}

/// A source-routing header: the whole path of a packet and the position of
/// the node that currently holds it.
#[derive(Debug)]
pub struct SourceRoutingHeader {
    pub hop_index: usize,
    pub hops: Vec<NodeId>,
}

impl SourceRoutingHeader {
    /// The last node of the path.
    pub open spec fn spec_destination(&self) -> Option<NodeId> {
        if self.hops@.len() > 0 {
            Some(self.hops@.last())
        } else {
            None
        }
    }

    /// The first node of the path.
    pub open spec fn spec_source(&self) -> Option<NodeId> {
        if self.hops@.len() > 0 {
            Some(self.hops@[0])
        } else {
            None
        }
    }

    /// The node after the current one.
    pub open spec fn spec_next_hop(&self) -> Option<NodeId> {
        if self.hop_index + 1 < self.hops@.len() {
            Some(self.hops@[self.hop_index + 1])
        } else {
            None
        }
    }

    /// An empty route.
    pub fn empty_route() -> (h: SourceRoutingHeader)
        ensures
            h.hop_index == 0,
            h.hops@ == Seq::<NodeId>::empty(),
    {
        SourceRoutingHeader { hop_index: 0, hops: Vec::new() }
    }

    /// The last hop of the route, if it has one.
    pub fn destination(&self) -> (d: Option<NodeId>)
        ensures
            d == self.spec_destination(),
    {
        if self.hops.len() > 0 {
            Some(self.hops[self.hops.len() - 1])
        } else {
            None
        }
    }

    /// The first hop of the route, if it has one.
    pub fn source(&self) -> (s: Option<NodeId>)
        ensures
            s == self.spec_source(),
    {
        if self.hops.len() > 0 {
            Some(self.hops[0])
        } else {
            None
        }
    }

    /// The hop after the current one, if there is one.
    pub fn next_hop(&self) -> (n: Option<NodeId>)
        ensures
            n == self.spec_next_hop(),
    {
        if self.hop_index < self.hops.len() && self.hop_index + 1 < self.hops.len() {
            Some(self.hops[self.hop_index + 1])
        } else {
            None
        }
    }
}

/// A piece of a message: its position among the pieces, how many pieces
/// the message has, how many bytes of `data` are payload, and the data.
#[derive(Debug, Clone, Copy)]
pub struct Fragment {
    pub fragment_index: u64,
    pub total_n_fragments: u64,
    pub length: u8,
    pub data: [u8; 128],
}

/// Acknowledgement of a fragment.
#[derive(Debug, Clone, Copy)]
pub struct Ack {
    pub fragment_index: u64,
}

/// Why a packet could not be delivered.
#[derive(Debug, Clone, Copy, PartialEq, Eq, Structural)]
pub enum NackType {
    /// The node could not forward the packet to the given next hop.
    ErrorInRouting(NodeId),
    DestinationIsDrone,
    Dropped,
    /// The packet reached the given node, which was not the expected one.
    UnexpectedRecipient(NodeId),
}

/// Negative acknowledgement of a fragment.
#[derive(Debug, Clone, Copy)]
pub struct Nack {
    pub fragment_index: u64,
    pub nack_type: NackType,
}

/// A request to explore the network.
#[derive(Debug)]
pub struct FloodRequest {
    pub flood_id: u64,
    pub initiator_id: NodeId,
    pub path_trace: Vec<(NodeId, NodeType)>,
}

/// The answer to a flood request: the path that the request went through.
#[derive(Debug)]
pub struct FloodResponse {
    pub flood_id: u64,
    pub path_trace: Vec<(NodeId, NodeType)>,
}

/// What a packet carries.
#[derive(Debug)]
pub enum PacketType {
    MsgFragment(Fragment),
    Ack(Ack),
    Nack(Nack),
    FloodRequest(FloodRequest),
    FloodResponse(FloodResponse),
}

/// A packet of the network.
#[derive(Debug)]
pub struct Packet {
    pub routing_header: SourceRoutingHeader,
    pub session_id: u64,
    pub pack_type: PacketType,
}

} // verus!
