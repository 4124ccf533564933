//! The decisions of the web client. The client keeps its requests, what it
//! knows of the network's nodes, the files that wait for their media and
//! the counters of the drones; each operation here takes one step of the
//! protocol and says what has to be sent or reported, which the caller does.
use vstd::prelude::*;

use std::collections::VecDeque;

use crate::assoc_map::AssocMap;
use crate::fragmentation::{defragment_bytes, payload, sort_fragments, sorted_by_index};
use crate::messages::{
    graph_type_of_server, ClientEvent, Command, Compression, GenericResponse, GraphNodeType, RequestType, ServerType,
    MediaResponse, RequestContent, RequestMessage, Response, TextMediaResponse, TextResponse,
};
use vstd::utf8::{decode_utf8, valid_utf8};
use crate::model::{
    count_sent, count_sent_all, counters_after_drop, ids_of_kind, learn_path, lemma_index_or_len,
    lemma_map_values_insert, lemma_map_values_remove, lemma_assign_owners, lemma_strike_server_removes, lemma_collect_media, lemma_register_media, lemma_typed_servers, lemma_learned_edges_are_trace_links, joins_trace_neighbours, lemma_count_sent_all, lemma_counters_after_drop, count_of, sat_add, sat_inc, pair_edges, path_edges, register_media, typed_servers,
    with_drone_counters, Counter, assign_owners, collect_media, index_or_len, is_needed, media_settled, strike_server,
};
use crate::packet_id::PacketId;
use crate::utils::{
    filename_of, get_filename_from_path, get_media_inside_html_file, media_of_html, string_from_utf8, strings_view,
};
use crate::wire::{
    FloodResponse, Fragment, Nack, NackType, NodeId, NodeType, Packet, PacketType, SourceRoutingHeader,
};

verus! {

/// Identifier of a request.
pub type RequestId = u16;

/// Where a media file can be had: its owner once known (`None` when no
/// media server has it), or the media servers that still have to list their
/// files.
#[derive(Debug)]
pub enum MediaSource {
    Owner(Option<NodeId>),
    RequestsLeft(Vec<NodeId>),
}

/// The view of a `MediaSource`.
pub enum MediaSourceView {
    Owner(Option<NodeId>),
    RequestsLeft(Seq<NodeId>),
}

impl View for MediaSource {
    type V = MediaSourceView;

    open spec fn view(&self) -> MediaSourceView {
        match self {
            MediaSource::Owner(o) => MediaSourceView::Owner(*o),
            MediaSource::RequestsLeft(l) => MediaSourceView::RequestsLeft(l@),
        }
    }
}

/// A request that the client has sent and not completed yet.
#[derive(Debug)]
pub struct WebBrowserRequest {
    pub request_id: RequestId,
    pub server_id: NodeId,
    /// The outgoing fragments that still wait for an acknowledgement.
    pub waiting_for_ack: AssocMap<PacketId, Fragment>,
    /// The fragments of the response received so far.
    pub incoming_messages: Vec<Fragment>,
    pub compression: Compression,
    pub request_type: RequestType,
    pub response_is_complete: bool,
}

/// No two fragments of `frags` have the same index.
pub open spec fn distinct_indices(frags: Seq<Fragment>) -> bool {
    forall|i: int, j: int|
        0 <= i < frags.len() && 0 <= j < frags.len() && i != j ==> #[trigger] frags[i].fragment_index
            != #[trigger] frags[j].fragment_index
}

impl WebBrowserRequest {
    pub open spec fn wf(&self) -> bool {
        &&& self.waiting_for_ack.wf()
        &&& distinct_indices(self.incoming_messages@)
    }

    /// A request that waits for the acknowledgement of `waiting_for_ack`
    /// and has received nothing yet.
    pub fn new(
        request_id: RequestId,
        server_id: NodeId,
        waiting_for_ack: AssocMap<PacketId, Fragment>,
        compression: Compression,
        request_type: RequestType,
    ) -> (r: WebBrowserRequest)
        ensures
            r.request_id == request_id,
            r.server_id == server_id,
            r.waiting_for_ack == waiting_for_ack,
            r.incoming_messages@ == Seq::<Fragment>::empty(),
            r.compression == compression,
            r.request_type == request_type,
            !r.response_is_complete,
    {
        WebBrowserRequest {
            request_id,
            server_id,
            waiting_for_ack,
            incoming_messages: Vec::new(),
            compression,
            request_type,
            response_is_complete: false,
        }
    }
}

/// The web client's state.
pub struct WebBrowser {
    id: NodeId,
    sequential_flood_id: u64,
    pending_requests: Vec<WebBrowserRequest>,
    packet_id_counter: PacketId,
    nodes_type: AssocMap<NodeId, GraphNodeType>,
    /// Outgoing fragments for which no route was found, or that came back
    /// with a NACK, in the order in which they are to be tried again.
    packets_to_be_sent_again: VecDeque<(PacketId, Fragment)>,
    /// For each text file (with the server that sent it), the media it shows.
    text_media_map: AssocMap<(NodeId, String), Vec<String>>,
    stored_files: AssocMap<String, Vec<u8>>,
    media_sources: AssocMap<String, MediaSource>,
    /// For each drone, the packets sent through it and those it lost.
    packets_sent_counter: AssocMap<NodeId, Counter>,
    /// The route of each fragment sent and not acknowledged yet.
    routing_header_history: AssocMap<PacketId, SourceRoutingHeader>,
}

impl WebBrowser {
    pub closed spec fn id(&self) -> NodeId {
        self.id
    }

    pub closed spec fn flood_id(&self) -> u64 {
        self.sequential_flood_id
    }

    pub closed spec fn pending(&self) -> Seq<WebBrowserRequest> {
        self.pending_requests@
    }

    pub closed spec fn counter(&self) -> PacketId {
        self.packet_id_counter
    }

    pub closed spec fn nodes(&self) -> AssocMap<NodeId, GraphNodeType> {
        self.nodes_type
    }

    pub closed spec fn resend_queue(&self) -> Seq<(PacketId, Fragment)> {
        self.packets_to_be_sent_again@
    }

    pub closed spec fn text_media(&self) -> AssocMap<(NodeId, String), Vec<String>> {
        self.text_media_map
    }

    pub closed spec fn stored(&self) -> AssocMap<String, Vec<u8>> {
        self.stored_files
    }

    pub closed spec fn sources(&self) -> AssocMap<String, MediaSource> {
        self.media_sources
    }

    pub closed spec fn counters(&self) -> AssocMap<NodeId, Counter> {
        self.packets_sent_counter
    }

    pub closed spec fn routes(&self) -> AssocMap<PacketId, SourceRoutingHeader> {
        self.routing_header_history
    }

    /// The stored files, by path.
    pub open spec fn stored_view(&self) -> Map<Seq<char>, Seq<u8>> {
        self.stored()@.map_values(|v: Vec<u8>| v@)
    }

    /// The media that each waiting text file needs.
    pub open spec fn text_media_view(&self) -> Map<(NodeId, Seq<char>), Seq<Seq<char>>> {
        self.text_media()@.map_values(|v: Vec<String>| strings_view(v@))
    }

    /// Where each needed media file can be had.
    pub open spec fn sources_view(&self) -> Map<Seq<char>, MediaSourceView> {
        self.sources()@.map_values(|v: MediaSource| v@)
    }

    pub closed spec fn wf(&self) -> bool {
        &&& self.nodes_type.wf()
        &&& self.text_media_map.wf()
        &&& self.stored_files.wf()
        &&& self.media_sources.wf()
        &&& self.packets_sent_counter.wf()
        &&& self.routing_header_history.wf()
        &&& self.packet_id_counter.wf()
        &&& forall|i: int| 0 <= i < self.pending_requests@.len() ==> #[trigger] self.pending_requests@[i].wf()
        &&& counters_consistent(self.packets_sent_counter@)
        &&& waiting_lists_distinct(self.sources_view())
    }

    /// `a` and `b` have the same requests, identifier counter and resend queue.
    pub open spec fn frame_requests(a: &WebBrowser, b: &WebBrowser) -> bool {
        &&& a.pending() == b.pending()
        &&& a.counter() == b.counter()
        &&& a.resend_queue() == b.resend_queue()
    }

    /// `a` and `b` know the same node kinds and drone counters.
    pub open spec fn frame_nodes(a: &WebBrowser, b: &WebBrowser) -> bool {
        &&& a.nodes() == b.nodes()
        &&& a.counters() == b.counters()
    }

    /// `a` and `b` have the same waiting text files, stored files and media sources.
    pub open spec fn frame_files(a: &WebBrowser, b: &WebBrowser) -> bool {
        &&& a.text_media() == b.text_media()
        &&& a.stored() == b.stored()
        &&& a.sources() == b.sources()
    }

    /// `a` and `b` remember the same routes, and share identifier and flood id.
    pub open spec fn frame_routes(a: &WebBrowser, b: &WebBrowser) -> bool {
        &&& a.routes() == b.routes()
        &&& a.id() == b.id()
        &&& a.flood_id() == b.flood_id()
    }

    /// A client with identifier `id` whose direct neighbours are `neighbours`.
    pub fn new(id: NodeId, neighbours: &Vec<NodeId>) -> (c: WebBrowser)
        ensures
            c.wf(),
            c.id() == id,
            c.flood_id() == 0,
            c.pending() == Seq::<WebBrowserRequest>::empty(),
            c.counter() == PacketId::spec_with(0, 0),
            c.nodes()@ == map![id => GraphNodeType::Client],
            c.counters()@ == Map::new(|k: NodeId| neighbours@.contains(k), |k: NodeId| (0u64, 0u64)),
            c.resend_queue() == Seq::<(PacketId, Fragment)>::empty(),
            c.text_media()@ == Map::<(NodeId, Seq<char>), Vec<String>>::empty(),
            c.stored()@ == Map::<Seq<char>, Vec<u8>>::empty(),
            c.sources()@ == Map::<Seq<char>, MediaSource>::empty(),
            c.routes()@ == Map::<PacketId, SourceRoutingHeader>::empty(),
    {
        let mut counters: AssocMap<NodeId, Counter> = AssocMap::new();
        let mut i: usize = 0;
        while i < neighbours.len()
            invariant
                i <= neighbours@.len(),
                counters.wf(),
                counters@ == Map::new(|k: NodeId| neighbours@.take(i as int).contains(k), |k: NodeId| (0u64, 0u64)),
            decreases neighbours@.len() - i,
        {
            counters.insert(neighbours[i], (0, 0));
            proof {
                let x = neighbours@[i as int];
                let before = neighbours@.take(i as int);
                let after = neighbours@.take(i + 1);
                assert(after =~= before.push(x));
                assert forall|k: NodeId| #[trigger] after.contains(k) <==> (before.contains(k) || k == x) by {
                    if before.contains(k) {
                        let j = choose|j: int| 0 <= j < before.len() && before[j] == k;
                        assert(after[j] == k);
                    }
                    if k == x {
                        assert(after[i as int] == k);
                    }
                    if after.contains(k) {
                        let j = choose|j: int| 0 <= j < after.len() && after[j] == k;
                        if j < i {
                            assert(before[j] == k);
                        }
                    }
                }
                assert(counters@ =~= Map::new(
                    |k: NodeId| neighbours@.take(i + 1).contains(k),
                    |k: NodeId| (0u64, 0u64),
                ));
            }
            i += 1;
        }
        assert(neighbours@.take(neighbours@.len() as int) =~= neighbours@);
        let mut nodes_type: AssocMap<NodeId, GraphNodeType> = AssocMap::new();
        nodes_type.insert(id, GraphNodeType::Client);
        assert(nodes_type@ =~= map![id => GraphNodeType::Client]);
        let packet_id_counter = PacketId::new();
        proof {
            PacketId::lemma_ext_equal(packet_id_counter, PacketId::spec_with(0, 0));
            PacketId::lemma_with(0, 0);
        }
        WebBrowser {
            id,
            sequential_flood_id: 0,
            pending_requests: Vec::new(),
            packet_id_counter,
            nodes_type,
            packets_to_be_sent_again: VecDeque::new(),
            text_media_map: AssocMap::new(),
            stored_files: AssocMap::new(),
            media_sources: AssocMap::new(),
            packets_sent_counter: counters,
            routing_header_history: AssocMap::new(),
        }
    }

    pub fn get_id(&self) -> (id: NodeId)
        ensures
            id == self.id(),
    {
        self.id
    }

    /// Whether `server_id` is known to be of kind `requested_type`.
    pub fn is_correct_server_type(&self, server_id: NodeId, requested_type: &GraphNodeType) -> (b: bool)
        requires
            self.wf(),
        ensures
            b == (self.nodes()@.contains_key(server_id) && self.nodes()@[server_id] == *requested_type),
    {
        match self.nodes_type.get(&server_id) {
            Some(t) => *t == *requested_type,
            None => false,
        }
    }

    /// Whether the packet's route ends at this client.
    pub fn client_is_destination(&self, p: &Packet) -> (b: bool)
        ensures
            b == (p.routing_header.spec_destination() == Some(self.id())),
    {
        match p.routing_header.destination() {
            Some(dest) => dest == self.id,
            None => false,
        }
    }

    /// The position of the pending request whose id is the request id of
    /// the packet's session.
    pub fn get_request_index(&self, p: &Packet) -> (r: Option<usize>)
        ensures
            r == first_request_with(self.pending(), (p.session_id % 0x1_0000) as u16),
            r matches Some(i) ==> i < self.pending().len() && self.pending()[i as int].request_id == (p.session_id
                % 0x1_0000) as u16,
    {
        let req_id = PacketId::from_u64(p.session_id).get_request_id();
        self.find_request(req_id)
    }

    /// The position of the first pending request with id `req_id`.
    pub fn find_request(&self, req_id: RequestId) -> (r: Option<usize>)
        ensures
            r == first_request_with(self.pending(), req_id),
            r matches Some(i) ==> i < self.pending().len() && self.pending()[i as int].request_id == req_id,
    {
        let mut i: usize = 0;
        while i < self.pending_requests.len()
            invariant
                i <= self.pending_requests@.len(),
                forall|j: int| 0 <= j < i ==> #[trigger] self.pending_requests@[j].request_id != req_id,
            decreases self.pending_requests@.len() - i,
        {
            if self.pending_requests[i].request_id == req_id {
                proof {
                    lemma_first_where(self.pending(), |r: WebBrowserRequest| r.request_id == req_id, i as int);
                }
                return Some(i);
            }
            i += 1;
        }
        proof {
            lemma_first_where(self.pending(), |r: WebBrowserRequest| r.request_id == req_id, i as int);
        }
        None
    }

    /// Drops a node that is unknown or a drone: its counters are forgotten
    /// (its known kind stays), and it is to leave the topology graph.
    /// Clients and servers are kept. Tells whether the node was dropped.
    pub fn remove_node(&mut self, node_to_remove: NodeId) -> (removed: bool)
        requires
            old(self).wf(),
        ensures
            final(self).wf(),
            removed == (!old(self).nodes()@.contains_key(node_to_remove) || old(self).nodes()@[node_to_remove]
                == GraphNodeType::Drone),
            final(self).nodes() == old(self).nodes(),
            removed ==> final(self).counters()@ == old(self).counters()@.remove(node_to_remove),
            !removed ==> final(self).counters() == old(self).counters(),
            WebBrowser::frame_requests(final(self), old(self)),
            WebBrowser::frame_files(final(self), old(self)),
            WebBrowser::frame_routes(final(self), old(self)),
    {
        let removable = match self.nodes_type.get(&node_to_remove) {
            None => true,
            Some(t) => *t == GraphNodeType::Drone,
        };
        if removable {
            let _ = self.packets_sent_counter.remove(&node_to_remove);
        }
        removable
    }

    /// The counters of `drone`, if it has some.
    pub fn counter_of(&self, drone: NodeId) -> (c: Option<Counter>)
        requires
            self.wf(),
        ensures
            c is Some <==> self.counters()@.contains_key(drone),
            c matches Some(v) ==> v == self.counters()@[drone],
    {
        match self.packets_sent_counter.get(&drone) {
            Some(v) => Some(*v),
            None => None,
        }
    }

    /// Counts one more packet sent through `d`, if it has counters.
    fn count_sent_through(&mut self, d: NodeId)
        requires
            old(self).wf(),
        ensures
            final(self).wf(),
            final(self).counters()@ == count_sent(old(self).counters()@, d),
            final(self).nodes() == old(self).nodes(),
            WebBrowser::frame_requests(final(self), old(self)),
            WebBrowser::frame_files(final(self), old(self)),
            WebBrowser::frame_routes(final(self), old(self)),
    {
        match self.packets_sent_counter.find(&d) {
            Some(i) => {
                let (sent, lost) = *self.packets_sent_counter.value(i);
                let sent1 = if sent == u64::MAX {
                    sent
                } else {
                    sent + 1
                };
                proof {
                    self.packets_sent_counter.lemma_index_of(i as int);
                }
                let _ = self.packets_sent_counter.replace_value(i, (sent1, lost));
            },
            None => {},
        }
    }

    /// After the NACK of a packet that went along `header` and was dropped by
    /// `problematic_node`: one more packet through each hop before it, one
    /// more packet sent and lost by it. The weights of the edges into
    /// `problematic_node` follow its counters.
    pub fn update_packet_counter_after_nack(&mut self, header: &SourceRoutingHeader, problematic_node: NodeId)
        requires
            old(self).wf(),
        ensures
            final(self).wf(),
            final(self).counters()@ == counters_after_drop(old(self).counters()@, header.hops@, problematic_node),
            forall|h: NodeId| #[trigger] final(self).counters()@.contains_key(h) == old(self).counters()@.contains_key(h),
            old(self).counters()@.contains_key(problematic_node) ==> final(self).counters()@[problematic_node] == (
                sat_inc(old(self).counters()@[problematic_node].0),
                sat_inc(old(self).counters()@[problematic_node].1),
            ),
            forall|h: NodeId|
                old(self).counters()@.contains_key(h) && h != problematic_node ==> #[trigger] final(self).counters()@[h]
                    == (
                    sat_add(
                        old(self).counters()@[h].0,
                        count_of(header.hops@.take(index_or_len(header.hops@, problematic_node)), h),
                    ),
                    old(self).counters()@[h].1,
                ),
            final(self).nodes() == old(self).nodes(),
            WebBrowser::frame_requests(final(self), old(self)),
            WebBrowser::frame_files(final(self), old(self)),
            WebBrowser::frame_routes(final(self), old(self)),
    {
        let ghost c0 = self.counters()@;
        let hops = &header.hops;
        let mut k: usize = 0;
        while k < hops.len()
            invariant_except_break
                self.wf(),
                k <= hops@.len(),
                forall|j: int| 0 <= j < k ==> hops@[j] != problematic_node,
                self.counters()@ == count_sent_all(c0, hops@.take(k as int)),
                self.nodes() == old(self).nodes(),
                WebBrowser::frame_requests(self, old(self)),
                WebBrowser::frame_files(self, old(self)),
                WebBrowser::frame_routes(self, old(self)),
            ensures
                self.wf(),
                k <= hops@.len(),
                forall|j: int| 0 <= j < k ==> hops@[j] != problematic_node,
                k == hops@.len() || hops@[k as int] == problematic_node,
                self.counters()@ == count_sent_all(c0, hops@.take(k as int)),
                self.nodes() == old(self).nodes(),
                WebBrowser::frame_requests(self, old(self)),
                WebBrowser::frame_files(self, old(self)),
                WebBrowser::frame_routes(self, old(self)),
            decreases hops@.len() - k,
        {
            let h = hops[k];
            if h == problematic_node {
                break;
            }
            self.count_sent_through(h);
            proof {
                assert(hops@.take(k + 1).drop_last() =~= hops@.take(k as int));
            }
            k += 1;
        }
        proof {
            lemma_index_or_len(hops@, problematic_node, k as int);
        }
        match self.packets_sent_counter.find(&problematic_node) {
            Some(i) => {
                let (sent, lost) = *self.packets_sent_counter.value(i);
                let sent1 = if sent == u64::MAX {
                    sent
                } else {
                    sent + 1
                };
                let lost1 = if lost == u64::MAX {
                    lost
                } else {
                    lost + 1
                };
                proof {
                    self.packets_sent_counter.lemma_index_of(i as int);
                }
                let _ = self.packets_sent_counter.replace_value(i, (sent1, lost1));
            },
            None => {},
        }
        proof {
            lemma_counters_after_drop(c0, hops@, problematic_node);
            assert(self.counters()@ == counters_after_drop(c0, hops@, problematic_node));
        }
    }

    /// After the acknowledgement of a packet that went along `header`: one
    /// more packet through each hop. The weights of the edges into each hop,
    /// in the returned order, follow their counters.
    pub fn update_packet_counter_after_ack(&mut self, header: &SourceRoutingHeader) -> (refresh: Vec<NodeId>)
        requires
            old(self).wf(),
        ensures
            final(self).wf(),
            final(self).counters()@ == count_sent_all(old(self).counters()@, header.hops@),
            forall|h: NodeId| #[trigger] final(self).counters()@.contains_key(h) == old(self).counters()@.contains_key(h),
            forall|h: NodeId|
                old(self).counters()@.contains_key(h) ==> #[trigger] final(self).counters()@[h] == (
                    sat_add(old(self).counters()@[h].0, count_of(header.hops@, h)),
                    old(self).counters()@[h].1,
                ),
            refresh@ == header.hops@,
            final(self).nodes() == old(self).nodes(),
            WebBrowser::frame_requests(final(self), old(self)),
            WebBrowser::frame_files(final(self), old(self)),
            WebBrowser::frame_routes(final(self), old(self)),
    {
        let ghost c0 = self.counters()@;
        let mut refresh: Vec<NodeId> = Vec::new();
        let mut k: usize = 0;
        while k < header.hops.len()
            invariant
                self.wf(),
                k <= header.hops@.len(),
                refresh@ == header.hops@.take(k as int),
                self.counters()@ == count_sent_all(c0, header.hops@.take(k as int)),
                self.nodes() == old(self).nodes(),
                WebBrowser::frame_requests(self, old(self)),
                WebBrowser::frame_files(self, old(self)),
                WebBrowser::frame_routes(self, old(self)),
            decreases header.hops@.len() - k,
        {
            let h = header.hops[k];
            self.count_sent_through(h);
            refresh.push(h);
            proof {
                assert(header.hops@.take(k + 1).drop_last() =~= header.hops@.take(k as int));
                assert(refresh@ =~= header.hops@.take(k + 1));
            }
            k += 1;
        }
        assert(header.hops@.take(header.hops@.len() as int) =~= header.hops@);
        proof {
            lemma_count_sent_all(c0, header.hops@);
        }
        refresh
    }

    /// Starts a new flood: the flood id moves on by one and is returned; the
    /// caller sends the flood request to every neighbour.
    pub fn start_flooding(&mut self) -> (flood_id: u64)
        requires
            old(self).wf(),
            old(self).flood_id() < u64::MAX,
        ensures
            final(self).wf(),
            final(self).flood_id() == old(self).flood_id() + 1,
            flood_id == final(self).flood_id(),
            final(self).id() == old(self).id(),
            final(self).routes() == old(self).routes(),
            WebBrowser::frame_requests(final(self), old(self)),
            WebBrowser::frame_nodes(final(self), old(self)),
            WebBrowser::frame_files(final(self), old(self)),
    {
        self.sequential_flood_id = self.sequential_flood_id + 1;
        self.sequential_flood_id
    }

    /// Remembers the route along which the fragment `id` was sent.
    pub fn record_route(&mut self, id: PacketId, header: SourceRoutingHeader)
        requires
            old(self).wf(),
        ensures
            final(self).wf(),
            final(self).routes()@ == old(self).routes()@.insert(id, header),
            final(self).id() == old(self).id(),
            final(self).flood_id() == old(self).flood_id(),
            WebBrowser::frame_requests(final(self), old(self)),
            WebBrowser::frame_nodes(final(self), old(self)),
            WebBrowser::frame_files(final(self), old(self)),
    {
        self.routing_header_history.insert(id, header);
    }

    /// Puts the fragment `id` at the end of the queue of fragments to send again.
    pub fn queue_for_resend(&mut self, id: PacketId, fragment: Fragment)
        requires
            old(self).wf(),
        ensures
            final(self).wf(),
            final(self).resend_queue() == old(self).resend_queue().push((id, fragment)),
            final(self).pending() == old(self).pending(),
            final(self).counter() == old(self).counter(),
            WebBrowser::frame_nodes(final(self), old(self)),
            WebBrowser::frame_files(final(self), old(self)),
            WebBrowser::frame_routes(final(self), old(self)),
    {
        self.packets_to_be_sent_again.push_back((id, fragment));
    }

    /// Records what an attempt to send the fragment `id` led to: `route` is
    /// the route along which it left, `None` when no route or channel was
    /// found. A fragment of a new request, or one taken from the queue, that
    /// left has its route remembered; a fragment that could not leave goes to
    /// the end of the queue, and then, unless it came from the queue, a flood
    /// is to be started, which the result tells.
    pub fn fragment_send_result(
        &mut self,
        occasion: SendOccasion,
        id: PacketId,
        fragment: Fragment,
        route: Option<SourceRoutingHeader>,
    ) -> (start_flood: bool)
        requires
            old(self).wf(),
        ensures
            final(self).wf(),
            match route {
                Some(h) => {
                    &&& !start_flood
                    &&& final(self).resend_queue() == old(self).resend_queue()
                    &&& final(self).routes()@ == if occasion == SendOccasion::AfterNack {
                        old(self).routes()@
                    } else {
                        old(self).routes()@.insert(id, h)
                    }
                },
                None => {
                    &&& start_flood == (occasion != SendOccasion::FromQueue)
                    &&& final(self).resend_queue() == old(self).resend_queue().push((id, fragment))
                    &&& final(self).routes() == old(self).routes()
                },
            },
            final(self).pending() == old(self).pending(),
            final(self).counter() == old(self).counter(),
            final(self).id() == old(self).id(),
            final(self).flood_id() == old(self).flood_id(),
            WebBrowser::frame_nodes(final(self), old(self)),
            WebBrowser::frame_files(final(self), old(self)),
    {
        match route {
            Some(h) => {
                if occasion != SendOccasion::AfterNack {
                    self.record_route(id, h);
                }
                false
            },
            None => {
                self.queue_for_resend(id, fragment);
                occasion != SendOccasion::FromQueue
            },
        }
    }
}

/// Why a fragment was being sent.
#[derive(Debug, Clone, Copy, PartialEq, Eq, Structural)]
pub enum SendOccasion {
    /// It belongs to a request just made.
    NewRequest,
    /// It was taken from the queue of fragments to send again.
    FromQueue,
    /// It is sent again after a negative acknowledgement.
    AfterNack,
}

/// What a flood response led to.
#[derive(Debug)]
pub enum FloodResponseOutcome {
    /// The path trace was empty: the response is dropped.
    EmptyPathTrace,
    /// The response answers a flood of this client, but not the latest one: dropped.
    WrongFloodId,
    /// The response answers the latest flood of this client: these edges
    /// are to be added, in order, to the topology graph (each one only if
    /// the graph lacks it).
    Learned(Vec<(NodeId, NodeId)>),
    /// The response belongs to another node: it is to be forwarded to this
    /// next hop (and shortcut through the controller if that fails).
    Forward(NodeId),
    /// The response belongs to another node but its route has no next hop.
    NoNextHop,
}

impl WebBrowser {
    /// Gives counters, starting at zero, to every known drone that has none.
    fn init_drone_counters(&mut self)
        requires
            old(self).wf(),
        ensures
            final(self).wf(),
            final(self).counters()@ == with_drone_counters(old(self).nodes()@, old(self).counters()@),
            final(self).nodes() == old(self).nodes(),
            WebBrowser::frame_requests(final(self), old(self)),
            WebBrowser::frame_files(final(self), old(self)),
            WebBrowser::frame_routes(final(self), old(self)),
    {
        let ghost c0 = self.counters()@;
        let ghost nodes = self.nodes();
        let mut j: usize = 0;
        while j < self.nodes_type.len()
            invariant
                self.wf(),
                nodes == self.nodes(),
                j <= nodes.len_spec(),
                self.counters()@ == Map::new(
                    |x: NodeId|
                        c0.contains_key(x) || exists|q: int|
                            0 <= q < j && #[trigger] nodes.key_at(q) == x && nodes.value_at(q)
                                == GraphNodeType::Drone,
                    |x: NodeId|
                        if c0.contains_key(x) {
                            c0[x]
                        } else {
                            (0u64, 0u64)
                        },
                ),
                self.nodes() == old(self).nodes(),
                WebBrowser::frame_requests(self, old(self)),
                WebBrowser::frame_files(self, old(self)),
                WebBrowser::frame_routes(self, old(self)),
            decreases nodes.len_spec() - j,
        {
            let drone_id = *self.nodes_type.key(j);
            let t = *self.nodes_type.value(j);
            let ghost before = self.counters()@;
            if t == GraphNodeType::Drone && !self.packets_sent_counter.contains_key(&drone_id) {
                self.packets_sent_counter.insert(drone_id, (0, 0));
            }
            proof {
                let after = self.counters()@;
                let target = Map::new(
                    |x: NodeId|
                        c0.contains_key(x) || exists|q: int|
                            0 <= q < j + 1 && #[trigger] nodes.key_at(q) == x && nodes.value_at(q)
                                == GraphNodeType::Drone,
                    |x: NodeId|
                        if c0.contains_key(x) {
                            c0[x]
                        } else {
                            (0u64, 0u64)
                        },
                );
                assert forall|x: NodeId| #[trigger] after.contains_key(x) == target.contains_key(x) by {
                    if x == drone_id && t == GraphNodeType::Drone {
                        assert(nodes.key_at(j as int) == x);
                    }
                    if target.contains_key(x) && !c0.contains_key(x) {
                        let q = choose|q: int|
                            0 <= q < j + 1 && #[trigger] nodes.key_at(q) == x && nodes.value_at(q)
                                == GraphNodeType::Drone;
                        if q < j {
                            assert(before.contains_key(x));
                        }
                    }
                    if before.contains_key(x) && !c0.contains_key(x) {
                        let q = choose|q: int|
                            0 <= q < j && #[trigger] nodes.key_at(q) == x && nodes.value_at(q)
                                == GraphNodeType::Drone;
                        assert(target.contains_key(x));
                    }
                }
                assert(after =~= target);
            }
            j += 1;
        }
        proof {
            let fin = self.counters()@;
            let target = with_drone_counters(nodes@, c0);
            assert forall|x: NodeId| #[trigger] fin.contains_key(x) == target.contains_key(x) by {
                if nodes@.contains_key(x) && nodes@[x] == GraphNodeType::Drone {
                    nodes.lemma_has(x);
                    let q = nodes.index_of(x);
                    assert(nodes.key_at(q) == x);
                }
                if fin.contains_key(x) && !c0.contains_key(x) {
                    let q = choose|q: int|
                        0 <= q < nodes.len_spec() && #[trigger] nodes.key_at(q) == x && nodes.value_at(q)
                            == GraphNodeType::Drone;
                    nodes.lemma_index_of(q);
                }
            }
            assert(fin =~= target);
        }
    }

    /// Reads a flood response. If it answers this client's latest flood,
    /// the client learns the kinds of the nodes on its path and the edges
    /// between them; a response for another node is to be forwarded.
    pub fn handle_flood_response(&mut self, packet: &Packet, resp: &FloodResponse) -> (outcome:
        FloodResponseOutcome)
        requires
            old(self).wf(),
        ensures
            final(self).wf(),
            flood_response_applied(old(self), final(self), *packet, *resp, outcome),
    {
        proof {
            lemma_learned_edges_are_trace_links(old(self).id(), resp.path_trace@);
        }
        let path = &resp.path_trace;
        if path.len() == 0 {
            return FloodResponseOutcome::EmptyPathTrace;
        }
        if path[0].0 != self.id {
            return match packet.routing_header.next_hop() {
                Some(h) => FloodResponseOutcome::Forward(h),
                None => FloodResponseOutcome::NoNextHop,
            };
        }
        if resp.flood_id != self.sequential_flood_id {
            return FloodResponseOutcome::WrongFloodId;
        }
        let ghost n0 = self.nodes()@;
        let ghost c0 = self.counters()@;
        let mut edges: Vec<(NodeId, NodeId)> = Vec::new();
        let mut k: usize = 1;
        assert(path@.take(1).len() < 2);
        while k < path.len()
            invariant
                self.wf(),
                1 <= k <= path@.len(),
                edges@ == path_edges(self.id(), path@.take(k as int)),
                (self.nodes()@, self.counters()@) == learn_path(n0, c0, path@.take(k as int)),
                self.id() == old(self).id(),
                WebBrowser::frame_requests(self, old(self)),
                WebBrowser::frame_files(self, old(self)),
                WebBrowser::frame_routes(self, old(self)),
            decreases path@.len() - k,
        {
            let (from_id, from_type) = path[k - 1];
            let (to_id, to_type) = path[k];
            let ghost before_edges = edges@;
            if to_id == self.id || from_id == self.id {
                edges.push((from_id, to_id));
                edges.push((to_id, from_id));
            } else if from_type == NodeType::Client || from_type == NodeType::Server {
                edges.push((to_id, from_id));
            } else if to_type == NodeType::Client || to_type == NodeType::Server {
                edges.push((from_id, to_id));
            } else {
                edges.push((from_id, to_id));
                edges.push((to_id, from_id));
            }
            self.nodes_type.insert(to_id, GraphNodeType::from(to_type));
            self.init_drone_counters();
            proof {
                let t = path@.take(k + 1);
                assert(t.drop_last() =~= path@.take(k as int));
                assert(t[t.len() - 2] == path@[k - 1]);
                assert(t.last() == path@[k as int]);
                assert(edges@ =~= before_edges + pair_edges(self.id(), path@[k - 1], path@[k as int]));
            }
            k += 1;
        }
        assert(path@.take(path@.len() as int) =~= path@);
        FloodResponseOutcome::Learned(edges)
    }
}

/// What an acknowledgement led to.
#[derive(Debug)]
pub enum AckOutcome {
    /// The packet is not for this client: it is to be shortcut.
    Shortcut,
    /// No pending request has the packet's request id: dropped.
    UnknownRequest,
    /// The fragment was not waiting for an acknowledgement: dropped.
    AlreadyAcknowledged,
    /// The fragment is acknowledged; the weights of the edges into these
    /// drones, in order, are to follow their counters.
    Acknowledged(Vec<NodeId>),
}

/// What a fragment of a response led to.
#[derive(Debug)]
pub enum FragmentOutcome {
    /// The packet is not for this client: it is to be shortcut.
    Shortcut,
    /// No pending request has the packet's request id: dropped.
    UnknownRequest,
    /// A fragment with the same index was already received: ignored.
    Duplicate,
    /// The fragment is stored: an acknowledgement for this session id and
    /// fragment index is to be sent to `dest` (and shortcut if no route is
    /// found, along the route from this client to `dest`).
    SendAck { session_id: u64, fragment_index: u64, dest: NodeId },
}

/// What a negative acknowledgement led to.
#[derive(Debug)]
pub enum NackOutcome {
    /// The packet is not for this client: it is to be shortcut.
    Shortcut,
    /// No pending request has the packet's request id: dropped.
    UnknownRequest,
    /// The fragment is not waiting for an acknowledgement: dropped.
    UnknownPacket,
    /// The fragment is to be sent again to `dest`; if that fails, it is to
    /// be queued for later and a flood started. When `refresh` names a
    /// drone, the weights of the edges into it follow its counters; when
    /// `removed_node` names a node, it leaves the topology graph.
    Resend { packet_id: PacketId, fragment: Fragment, dest: NodeId, refresh: Option<NodeId>, removed_node: Option<NodeId> },
}

/// `b` is `a` with possibly other fragments waiting for acknowledgement.
pub open spec fn same_but_waiting(a: WebBrowserRequest, b: WebBrowserRequest) -> bool {
    &&& a.request_id == b.request_id
    &&& a.server_id == b.server_id
    &&& a.incoming_messages == b.incoming_messages
    &&& a.compression == b.compression
    &&& a.request_type == b.request_type
    &&& a.response_is_complete == b.response_is_complete
}

/// `b` is `a` with possibly more received fragments and a new completion flag.
pub open spec fn same_but_incoming(a: WebBrowserRequest, b: WebBrowserRequest) -> bool {
    &&& a.request_id == b.request_id
    &&& a.server_id == b.server_id
    &&& a.waiting_for_ack == b.waiting_for_ack
    &&& a.compression == b.compression
    &&& a.request_type == b.request_type
}

impl WebBrowser {
    /// Reads an acknowledgement: the fragment stops waiting for one, and if
    /// its route is known the drones on it count one more packet.
    pub fn handle_ack(&mut self, packet: &Packet) -> (outcome: AckOutcome)
        requires
            old(self).wf(),
        ensures
            final(self).wf(),
            ack_applied(old(self), final(self), *packet, outcome),
    {
        if !self.client_is_destination(packet) {
            return AckOutcome::Shortcut;
        }
        match self.get_request_index(packet) {
            None => AckOutcome::UnknownRequest,
            Some(i) => {
                let packet_id = PacketId::from_u64(packet.session_id);
                proof {
                    PacketId::lemma_with((packet.session_id / 0x1_0000) as u64, (packet.session_id % 0x1_0000) as u16);
                    PacketId::lemma_ext_equal(packet_id, session_packet_id(packet.session_id));
                    assert(self.pending_requests@[i as int].wf());
                }
                if !self.pending_requests[i].waiting_for_ack.contains_key(&packet_id) {
                    return AckOutcome::AlreadyAcknowledged;
                }
                let mut req = self.pending_requests.remove(i);
                let _ = req.waiting_for_ack.remove(&packet_id);
                self.pending_requests.insert(i, req);
                proof {
                    assert(self.pending() =~= old(self).pending().update(i as int, self.pending()[i as int]));
                    assert forall|j: int| 0 <= j < self.pending_requests@.len() implies #[trigger] self.pending_requests@[j].wf() by {
                        if j != i {
                            assert(self.pending_requests@[j] == old(self).pending_requests@[j]);
                        }
                    }
                }
                match self.routing_header_history.remove(&packet_id) {
                    Some(header) => {
                        let refresh = self.update_packet_counter_after_ack(&header);
                        AckOutcome::Acknowledged(refresh)
                    },
                    None => AckOutcome::Acknowledged(Vec::new()),
                }
            },
        }
    }
}

impl WebBrowser {
    /// Whether `frags` holds a fragment with index `index`.
    fn has_fragment_index(frags: &Vec<Fragment>, index: u64) -> (b: bool)
        ensures
            b == exists|k: int| 0 <= k < frags@.len() && #[trigger] frags@[k].fragment_index == index,
    {
        let mut k: usize = 0;
        while k < frags.len()
            invariant
                k <= frags@.len(),
                forall|q: int| 0 <= q < k ==> #[trigger] frags@[q].fragment_index != index,
            decreases frags@.len() - k,
        {
            if frags[k].fragment_index == index {
                return true;
            }
            k += 1;
        }
        false
    }

    /// Reads a fragment of a response: a new one is stored with its request,
    /// which is complete once it holds as many fragments as the response
    /// has; the fragment is then to be acknowledged to the request's server.
    pub fn handle_fragment(&mut self, packet: &Packet, fragment: &Fragment) -> (outcome: FragmentOutcome)
        requires
            old(self).wf(),
        ensures
            final(self).wf(),
            fragment_applied(old(self), final(self), *packet, *fragment, outcome),
    {
        if !self.client_is_destination(packet) {
            return FragmentOutcome::Shortcut;
        }
        match self.get_request_index(packet) {
            None => FragmentOutcome::UnknownRequest,
            Some(i) => {
                let n_frags = fragment.total_n_fragments as usize;
                proof {
                    assert(self.pending_requests@[i as int].wf());
                }
                if Self::has_fragment_index(&self.pending_requests[i].incoming_messages, fragment.fragment_index) {
                    return FragmentOutcome::Duplicate;
                }
                let mut req = self.pending_requests.remove(i);
                let ghost before = req.incoming_messages@;
                req.incoming_messages.push(*fragment);
                if req.incoming_messages.len() == n_frags {
                    req.response_is_complete = true;
                }
                let ack_dest = req.server_id;
                proof {
                    assert forall|a: int, b: int|
                        0 <= a < req.incoming_messages@.len() && 0 <= b < req.incoming_messages@.len() && a != b
                            implies #[trigger] req.incoming_messages@[a].fragment_index
                        != #[trigger] req.incoming_messages@[b].fragment_index by {
                        if a < before.len() && b < before.len() {
                        } else if a < before.len() {
                            assert(req.incoming_messages@[a] == before[a]);
                        } else {
                            assert(req.incoming_messages@[b] == before[b]);
                        }
                    }
                }
                self.pending_requests.insert(i, req);
                proof {
                    assert(self.pending() =~= old(self).pending().update(i as int, self.pending()[i as int]));
                    assert forall|j: int| 0 <= j < self.pending_requests@.len() implies #[trigger] self.pending_requests@[j].wf() by {
                        if j != i {
                            assert(self.pending_requests@[j] == old(self).pending_requests@[j]);
                        }
                    }
                }
                FragmentOutcome::SendAck {
                    session_id: packet.session_id,
                    fragment_index: fragment.fragment_index,
                    dest: ack_dest,
                }
            },
        }
    }

    /// Reads a negative acknowledgement of a fragment that waits for an
    /// acknowledgement. Its route is forgotten. If a drone dropped it, the
    /// drones on its route before the one that sent the NACK count one more
    /// packet and that one also a lost packet; if the route was wrong, the
    /// node at fault is forgotten (when it is unknown or a drone). In both
    /// cases the fragment is to be sent again.
    pub fn handle_nack(&mut self, packet: &Packet, nack: &Nack) -> (outcome: NackOutcome)
        requires
            old(self).wf(),
        ensures
            final(self).wf(),
            nack_applied(old(self), final(self), *packet, *nack, outcome),
    {
        if !self.client_is_destination(packet) {
            return NackOutcome::Shortcut;
        }
        match self.get_request_index(packet) {
            None => NackOutcome::UnknownRequest,
            Some(i) => {
                let packet_id = PacketId::from_u64(packet.session_id);
                proof {
                    PacketId::lemma_with((packet.session_id / 0x1_0000) as u64, (packet.session_id % 0x1_0000) as u16);
                    PacketId::lemma_ext_equal(packet_id, session_packet_id(packet.session_id));
                    assert(self.pending_requests@[i as int].wf());
                }
                let fragment = match self.pending_requests[i].waiting_for_ack.get(&packet_id) {
                    Some(f) => *f,
                    None => {
                        return NackOutcome::UnknownPacket;
                    },
                };
                let dest = self.pending_requests[i].server_id;
                let original_header = self.routing_header_history.remove(&packet_id);
                match nack.nack_type {
                    NackType::Dropped | NackType::DestinationIsDrone => {
                        let mut refresh: Option<NodeId> = None;
                        if nack.nack_type == NackType::Dropped {
                            match original_header {
                                Some(header) => match packet.routing_header.source() {
                                    Some(source) => {
                                        self.update_packet_counter_after_nack(&header, source);
                                        refresh = Some(source);
                                    },
                                    None => {},
                                },
                                None => {},
                            }
                        }
                        NackOutcome::Resend { packet_id, fragment, dest, refresh, removed_node: None }
                    },
                    NackType::ErrorInRouting(node_to_remove) | NackType::UnexpectedRecipient(node_to_remove) => {
                        let removed = self.remove_node(node_to_remove);
                        NackOutcome::Resend {
                            packet_id,
                            fragment,
                            dest,
                            refresh: None,
                            removed_node: if removed {
                                Some(node_to_remove)
                            } else {
                                None
                            },
                        }
                    },
                }
            },
        }
    }
}

/// The next step of sending queued fragments again.
#[derive(Debug)]
pub enum ResendStep {
    /// Nothing is queued.
    Idle,
    /// The first queued fragment belongs to no pending request.
    Orphan { packet_id: PacketId, fragment: Fragment },
    /// The first queued fragment is to be sent to `dest`: on success its
    /// route is to be recorded, on failure it goes back to the queue's end.
    Send { packet_id: PacketId, fragment: Fragment, dest: NodeId },
}

/// What a packet led to.
#[derive(Debug)]
pub enum PacketAction {
    /// A flood request: it is to be handled by the flooding protocol.
    FloodRequest,
    FloodResponse(FloodResponseOutcome),
    Ack(AckOutcome),
    Nack(NackOutcome),
    Fragment(FragmentOutcome),
}

/// What a command of the simulation controller led to.
#[derive(Debug)]
pub enum CommandAction {
    /// A new neighbour: its channel and the edges between it and this
    /// client are to be added, and a flood started.
    AddSender(NodeId),
    /// A neighbour leaves: its channel is to be dropped, and when `removed`
    /// it also leaves the topology graph.
    RemoveSender { node: NodeId, removed: bool },
    /// A request is to be created.
    CreateRequest(RequestType),
    /// A packet was handed over by the controller.
    Packet(PacketAction),
}

impl WebBrowser {
    /// Takes the first queued fragment, to send it again to the server of
    /// its request.
    pub fn try_resend_packet(&mut self) -> (step: ResendStep)
        requires
            old(self).wf(),
        ensures
            final(self).wf(),
            old(self).resend_queue().len() == 0 ==> {
                &&& step is Idle
                &&& WebBrowser::frame_requests(final(self), old(self))
                &&& WebBrowser::frame_nodes(final(self), old(self))
                &&& WebBrowser::frame_files(final(self), old(self))
                &&& WebBrowser::frame_routes(final(self), old(self))
            },
            old(self).resend_queue().len() > 0 ==> {
                let (id, f) = old(self).resend_queue()[0];
                let found = first_request_with(old(self).pending(), id.request());
                &&& final(self).resend_queue() == old(self).resend_queue().drop_first()
                &&& final(self).pending() == old(self).pending()
                &&& final(self).counter() == old(self).counter()
                &&& WebBrowser::frame_nodes(final(self), old(self))
                &&& WebBrowser::frame_files(final(self), old(self))
                &&& WebBrowser::frame_routes(final(self), old(self))
                &&& step == match found {
                    Some(i) => ResendStep::Send {
                        packet_id: id,
                        fragment: f,
                        dest: old(self).pending()[i as int].server_id,
                    },
                    None => ResendStep::Orphan { packet_id: id, fragment: f },
                }
            },
    {
        match self.packets_to_be_sent_again.pop_front() {
            None => ResendStep::Idle,
            Some((id, frag)) => match self.find_request(id.get_request_id()) {
                Some(i) => ResendStep::Send { packet_id: id, fragment: frag, dest: self.pending_requests[i].server_id },
                None => ResendStep::Orphan { packet_id: id, fragment: frag },
            },
        }
    }

    /// Takes out the first request whose response is complete and whose
    /// fragments are all acknowledged.
    pub fn take_completed_request(&mut self) -> (req: Option<WebBrowserRequest>)
        requires
            old(self).wf(),
        ensures
            final(self).wf(),
            req is Some <==> first_completed(old(self).pending()) is Some,
            req matches Some(r) ==> r.response_is_complete && r.waiting_for_ack.len_spec() == 0,
            req is None ==> forall|i: int|
                0 <= i < old(self).pending().len() ==> !((#[trigger] old(self).pending()[i]).response_is_complete
                    && old(self).pending()[i].waiting_for_ack.len_spec() == 0),
            req matches Some(r) ==> {
                let i = first_completed(old(self).pending())->0 as int;
                &&& r == old(self).pending()[i]
                &&& r.wf()
                &&& final(self).pending() == old(self).pending().remove(i)
            },
            req is None ==> final(self).pending() == old(self).pending(),
            final(self).counter() == old(self).counter(),
            final(self).resend_queue() == old(self).resend_queue(),
            WebBrowser::frame_nodes(final(self), old(self)),
            WebBrowser::frame_files(final(self), old(self)),
            WebBrowser::frame_routes(final(self), old(self)),
    {
        let ghost p = |r: WebBrowserRequest| r.response_is_complete && r.waiting_for_ack.len_spec() == 0;
        let mut i: usize = 0;
        while i < self.pending_requests.len()
            invariant
                i <= self.pending_requests@.len(),
                p == (|r: WebBrowserRequest| r.response_is_complete && r.waiting_for_ack.len_spec() == 0),
                self.wf(),
                *self == *old(self),
                forall|j: int| 0 <= j < i ==> !#[trigger] p(self.pending_requests@[j]),
            decreases self.pending_requests@.len() - i,
        {
            if self.pending_requests[i].response_is_complete && self.pending_requests[i].waiting_for_ack.len() == 0 {
                proof {
                    lemma_first_where(self.pending(), p, i as int);
                    assert(self.pending_requests@[i as int].wf());
                }
                let r = self.pending_requests.remove(i);
                proof {
                    assert forall|j: int| 0 <= j < self.pending_requests@.len() implies #[trigger] self.pending_requests@[j].wf() by {
                        if j < i {
                            assert(self.pending_requests@[j] == old(self).pending_requests@[j]);
                        } else {
                            assert(self.pending_requests@[j] == old(self).pending_requests@[j + 1]);
                        }
                    }
                }
                return Some(r);
            }
            i += 1;
        }
        proof {
            lemma_first_where(self.pending(), p, i as int);
            lemma_first_completed(self.pending());
        }
        None
    }

    /// Reads a packet addressed to this client (or handed over by the
    /// controller), according to what it carries.
    pub fn handle_packet(&mut self, packet: &Packet) -> (action: PacketAction)
        requires
            old(self).wf(),
        ensures
            final(self).wf(),
            packet_applied(old(self), final(self), *packet, action),
    {
        match &packet.pack_type {
            PacketType::FloodRequest(_) => PacketAction::FloodRequest,
            PacketType::FloodResponse(resp) => PacketAction::FloodResponse(self.handle_flood_response(packet, resp)),
            PacketType::Ack(_) => PacketAction::Ack(self.handle_ack(packet)),
            PacketType::Nack(nack) => PacketAction::Nack(self.handle_nack(packet, nack)),
            PacketType::MsgFragment(fragment) => PacketAction::Fragment(self.handle_fragment(packet, fragment)),
        }
    }

    /// Reads a command of the simulation controller.
    pub fn handle_command(&mut self, command: Command) -> (action: CommandAction)
        requires
            old(self).wf(),
        ensures
            final(self).wf(),
            match command {
                Command::AddSender(id) => action == CommandAction::AddSender(id) && *final(self) == *old(self),
                Command::RemoveSender(id) => {
                    let removable = !old(self).nodes()@.contains_key(id) || old(self).nodes()@[id]
                        == GraphNodeType::Drone;
                    &&& action == (CommandAction::RemoveSender { node: id, removed: removable })
                    &&& final(self).nodes() == old(self).nodes()
                    &&& removable ==> final(self).counters()@ == old(self).counters()@.remove(id)
                    &&& !removable ==> final(self).counters() == old(self).counters()
                    &&& WebBrowser::frame_requests(final(self), old(self))
                    &&& WebBrowser::frame_files(final(self), old(self))
                    &&& WebBrowser::frame_routes(final(self), old(self))
                },
                Command::AskListOfFiles(s) => action == CommandAction::CreateRequest(RequestType::TextList(s))
                    && *final(self) == *old(self),
                Command::AskServersTypes => action == CommandAction::CreateRequest(RequestType::ServersType)
                    && *final(self) == *old(self),
                Command::RequestFile(f, s) => action == CommandAction::CreateRequest(RequestType::Text(f, s))
                    && *final(self) == *old(self),
                Command::Shortcut(p) => action matches CommandAction::Packet(a) && packet_applied(
                    old(self),
                    final(self),
                    p,
                    a,
                ),
            },
    {
        match command {
            Command::AddSender(id) => CommandAction::AddSender(id),
            Command::RemoveSender(id) => {
                let removed = self.remove_node(id);
                CommandAction::RemoveSender { node: id, removed }
            },
            Command::AskListOfFiles(server_id) => CommandAction::CreateRequest(RequestType::TextList(server_id)),
            Command::AskServersTypes => CommandAction::CreateRequest(RequestType::ServersType),
            Command::RequestFile(filename, server_id) => CommandAction::CreateRequest(
                RequestType::Text(filename, server_id),
            ),
            Command::Shortcut(packet) => CommandAction::Packet(self.handle_packet(&packet)),
        }
    }
}

impl WebBrowser {
    /// Whether some known node is a server of unknown kind.
    fn has_untyped_server(&self) -> (b: bool)
        requires
            self.wf(),
        ensures
            b == exists|k: NodeId| #[trigger] self.nodes()@.contains_key(k) && self.nodes()@[k] == GraphNodeType::Server,
    {
        let ghost nodes = self.nodes();
        let mut j: usize = 0;
        while j < self.nodes_type.len()
            invariant
                self.wf(),
                nodes == self.nodes(),
                j <= nodes.len_spec(),
                forall|q: int| 0 <= q < j ==> #[trigger] nodes.value_at(q) != GraphNodeType::Server,
            decreases nodes.len_spec() - j,
        {
            if *self.nodes_type.value(j) == GraphNodeType::Server {
                proof {
                    nodes.lemma_index_of(j as int);
                }
                return true;
            }
            j += 1;
        }
        proof {
            assert forall|k: NodeId| #[trigger] nodes@.contains_key(k) implies nodes@[k] != GraphNodeType::Server by {
                nodes.lemma_has(k);
            }
        }
        false
    }

    /// The known nodes of kind `kind`, in the order of the node table.
    pub fn ids_of_kind(&self, kind: GraphNodeType) -> (ids: Vec<NodeId>)
        requires
            self.wf(),
        ensures
            ids@ == ids_of_kind(self.nodes().entries(), kind),
    {
        let ghost entries = self.nodes().entries();
        let mut ids: Vec<NodeId> = Vec::new();
        let mut j: usize = 0;
        while j < self.nodes_type.len()
            invariant
                entries == self.nodes().entries(),
                j <= entries.len(),
                entries.len() == self.nodes().len_spec(),
                ids@ == ids_of_kind(entries.take(j as int), kind),
            decreases entries.len() - j,
        {
            let id = *self.nodes_type.key(j);
            let t = *self.nodes_type.value(j);
            proof {
                assert(entries.take(j + 1).drop_last() =~= entries.take(j as int));
            }
            if t == kind {
                ids.push(id);
            }
            j += 1;
        }
        assert(entries.take(entries.len() as int) =~= entries);
        ids
    }

    /// The kind of every known chat, media and text server, in the order
    /// of the node table.
    fn typed_servers(&self) -> (list: Vec<(NodeId, ServerType)>)
        requires
            self.wf(),
        ensures
            list@ == typed_servers(self.nodes().entries()),
    {
        let ghost entries = self.nodes().entries();
        let mut list: Vec<(NodeId, ServerType)> = Vec::new();
        let mut j: usize = 0;
        while j < self.nodes_type.len()
            invariant
                entries == self.nodes().entries(),
                j <= entries.len(),
                entries.len() == self.nodes().len_spec(),
                list@ == typed_servers(entries.take(j as int)),
            decreases entries.len() - j,
        {
            let id = *self.nodes_type.key(j);
            let t = *self.nodes_type.value(j);
            proof {
                assert(entries.take(j + 1).drop_last() =~= entries.take(j as int));
            }
            match t {
                GraphNodeType::ChatServer => list.push((id, ServerType::ChatServer)),
                GraphNodeType::MediaServer => list.push((id, ServerType::MediaServer)),
                GraphNodeType::TextServer => list.push((id, ServerType::FileServer)),
                _ => {},
            }
            j += 1;
        }
        assert(entries.take(entries.len() as int) =~= entries);
        list
    }

    /// Completes a request with an answer that any server can give. A
    /// server's kind is recorded (for a known node); once no server of
    /// unknown kind is left, the kinds of all servers are reported. A refused
    /// request, or a missing file, is reported as unsupported.
    pub fn complete_request_with_generic_response(
        &mut self,
        server_id: NodeId,
        request_type: RequestType,
        resp: &GenericResponse,
    ) -> (event: Option<ClientEvent>)
        requires
            old(self).wf(),
        ensures
            final(self).wf(),
            generic_response_applied(old(self), final(self), server_id, *resp, event),
    {
        match resp {
            GenericResponse::Type(server_type) => {
                match self.nodes_type.find(&server_id) {
                    Some(i) => {
                        let _ = self.nodes_type.replace_value(i, GraphNodeType::from(*server_type));
                    },
                    None => {},
                }
                if !self.has_untyped_server() {
                    let list = self.typed_servers();
                    proof {
                        lemma_reported_server_kinds(self);
                        assert forall|i: int| 0 <= i < list@.len() implies #[trigger] self.nodes()@.contains_key(
                            list@[i].0,
                        ) && self.nodes()@[list@[i].0] == graph_type_of_server(list@[i].1) by {
                            let (id, kind) = typed_servers(self.nodes().entries())[i];
                        }
                    }
                    Some(ClientEvent::ServersTypes(list))
                } else {
                    None
                }
            },
            GenericResponse::InvalidRequest => Some(ClientEvent::UnsupportedRequest),
            GenericResponse::NotFound => Some(ClientEvent::UnsupportedRequest),
        }
    }
}

/// What a text server's answer led to.
#[derive(Debug)]
pub enum TextOutcome {
    /// The answer does not match the request: dropped.
    Dropped,
    /// The text file is not valid UTF-8.
    NotUtf8,
    /// This is to be reported to the controller.
    Event(ClientEvent),
    /// The text file waits for its media; a media-list request is to be
    /// created for each of these media servers.
    WaitingForMedia(Vec<NodeId>),
}

/// A copy of `v`.
fn copy_ids(v: &Vec<NodeId>) -> (r: Vec<NodeId>)
    ensures
        r@ == v@,
{
    let mut r: Vec<NodeId> = Vec::new();
    let mut i: usize = 0;
    while i < v.len()
        invariant
            i <= v@.len(),
            r@ == v@.take(i as int),
        decreases v@.len() - i,
    {
        r.push(v[i]);
        assert(r@ =~= v@.take(i + 1));
        i += 1;
    }
    assert(v@.take(v@.len() as int) =~= v@);
    r
}

/// A copy of the strings of `v`.
fn copy_strings(v: &Vec<String>) -> (r: Vec<String>)
    ensures
        strings_view(r@) == strings_view(v@),
{
    let mut r: Vec<String> = Vec::new();
    let mut i: usize = 0;
    while i < v.len()
        invariant
            i <= v@.len(),
            strings_view(r@) == strings_view(v@.take(i as int)),
        decreases v@.len() - i,
    {
        let ghost before = r@;
        let c = v[i].clone();
        assert(c@ == v@[i as int]@);
        r.push(c);
        assert(r@ == before.push(c));
        assert(strings_view(r@) =~= strings_view(before).push(c@));
        assert(v@.take(i + 1) == v@.take(i as int).push(v@[i as int]));
        assert(strings_view(v@.take(i + 1)) =~= strings_view(v@.take(i as int)).push(v@[i as int]@));
        i += 1;
    }
    assert(v@.take(v@.len() as int) =~= v@);
    r
}

/// What receiving the text file `file` (at `path`, from `server_id`) does,
/// from `old` to `new`, with the outcome `outcome`. A file that shows no
/// media goes straight to the controller; otherwise it is stored, it waits
/// for its media, and every needed media that is neither stored nor tracked
/// yet waits for the known media servers to list their files.
pub open spec fn text_file_received(
    old: &WebBrowser,
    new: &WebBrowser,
    server_id: NodeId,
    path: String,
    file: Vec<u8>,
    outcome: TextOutcome,
) -> bool {
    if !valid_utf8(file@) {
        outcome is NotUtf8 && *new == *old
    } else {
        let media = media_of_html(decode_utf8(file@));
        if media.len() == 0 {
            &&& outcome matches TextOutcome::Event(ClientEvent::FileFromClient(r, s))
            &&& s == server_id
            &&& r.html_file.0@ == filename_of(path@)
            &&& r.html_file.1 == file
            &&& r.media_files@.len() == 0
            &&& *new == *old
        } else {
            let servers = ids_of_kind(old.nodes().entries(), GraphNodeType::MediaServer);
            let stored = old.stored_view().insert(path@, file@);
            let (sources, required) = register_media(old.sources_view(), stored, media, servers);
            &&& new.stored_view() == stored
            &&& new.text_media_view() == old.text_media_view().insert((server_id, path@), media)
            &&& new.sources_view() == sources
            &&& outcome matches TextOutcome::WaitingForMedia(list)
            &&& list@ == if required {
                servers
            } else {
                Seq::empty()
            }
            &&& required == exists|x: Seq<char>|
                #[trigger] media.contains(x) && !stored.contains_key(x) && !old.sources_view().contains_key(x)
            &&& WebBrowser::frame_requests(new, old)
            &&& WebBrowser::frame_nodes(new, old)
            &&& WebBrowser::frame_routes(new, old)
        }
    }
}

impl WebBrowser {
    /// Completes a request with a text server's answer: a list of files is
    /// reported; a text file is handled as `text_file_received` says.
    pub fn complete_request_with_text_response(
        &mut self,
        server_id: NodeId,
        request_type: RequestType,
        resp: TextResponse,
    ) -> (outcome: TextOutcome)
        requires
            old(self).wf(),
        ensures
            final(self).wf(),
            text_response_applied(old(self), final(self), server_id, request_type, resp, outcome),
    {
        match resp {
            TextResponse::TextList(vec) => TextOutcome::Event(ClientEvent::ListOfFiles(vec, server_id)),
            TextResponse::Text(file) => {
                let text_path = match request_type {
                    RequestType::Text(p, _) => p,
                    _ => {
                        return TextOutcome::Dropped;
                    },
                };
                let file_str = match string_from_utf8(copy_bytes(&file)) {
                    Some(t) => t,
                    None => {
                        return TextOutcome::NotUtf8;
                    },
                };
                let needed_media = get_media_inside_html_file(file_str.as_str());
                let ghost media = strings_view(needed_media@);
                if needed_media.len() == 0 {
                    return TextOutcome::Event(
                        ClientEvent::FileFromClient(
                            TextMediaResponse {
                                html_file: (get_filename_from_path(text_path.as_str()), file),
                                media_files: Vec::new(),
                            },
                            server_id,
                        ),
                    );
                }
                let ghost old_stored = self.stored()@;
                self.stored_files.insert(text_path.clone(), file);
                proof {
                    lemma_map_values_insert(old_stored, text_path@, file, |v: Vec<u8>| v@);
                }
                let ghost old_tm = self.text_media()@;
                let media_copy = copy_strings(&needed_media);
                self.text_media_map.insert((server_id, text_path.clone()), media_copy);
                proof {
                    lemma_map_values_insert(old_tm, (server_id, text_path@), media_copy, |v: Vec<String>| strings_view(v@));
                }
                let servers = self.ids_of_kind(GraphNodeType::MediaServer);
                proof {
                    let es = self.nodes().entries();
                    assert forall|i: int, j: int| 0 <= i < es.len() && 0 <= j < es.len() && i != j implies es[i].0 != es[j].0 by {
                        assert(self.nodes().key_at(i) == es[i].0 && self.nodes().key_at(j) == es[j].0);
                    }
                    lemma_ids_of_kind_distinct(es, GraphNodeType::MediaServer);
                }
                let ghost stored_target = self.stored_view();
                let ghost tm_now = self.text_media();
                let mut required = false;
                let mut k: usize = 0;
                assert(media.take(0) =~= Seq::<Seq<char>>::empty());
                while k < needed_media.len()
                    invariant
                        self.wf(),
                        servers@.no_duplicates(),
                        k <= needed_media@.len(),
                        media == strings_view(needed_media@),
                        self.stored_view() == stored_target,
                        (self.sources_view(), required) == register_media(
                            old(self).sources_view(),
                            stored_target,
                            media.take(k as int),
                            servers@,
                        ),
                        self.text_media() == tm_now,
                        WebBrowser::frame_requests(self, old(self)),
                        WebBrowser::frame_nodes(self, old(self)),
                        WebBrowser::frame_routes(self, old(self)),
                    decreases needed_media@.len() - k,
                {
                    let media_path = &needed_media[k];
                    proof {
                        assert(media.take(k + 1).drop_last() =~= media.take(k as int));
                        assert(media.take(k + 1).last() == media_path@);
                    }
                    if !self.stored_files.contains_key(media_path) && !self.media_sources.contains_key(media_path) {
                        let ghost old_src = self.sources()@;
                        let waiting = copy_ids(&servers);
                        self.media_sources.insert(media_path.clone(), MediaSource::RequestsLeft(waiting));
                        proof {
                            lemma_map_values_insert(old_src, media_path@, MediaSource::RequestsLeft(waiting), |v: MediaSource| v@);
                        }
                        required = true;
                    }
                    k += 1;
                }
                assert(media.take(media.len() as int) =~= media);
                proof {
                    lemma_register_media(old(self).sources_view(), stored_target, media, servers@);
                }
                TextOutcome::WaitingForMedia(
                    if required {
                        servers
                    } else {
                        Vec::new()
                    },
                )
            },
        }
    }
}

/// What a media server's answer led to.
#[derive(Debug)]
pub enum MediaOutcome {
    /// The answer does not match the request: dropped.
    Dropped,
    /// The media file is stored.
    Stored,
    /// The answering server owns these needed files: a media request is
    /// to be created for each, to that server, in order.
    Owners(Vec<String>),
}

/// The position of the first `s` in `l`.
fn position_of(l: &Vec<NodeId>, s: NodeId) -> (r: Option<usize>)
    ensures
        r is Some <==> index_or_len(l@, s) < l@.len(),
        r matches Some(i) ==> i == index_or_len(l@, s),
{
    let mut i: usize = 0;
    while i < l.len()
        invariant
            i <= l@.len(),
            forall|j: int| 0 <= j < i ==> l@[j] != s,
        decreases l@.len() - i,
    {
        if l[i] == s {
            proof {
                lemma_index_or_len(l@, s, i as int);
            }
            return Some(i);
        }
        i += 1;
    }
    proof {
        lemma_index_or_len(l@, s, i as int);
    }
    None
}

/// Whether `v` holds a string equal to `f`.
fn contains_string(v: &Vec<String>, f: &String) -> (b: bool)
    ensures
        b == strings_view(v@).contains(f@),
{
    let mut i: usize = 0;
    while i < v.len()
        invariant
            i <= v@.len(),
            forall|j: int| 0 <= j < i ==> v@[j]@ != f@,
        decreases v@.len() - i,
    {
        if v[i] == *f {
            assert(strings_view(v@)[i as int] == f@);
            return true;
        }
        i += 1;
    }
    proof {
        if strings_view(v@).contains(f@) {
            let j = choose|j: int| 0 <= j < strings_view(v@).len() && strings_view(v@)[j] == f@;
            assert(v@[j]@ == f@);
        }
    }
    false
}

impl WebBrowser {
    /// Whether some waiting text file needs the media `f`.
    fn media_is_needed(&self, f: &String) -> (b: bool)
        requires
            self.wf(),
        ensures
            b == is_needed(self.text_media_view(), f@),
    {
        let ghost tm = self.text_media();
        let mut j: usize = 0;
        while j < self.text_media_map.len()
            invariant
                self.wf(),
                tm == self.text_media(),
                j <= tm.len_spec(),
                forall|q: int| 0 <= q < j ==> !strings_view(#[trigger] tm.value_at(q)@).contains(f@),
            decreases tm.len_spec() - j,
        {
            if contains_string(self.text_media_map.value(j), f) {
                proof {
                    tm.lemma_index_of(j as int);
                    let k = tm.key_at(j as int);
                    assert(self.text_media_view().contains_key(k));
                    assert(self.text_media_view()[k] == strings_view(tm.value_at(j as int)@));
                }
                return true;
            }
            j += 1;
        }
        proof {
            if is_needed(self.text_media_view(), f@) {
                let k = choose|k: (NodeId, Seq<char>)| #[trigger] self.text_media_view().contains_key(k)
                    && self.text_media_view()[k].contains(f@);
                tm.lemma_has(k);
                let q = tm.index_of(k);
                assert(strings_view(tm.value_at(q)@).contains(f@));
            }
        }
        false
    }

    /// Takes media server `server_id` off every list of servers that still
    /// have to list their files.
    fn strike_server_everywhere(&mut self, server_id: NodeId)
        requires
            old(self).wf(),
        ensures
            final(self).wf(),
            final(self).sources_view() == old(self).sources_view().map_values(
                |v: MediaSourceView| strike_server(v, server_id),
            ),
            final(self).stored() == old(self).stored(),
            final(self).text_media() == old(self).text_media(),
            WebBrowser::frame_requests(final(self), old(self)),
            WebBrowser::frame_nodes(final(self), old(self)),
            WebBrowser::frame_routes(final(self), old(self)),
    {
        let ghost src0 = self.sources();
        let mut j: usize = 0;
        while j < self.media_sources.len()
            invariant
                self.wf(),
                j <= src0.len_spec(),
                self.sources().len_spec() == src0.len_spec(),
                forall|q: int| 0 <= q < src0.len_spec() ==> #[trigger] self.sources().key_at(q) == src0.key_at(q),
                forall|q: int|
                    0 <= q < j ==> #[trigger] self.sources().value_at(q)@ == strike_server(
                        src0.value_at(q)@,
                        server_id,
                    ),
                forall|q: int| j <= q < src0.len_spec() ==> #[trigger] self.sources().value_at(q) == src0.value_at(q),
                self.stored() == old(self).stored(),
                self.text_media() == old(self).text_media(),
                WebBrowser::frame_requests(self, old(self)),
                WebBrowser::frame_nodes(self, old(self)),
                WebBrowser::frame_routes(self, old(self)),
            decreases src0.len_spec() - j,
        {
            let ghost before = self.sources();
            proof {
                before.lemma_index_of(j as int);
                assert(self.sources_view().contains_key(before.key_at(j as int)));
                lemma_map_values_insert(before@, before.key_at(j as int), MediaSource::Owner(None), |v: MediaSource| v@);
            }
            let v = self.media_sources.replace_value(j, MediaSource::Owner(None));
            let ghost mid = self.sources();
            assert(v == src0.value_at(j as int));
            assert(v@ matches MediaSourceView::RequestsLeft(l) ==> l.no_duplicates());
            let nv = match v {
                MediaSource::RequestsLeft(l) => {
                    let mut l = l;
                    match position_of(&l, server_id) {
                        Some(idx) => {
                            proof {
                                lemma_remove_distinct(l@, idx as int);
                            }
                            l.remove(idx);
                            if l.len() == 0 {
                                MediaSource::Owner(None)
                            } else {
                                MediaSource::RequestsLeft(l)
                            }
                        },
                        None => MediaSource::RequestsLeft(l),
                    }
                },
                MediaSource::Owner(o) => MediaSource::Owner(o),
            };
            assert(nv@ == strike_server(v@, server_id));
            assert(nv@ matches MediaSourceView::RequestsLeft(l) ==> l.no_duplicates());
            proof {
                lemma_map_values_insert(mid@, before.key_at(j as int), nv, |v: MediaSource| v@);
            }
            let _ = self.media_sources.replace_value(j, nv);
            proof {
                let after = self.sources();
                assert forall|q: int| 0 <= q < src0.len_spec() implies #[trigger] after.key_at(q) == src0.key_at(q) by {
                    assert(after.key_at(q) == mid.key_at(q));
                    assert(mid.key_at(q) == before.key_at(q));
                }
                assert forall|q: int| 0 <= q < j + 1 implies #[trigger] after.value_at(q)@ == strike_server(
                    src0.value_at(q)@,
                    server_id,
                ) by {
                    if q < j {
                        assert(after.value_at(q) == before.value_at(q));
                    }
                }
                assert forall|q: int| j + 1 <= q < src0.len_spec() implies #[trigger] after.value_at(q) == src0.value_at(q) by {
                    assert(after.value_at(q) == before.value_at(q));
                }
            }
            j += 1;
        }
        proof {
            let f = |v: MediaSourceView| strike_server(v, server_id);
            let fin = self.sources();
            assert forall|k: Seq<char>| #[trigger] fin@.contains_key(k) == src0@.contains_key(k) by {
                if fin@.contains_key(k) {
                    fin.lemma_has(k);
                    assert(src0.key_at(fin.index_of(k)) == k);
                }
                if src0@.contains_key(k) {
                    src0.lemma_has(k);
                    assert(fin.key_at(src0.index_of(k)) == k);
                }
            }
            assert forall|k: Seq<char>| #[trigger] fin@.contains_key(k) implies fin@[k]@ == f(src0@[k]@) by {
                src0.lemma_has(k);
                let q = src0.index_of(k);
                assert(fin.key_at(q) == k);
                fin.lemma_index_of(q);
            }
            assert(self.sources_view() =~= old(self).sources_view().map_values(f));
        }
    }

    /// Completes a request with a media server's answer. A list of files
    /// takes the server off the lists of servers still to answer, and makes
    /// it the owner of each listed file that is needed and has no owner yet;
    /// those files are to be requested from it. A media file is stored.
    pub fn complete_request_with_media_response(
        &mut self,
        server_id: NodeId,
        request_type: RequestType,
        resp: MediaResponse,
    ) -> (outcome: MediaOutcome)
        requires
            old(self).wf(),
        ensures
            final(self).wf(),
            media_response_applied(old(self), final(self), server_id, request_type, resp, outcome),
    {
        match resp {
            MediaResponse::MediaList(file_list) => {
                self.strike_server_everywhere(server_id);
                let ghost struck = self.sources_view();
                let ghost needed = |f: Seq<char>| is_needed(old(self).text_media_view(), f);
                let ghost files = strings_view(file_list@);
                let mut asked: Vec<String> = Vec::new();
                let mut k: usize = 0;
                assert(files.take(0) =~= Seq::<Seq<char>>::empty());
                while k < file_list.len()
                    invariant
                        self.wf(),
                        k <= file_list@.len(),
                        files == strings_view(file_list@),
                        needed == (|f: Seq<char>| is_needed(old(self).text_media_view(), f)),
                        (self.sources_view(), strings_view(asked@)) == assign_owners(
                            struck,
                            needed,
                            files.take(k as int),
                            server_id,
                        ),
                        self.stored() == old(self).stored(),
                        self.text_media() == old(self).text_media(),
                        WebBrowser::frame_requests(self, old(self)),
                        WebBrowser::frame_nodes(self, old(self)),
                        WebBrowser::frame_routes(self, old(self)),
                    decreases file_list@.len() - k,
                {
                    let media_path = &file_list[k];
                    proof {
                        assert(files.take(k + 1).drop_last() =~= files.take(k as int));
                        assert(files.take(k + 1).last() == media_path@);
                    }
                    let file_is_needed = self.media_is_needed(media_path);
                    let owner_is_set = match self.media_sources.get(media_path) {
                        Some(MediaSource::Owner(Some(_))) => true,
                        _ => false,
                    };
                    if file_is_needed && !owner_is_set {
                        let ghost old_src = self.sources()@;
                        let ghost before = asked@;
                        self.media_sources.insert(media_path.clone(), MediaSource::Owner(Some(server_id)));
                        proof {
                            lemma_map_values_insert(old_src, media_path@, MediaSource::Owner(Some(server_id)), |v: MediaSource| v@);
                        }
                        let c = media_path.clone();
                        asked.push(c);
                        assert(strings_view(asked@) =~= strings_view(before).push(media_path@));
                    }
                    k += 1;
                }
                assert(files.take(files.len() as int) =~= files);
                MediaOutcome::Owners(asked)
            },
            MediaResponse::Media(file) => {
                match request_type {
                    RequestType::Media(media_path, _) => {
                        let ghost old_stored = self.stored()@;
                        self.stored_files.insert(media_path, file);
                        proof {
                            lemma_map_values_insert(old_stored, media_path@, file, |v: Vec<u8>| v@);
                        }
                        MediaOutcome::Stored
                    },
                    _ => MediaOutcome::Dropped,
                }
            },
        }
    }
}

/// A copy of `v`.
fn copy_bytes(v: &Vec<u8>) -> (r: Vec<u8>)
    ensures
        r@ == v@,
{
    let mut r: Vec<u8> = Vec::new();
    let mut i: usize = 0;
    while i < v.len()
        invariant
            i <= v@.len(),
            r@ == v@.take(i as int),
        decreases v@.len() - i,
    {
        r.push(v[i]);
        assert(r@ =~= v@.take(i + 1));
        i += 1;
    }
    assert(v@.take(v@.len() as int) =~= v@);
    r
}

/// The outcome of completing a request with its decoded response.
#[derive(Debug)]
pub enum Completion {
    Generic(Option<ClientEvent>),
    Text(TextOutcome),
    Media(MediaOutcome),
}

/// The outcome of handing a text file with its media to the controller.
#[derive(Debug)]
pub enum SendBack {
    /// No text file waits under this key.
    NotWaiting,
    /// The text file itself is not stored.
    MissingText,
    /// This is to be reported to the controller.
    Ready(ClientEvent),
}

/// The names and contents of files.
pub open spec fn files_view(files: Seq<(String, Vec<u8>)>) -> Seq<(Seq<char>, Seq<u8>)> {
    files.map_values(|f: (String, Vec<u8>)| (f.0@, f.1@))
}

/// The bytes of a request's response: its fragments ordered by index (the
/// request keeps them so) and joined together.
pub fn response_bytes(req: &mut WebBrowserRequest) -> (bytes: Vec<u8>)
    requires
        old(req).wf(),
    ensures
        final(req).wf(),
        sorted_by_index(final(req).incoming_messages@),
        final(req).incoming_messages@.to_multiset() == old(req).incoming_messages@.to_multiset(),
        same_but_incoming(*old(req), *final(req)),
        final(req).response_is_complete == old(req).response_is_complete,
        bytes@ == payload(final(req).incoming_messages@),
{
    let ghost before = req.incoming_messages@;
    sort_fragments(&mut req.incoming_messages);
    proof {
        let after = req.incoming_messages@;
        assert forall|a: int, b: int| 0 <= a < after.len() && 0 <= b < after.len() && a != b implies #[trigger] after[a].fragment_index
            != #[trigger] after[b].fragment_index by {
            lemma_distinct_indices_permutation(before, after, a, b);
        }
    }
    defragment_bytes(&req.incoming_messages)
}

/// A permutation of fragments with distinct indices has distinct indices.
proof fn lemma_distinct_indices_permutation(before: Seq<Fragment>, after: Seq<Fragment>, a: int, b: int)
    requires
        distinct_indices(before),
        after.to_multiset() == before.to_multiset(),
        after.len() == before.len(),
        0 <= a < after.len(),
        0 <= b < after.len(),
        a != b,
    ensures
        after[a].fragment_index != after[b].fragment_index,
{
    broadcast use vstd::seq_lib::group_to_multiset_ensures;

    if after[a].fragment_index == after[b].fragment_index {
        assert(after.to_multiset().count(after[a]) > 0);
        assert(after.to_multiset().count(after[b]) > 0);
        assert(before.contains(after[a]));
        assert(before.contains(after[b]));
        let i = choose|i: int| 0 <= i < before.len() && before[i] == after[a];
        let j = choose|j: int| 0 <= j < before.len() && before[j] == after[b];
        if i == j {
            // The same fragment sits twice in `after`, hence twice in `before`.
            assert(after[a] == after[b]);
            let x = after[a];
            assert(after.to_multiset().count(x) >= 2) by {
                lemma_count_two(after, a, b);
            }
            assert(before.to_multiset().count(x) >= 2);
            lemma_count_two_back(before, x, i);
        }
    }
}

/// A value at two positions is counted at least twice.
proof fn lemma_count_two(s: Seq<Fragment>, a: int, b: int)
    requires
        0 <= a < s.len(),
        0 <= b < s.len(),
        a != b,
        s[a] == s[b],
    ensures
        s.to_multiset().count(s[a]) >= 2,
{
    broadcast use vstd::seq_lib::group_to_multiset_ensures;

    let x = s[a];
    let lo = if a < b { a } else { b };
    let hi = if a < b { b } else { a };
    let s1 = s.remove(hi);
    assert(s1[lo] == x);
    assert(s1.to_multiset().count(x) >= 1);
    vstd::seq_lib::to_multiset_remove(s, hi);
    assert(s.to_multiset().count(x) == s1.to_multiset().count(x) + 1);
}

/// A value counted twice sits at a second position.
proof fn lemma_count_two_back(s: Seq<Fragment>, x: Fragment, i: int)
    requires
        0 <= i < s.len(),
        s[i] == x,
        s.to_multiset().count(x) >= 2,
    ensures
        exists|j: int| 0 <= j < s.len() && j != i && s[j] == x,
{
    broadcast use vstd::seq_lib::group_to_multiset_ensures;

    let s1 = s.remove(i);
    vstd::seq_lib::to_multiset_remove(s, i);
    assert(s1.to_multiset().count(x) >= 1);
    assert(s1.contains(x));
    let j = choose|j: int| 0 <= j < s1.len() && s1[j] == x;
    if j < i {
        assert(s[j] == x);
    } else {
        assert(s[j + 1] == x);
    }
}

impl WebBrowser {
    /// Completes a request with its decoded response, according to the
    /// kind of answer.
    pub fn complete_request(&mut self, server_id: NodeId, request_type: RequestType, response: Response) -> (done:
        Completion)
        requires
            old(self).wf(),
        ensures
            final(self).wf(),
            match response {
                Response::Generic(g) => done matches Completion::Generic(e) && generic_response_applied(
                    old(self),
                    final(self),
                    server_id,
                    g,
                    e,
                ),
                Response::Text(t) => done matches Completion::Text(o) && text_response_applied(
                    old(self),
                    final(self),
                    server_id,
                    request_type,
                    t,
                    o,
                ),
                Response::Media(m) => done matches Completion::Media(o) && media_response_applied(
                    old(self),
                    final(self),
                    server_id,
                    request_type,
                    m,
                    o,
                ),
            },
    {
        match response {
            Response::Generic(resp) => Completion::Generic(
                self.complete_request_with_generic_response(server_id, request_type, &resp),
            ),
            Response::Text(resp) => Completion::Text(self.complete_request_with_text_response(server_id, request_type, resp)),
            Response::Media(resp) => Completion::Media(
                self.complete_request_with_media_response(server_id, request_type, resp),
            ),
        }
    }

    /// Whether the media `m` is settled.
    fn is_media_settled(&self, m: &String) -> (b: bool)
        requires
            self.wf(),
        ensures
            b == media_settled(self.stored_view(), self.sources_view(), m@),
    {
        if self.stored_files.contains_key(m) {
            return true;
        }
        match self.media_sources.get(m) {
            None => true,
            Some(MediaSource::RequestsLeft(l)) => l.len() == 0,
            Some(MediaSource::Owner(o)) => o.is_none(),
        }
    }

    /// Whether every media of `list` is settled.
    fn all_settled(&self, list: &Vec<String>) -> (b: bool)
        requires
            self.wf(),
        ensures
            b == self.text_ready(strings_view(list@)),
    {
        let mut i: usize = 0;
        while i < list.len()
            invariant
                self.wf(),
                i <= list@.len(),
                forall|j: int| 0 <= j < i ==> media_settled(self.stored_view(), self.sources_view(), #[trigger] list@[j]@),
            decreases list@.len() - i,
        {
            if !self.is_media_settled(&list[i]) {
                assert(strings_view(list@)[i as int] == list@[i as int]@);
                assert(strings_view(list@).contains(list@[i as int]@));
                return false;
            }
            i += 1;
        }
        assert forall|m: Seq<char>| strings_view(list@).contains(m) implies media_settled(
            self.stored_view(),
            self.sources_view(),
            m,
        ) by {
            let j = choose|j: int| 0 <= j < strings_view(list@).len() && strings_view(list@)[j] == m;
            assert(list@[j]@ == m);
        }
        true
    }

    /// Every media that a text file needs is settled.
    pub open spec fn text_ready(&self, list: Seq<Seq<char>>) -> bool {
        forall|m: Seq<char>| list.contains(m) ==> media_settled(self.stored_view(), self.sources_view(), m)
    }

    /// The first waiting text file (in the order in which they started to
    /// wait) whose media are all settled.
    pub fn ready_text(&self) -> (key: Option<(NodeId, String)>)
        requires
            self.wf(),
        ensures
            key is None ==> forall|j: int|
                0 <= j < self.text_media().len_spec() ==> !#[trigger] self.text_ready(
                    strings_view(self.text_media().value_at(j)@),
                ),
            key matches Some(k) ==> exists|j: int|
                0 <= j < self.text_media().len_spec() && #[trigger] self.text_media().key_at(j) == k@
                    && self.text_ready(strings_view(self.text_media().value_at(j)@)) && forall|q: int|
                    0 <= q < j ==> !#[trigger] self.text_ready(strings_view(self.text_media().value_at(q)@)),
    {
        let ghost tm = self.text_media();
        let mut j: usize = 0;
        while j < self.text_media_map.len()
            invariant
                self.wf(),
                tm == self.text_media(),
                j <= tm.len_spec(),
                forall|q: int| 0 <= q < j ==> !#[trigger] self.text_ready(strings_view(tm.value_at(q)@)),
            decreases tm.len_spec() - j,
        {
            if self.all_settled(self.text_media_map.value(j)) {
                let k = self.text_media_map.key(j);
                let key = (k.0, k.1.clone());
                assert(key@ == tm.key_at(j as int));
                return Some(key);
            }
            j += 1;
        }
        None
    }

    /// Hands the waiting text file `key` to the controller together with
    /// its media: the text file and each media leave the stored files (a
    /// missing media is sent empty), each media leaves the media sources,
    /// and the text file stops waiting.
    pub fn send_text_and_media_back(&mut self, key: &(NodeId, String)) -> (r: SendBack)
        requires
            old(self).wf(),
        ensures
            final(self).wf(),
            !old(self).text_media()@.contains_key(key@) ==> r is NotWaiting && *final(self) == *old(self),
            old(self).text_media()@.contains_key(key@) && !old(self).stored()@.contains_key(key.1@) ==> r is MissingText
                && *final(self) == *old(self),
            old(self).text_media()@.contains_key(key@) && old(self).stored()@.contains_key(key.1@) ==> {
                let list = old(self).text_media_view()[key@];
                let stored1 = old(self).stored_view().remove(key.1@);
                let (stored2, sources2, files) = collect_media(stored1, old(self).sources_view(), list);
                &&& final(self).text_media_view() == old(self).text_media_view().remove(key@)
                &&& final(self).stored_view() == stored2
                &&& final(self).sources_view() == sources2
                &&& r matches SendBack::Ready(ClientEvent::FileFromClient(resp, s))
                &&& s == key.0
                &&& resp.html_file.0@ == filename_of(key.1@)
                &&& resp.html_file.1@ == old(self).stored_view()[key.1@]
                &&& files_view(resp.media_files@) == files
                &&& list.no_duplicates() && !list.contains(key.1@) ==> {
                    &&& resp.media_files@.len() == list.len()
                    &&& forall|i: int|
                        0 <= i < list.len() ==> #[trigger] files_view(resp.media_files@)[i] == (
                            filename_of(list[i]),
                            if old(self).stored_view().contains_key(list[i]) {
                                old(self).stored_view()[list[i]]
                            } else {
                                Seq::<u8>::empty()
                            },
                        )
                    &&& forall|m: Seq<char>|
                        #[trigger] final(self).stored_view().contains_key(m) == (old(self).stored_view().contains_key(m)
                            && m != key.1@ && !list.contains(m))
                    &&& forall|m: Seq<char>|
                        #[trigger] final(self).stored_view().contains_key(m) ==> final(self).stored_view()[m]
                            == old(self).stored_view()[m]
                    &&& forall|m: Seq<char>|
                        #[trigger] final(self).sources_view().contains_key(m) == (old(self).sources_view().contains_key(m)
                            && !list.contains(m))
                    &&& forall|m: Seq<char>|
                        #[trigger] final(self).sources_view().contains_key(m) ==> final(self).sources_view()[m]
                            == old(self).sources_view()[m]
                }
                &&& WebBrowser::frame_requests(final(self), old(self))
                &&& WebBrowser::frame_nodes(final(self), old(self))
                &&& WebBrowser::frame_routes(final(self), old(self))
            },
    {
        if !self.text_media_map.contains_key(key) {
            return SendBack::NotWaiting;
        }
        if !self.stored_files.contains_key(&key.1) {
            return SendBack::MissingText;
        }
        let ghost old_tm = self.text_media()@;
        let media_list = match self.text_media_map.remove(key) {
            Some(l) => l,
            None => {
                return SendBack::NotWaiting;
            },
        };
        proof {
            lemma_map_values_remove(old_tm, key@, |v: Vec<String>| strings_view(v@));
        }
        let ghost old_stored = self.stored()@;
        let html_content = match self.stored_files.remove(&key.1) {
            Some(c) => c,
            None => {
                return SendBack::MissingText;
            },
        };
        proof {
            lemma_map_values_remove(old_stored, key.1@, |v: Vec<u8>| v@);
        }
        let html_file = (get_filename_from_path(key.1.as_str()), html_content);
        let ghost list = strings_view(media_list@);
        let ghost stored1 = self.stored_view();
        let ghost src0 = self.sources_view();
        let mut media_files: Vec<(String, Vec<u8>)> = Vec::new();
        let mut k: usize = 0;
        assert(list.take(0) =~= Seq::<Seq<char>>::empty());
        assert(files_view(media_files@) =~= Seq::<(Seq<char>, Seq<u8>)>::empty());
        while k < media_list.len()
            invariant
                self.wf(),
                k <= media_list@.len(),
                list == strings_view(media_list@),
                (self.stored_view(), self.sources_view(), files_view(media_files@)) == collect_media(
                    stored1,
                    src0,
                    list.take(k as int),
                ),
                self.text_media_view() == old(self).text_media_view().remove(key@),
                WebBrowser::frame_requests(self, old(self)),
                WebBrowser::frame_nodes(self, old(self)),
                WebBrowser::frame_routes(self, old(self)),
            decreases media_list@.len() - k,
        {
            let media_full_name = &media_list[k];
            proof {
                assert(list.take(k + 1).drop_last() =~= list.take(k as int));
                assert(list.take(k + 1).last() == media_full_name@);
            }
            let ghost st = self.stored()@;
            let ghost before = media_files@;
            let content = match self.stored_files.remove(media_full_name) {
                Some(c) => c,
                None => Vec::new(),
            };
            proof {
                lemma_map_values_remove(st, media_full_name@, |v: Vec<u8>| v@);
            }
            let name = get_filename_from_path(media_full_name.as_str());
            media_files.push((name, content));
            proof {
                assert(files_view(media_files@) =~= files_view(before).push((name@, content@)));
            }
            let ghost sr = self.sources()@;
            let _ = self.media_sources.remove(media_full_name);
            proof {
                lemma_map_values_remove(sr, media_full_name@, |v: MediaSource| v@);
            }
            k += 1;
        }
        assert(list.take(list.len() as int) =~= list);
        proof {
            if list.no_duplicates() && !list.contains(key.1@) {
                lemma_collect_media(stored1, src0, list);
                let old_stored = old(self).stored_view();
                let (st2, so2, fl) = collect_media(stored1, src0, list);
                assert(self.stored_view() == st2);
                assert(self.sources_view() == so2);
                assert(stored1 == old_stored.remove(key.1@));
                assert(files_view(media_files@).len() == media_list@.len());
                assert forall|i: int| 0 <= i < list.len() implies #[trigger] files_view(media_files@)[i] == (
                    filename_of(list[i]),
                    if old_stored.contains_key(list[i]) {
                        old_stored[list[i]]
                    } else {
                        Seq::<u8>::empty()
                    },
                ) by {
                    assert(list[i] != key.1@);
                }
                assert forall|m: Seq<char>| #[trigger] self.stored_view().contains_key(m) == (old_stored.contains_key(m)
                    && m != key.1@ && !list.contains(m)) by {
                    assert(st2.contains_key(m) == (stored1.contains_key(m) && !list.contains(m)));
                    assert(stored1.contains_key(m) == (old_stored.contains_key(m) && m != key.1@));
                }
                assert forall|m: Seq<char>| #[trigger] self.stored_view().contains_key(m) implies self.stored_view()[m]
                    == old_stored[m] by {
                    assert(st2[m] == stored1[m]);
                    assert(stored1[m] == old_stored[m]);
                }
                assert forall|m: Seq<char>| #[trigger] self.sources_view().contains_key(m) == (src0.contains_key(m)
                    && !list.contains(m)) by {
                    assert(so2.contains_key(m) == (src0.contains_key(m) && !list.contains(m)));
                }
                assert forall|m: Seq<char>| #[trigger] self.sources_view().contains_key(m) implies self.sources_view()[m]
                    == src0[m] by {
                    assert(so2[m] == src0[m]);
                }
            }
        }
        SendBack::Ready(
            ClientEvent::FileFromClient(TextMediaResponse { html_file, media_files }, key.0),
        )
    }
}

/// How a request is to be made.
#[derive(Debug)]
pub enum RequestPlan {
    /// The server is not of the kind the request needs: this is to be
    /// reported to the controller as unsupported.
    Unsupported,
    /// The message is to be serialized and split into fragments, and a
    /// request made with them to each of `servers`, in order.
    Send { message: RequestMessage, servers: Vec<NodeId> },
}

/// The fragments that a new request waits to see acknowledged: fragment `i`
/// under the identifier `i` packets after `start`.
pub open spec fn waiting_map(start: PacketId, frags: Seq<Fragment>) -> Map<PacketId, Fragment>
    decreases frags.len(),
{
    if frags.len() == 0 {
        Map::empty()
    } else {
        waiting_map(start, frags.drop_last()).insert(start.advanced(frags.len() - 1), frags.last())
    }
}

/// A message from `source` with the given compression and content kind.
pub open spec fn is_message(
    m: RequestMessage,
    source: NodeId,
    compression: Compression,
    content: RequestContent,
) -> bool {
    &&& m.source_id == source
    &&& m.compression == compression
    &&& match (m.content, content) {
        (RequestContent::TextList, RequestContent::TextList) => true,
        (RequestContent::MediaList, RequestContent::MediaList) => true,
        (RequestContent::ServersType, RequestContent::ServersType) => true,
        (RequestContent::Text(a), RequestContent::Text(b)) => a@ == b@,
        (RequestContent::Media(a), RequestContent::Media(b)) => a@ == b@,
        _ => false,
    }
}

impl WebBrowser {
    /// Decides how to make a request: a list of text files, or a text file,
    /// from a known text server; a list of media files, or a media file,
    /// from a known media server; the kind of every server of unknown kind.
    /// A text file is asked LZW-compressed, everything else uncompressed.
    pub fn create_request(&self, request_type: &RequestType) -> (plan: RequestPlan)
        requires
            self.wf(),
        ensures
            ({
                let text_ok = |s: NodeId| self.nodes()@.contains_key(s) && self.nodes()@[s] == GraphNodeType::TextServer;
                let media_ok = |s: NodeId| self.nodes()@.contains_key(s) && self.nodes()@[s] == GraphNodeType::MediaServer;
                match *request_type {
                    RequestType::TextList(s) => if text_ok(s) {
                        plan matches RequestPlan::Send { message, servers } && servers@ == seq![s] && is_message(
                            message,
                            self.id(),
                            Compression::NoCompression,
                            RequestContent::TextList,
                        )
                    } else {
                        plan is Unsupported
                    },
                    RequestType::MediaList(s) => if media_ok(s) {
                        plan matches RequestPlan::Send { message, servers } && servers@ == seq![s] && is_message(
                            message,
                            self.id(),
                            Compression::NoCompression,
                            RequestContent::MediaList,
                        )
                    } else {
                        plan is Unsupported
                    },
                    RequestType::ServersType => plan matches RequestPlan::Send { message, servers } && servers@
                        == ids_of_kind(self.nodes().entries(), GraphNodeType::Server) && is_message(
                        message,
                        self.id(),
                        Compression::NoCompression,
                        RequestContent::ServersType,
                    ),
                    RequestType::Media(path, s) => if media_ok(s) {
                        plan matches RequestPlan::Send { message, servers } && servers@ == seq![s] && is_message(
                            message,
                            self.id(),
                            Compression::NoCompression,
                            RequestContent::Media(path),
                        )
                    } else {
                        plan is Unsupported
                    },
                    RequestType::Text(path, s) => if text_ok(s) {
                        plan matches RequestPlan::Send { message, servers } && servers@ == seq![s] && is_message(
                            message,
                            self.id(),
                            Compression::LZW,
                            RequestContent::Text(path),
                        )
                    } else {
                        plan is Unsupported
                    },
                }
            }),
    {
        match request_type {
            RequestType::TextList(server_id) => {
                if !self.is_correct_server_type(*server_id, &GraphNodeType::TextServer) {
                    return RequestPlan::Unsupported;
                }
                RequestPlan::Send {
                    message: RequestMessage {
                        source_id: self.id,
                        compression: Compression::NoCompression,
                        content: RequestContent::TextList,
                    },
                    servers: vec![*server_id],
                }
            },
            RequestType::MediaList(server_id) => {
                if !self.is_correct_server_type(*server_id, &GraphNodeType::MediaServer) {
                    return RequestPlan::Unsupported;
                }
                RequestPlan::Send {
                    message: RequestMessage {
                        source_id: self.id,
                        compression: Compression::NoCompression,
                        content: RequestContent::MediaList,
                    },
                    servers: vec![*server_id],
                }
            },
            RequestType::ServersType => {
                RequestPlan::Send {
                    message: RequestMessage {
                        source_id: self.id,
                        compression: Compression::NoCompression,
                        content: RequestContent::ServersType,
                    },
                    servers: self.ids_of_kind(GraphNodeType::Server),
                }
            },
            RequestType::Media(file_path, server_id) => {
                if !self.is_correct_server_type(*server_id, &GraphNodeType::MediaServer) {
                    return RequestPlan::Unsupported;
                }
                RequestPlan::Send {
                    message: RequestMessage {
                        source_id: self.id,
                        compression: Compression::NoCompression,
                        content: RequestContent::Media(file_path.clone()),
                    },
                    servers: vec![*server_id],
                }
            },
            RequestType::Text(file_path, server_id) => {
                if !self.is_correct_server_type(*server_id, &GraphNodeType::TextServer) {
                    return RequestPlan::Unsupported;
                }
                RequestPlan::Send {
                    message: RequestMessage {
                        source_id: self.id,
                        compression: Compression::LZW,
                        content: RequestContent::Text(file_path.clone()),
                    },
                    servers: vec![*server_id],
                }
            },
        }
    }

    /// Adds a request to `server_id` made of the fragments `frags`. Fragment
    /// `i` gets the identifier `i` packets after the current one and waits
    /// for its acknowledgement; the request gets the current request id,
    /// after which the identifier counter moves to the next request. The
    /// fragments are returned with their identifiers, in order, to be sent:
    /// each one sent is to have its route recorded, each one that cannot be
    /// sent is to be queued for later with a flood started.
    pub fn add_request(
        &mut self,
        server_id: NodeId,
        compression: Compression,
        frags: &Vec<Fragment>,
        request_type: RequestType,
    ) -> (sends: Vec<(PacketId, Fragment)>)
        requires
            old(self).wf(),
        ensures
            final(self).wf(),
            ({
                let c = old(self).counter();
                let req = final(self).pending().last();
                &&& sends@.len() == frags@.len()
                &&& forall|i: int| 0 <= i < frags@.len() ==> #[trigger] sends@[i] == (c.advanced(i), frags@[i])
                &&& final(self).pending() == old(self).pending().push(req)
                &&& req.request_id == c.request()
                &&& req.server_id == server_id
                &&& req.waiting_for_ack@ == waiting_map(c, frags@)
                &&& frags@.len() <= 0x1_0000_0000_0000 ==> {
                    &&& forall|i: int|
                        0 <= i < frags@.len() ==> #[trigger] req.waiting_for_ack@.contains_key(sends@[i].0)
                            && req.waiting_for_ack@[sends@[i].0] == frags@[i]
                    &&& forall|k: PacketId|
                        #[trigger] req.waiting_for_ack@.contains_key(k) ==> exists|i: int|
                            0 <= i < frags@.len() && k == (#[trigger] sends@[i]).0
                }
                &&& req.incoming_messages@ == Seq::<Fragment>::empty()
                &&& req.compression == compression
                &&& req.request_type == request_type
                &&& !req.response_is_complete
                &&& final(self).counter() == PacketId::spec_with(0, ((c.request() + 1) % 0x1_0000) as u16)
                &&& final(self).resend_queue() == old(self).resend_queue()
                &&& WebBrowser::frame_nodes(final(self), old(self))
                &&& WebBrowser::frame_files(final(self), old(self))
                &&& WebBrowser::frame_routes(final(self), old(self))
            }),
    {
        let ghost c = self.counter();
        let request_id = self.packet_id_counter.get_request_id();
        let mut waiting: AssocMap<PacketId, Fragment> = AssocMap::new();
        let mut sends: Vec<(PacketId, Fragment)> = Vec::new();
        let mut i: usize = 0;
        assert(frags@.take(0) =~= Seq::<Fragment>::empty());
        proof {
            PacketId::lemma_with(((c.packet() + 0) % 0x1_0000_0000_0000int) as u64, c.request());
            PacketId::lemma_ext_equal(c, c.advanced(0));
        }
        while i < frags.len()
            invariant
                i <= frags@.len(),
                waiting.wf(),
                self.wf(),
                self.counter() == c.advanced(i as int),
                waiting@ == waiting_map(c, frags@.take(i as int)),
                sends@.len() == i,
                forall|q: int| 0 <= q < i ==> #[trigger] sends@[q] == (c.advanced(q), frags@[q]),
                c.wf(),
                self.pending() == old(self).pending(),
                self.resend_queue() == old(self).resend_queue(),
                WebBrowser::frame_nodes(self, old(self)),
                WebBrowser::frame_files(self, old(self)),
                WebBrowser::frame_routes(self, old(self)),
            decreases frags@.len() - i,
        {
            let id = self.packet_id_counter;
            let f = frags[i];
            waiting.insert(id, f);
            sends.push((id, f));
            proof {
                assert(frags@.take(i + 1).drop_last() =~= frags@.take(i as int));
                assert(frags@.take(i + 1).last() == f);
            }
            self.packet_id_counter.increment_packet_id();
            proof {
                let p = c.packet() as int;
                let m = 0x1_0000_0000_0000int;
                PacketId::lemma_with(((p + i) % m) as u64, c.request());
                PacketId::lemma_with(((p + i + 1) % m) as u64, c.request());
                vstd::arithmetic::div_mod::lemma_add_mod_noop(p + i, 1, m);
                PacketId::lemma_ext_equal(self.counter(), c.advanced(i + 1));
            }
            i += 1;
        }
        assert(frags@.take(frags@.len() as int) =~= frags@);
        proof {
            PacketId::lemma_with(((c.packet() + frags@.len()) % 0x1_0000_0000_0000int) as u64, c.request());
        }
        proof {
            if frags@.len() <= 0x1_0000_0000_0000 {
                lemma_waiting_map(c, frags@);
                assert forall|k: PacketId| #[trigger] waiting@.contains_key(k) implies exists|q: int|
                    0 <= q < frags@.len() && k == (#[trigger] sends@[q]).0 by {
                    let q = choose|q: int| 0 <= q < frags@.len() && k == #[trigger] c.advanced(q);
                    assert(sends@[q].0 == c.advanced(q));
                }
            }
        }
        let new_request = WebBrowserRequest::new(request_id, server_id, waiting, compression, request_type);
        self.pending_requests.push(new_request);
        self.packet_id_counter.increment_request_id();
        proof {
            PacketId::lemma_with(0, ((c.request() + 1) % 0x1_0000) as u16);
            PacketId::lemma_ext_equal(self.counter(), PacketId::spec_with(0, ((c.request() + 1) % 0x1_0000) as u16));
            assert forall|j: int| 0 <= j < self.pending_requests@.len() implies #[trigger] self.pending_requests@[j].wf() by {
                if j < old(self).pending_requests@.len() {
                    assert(self.pending_requests@[j] == old(self).pending_requests@[j]);
                }
            }
        }
        sends
    }
}

impl WebBrowser {
    /// The known kind of node `n`.
    pub fn node_type(&self, n: NodeId) -> (t: Option<GraphNodeType>)
        requires
            self.wf(),
        ensures
            t == if self.nodes()@.contains_key(n) {
                Some(self.nodes()@[n])
            } else {
                None
            },
    {
        match self.nodes_type.get(&n) {
            Some(t) => Some(*t),
            None => None,
        }
    }

    /// The pending requests, oldest first.
    pub fn pending_requests(&self) -> (r: &Vec<WebBrowserRequest>)
        ensures
            r@ == self.pending(),
    {
        &self.pending_requests
    }

    /// The identifier that the next outgoing fragment gets.
    pub fn packet_id_counter(&self) -> (c: PacketId)
        ensures
            c == self.counter(),
    {
        self.packet_id_counter
    }

    /// The id of the latest flood.
    pub fn sequential_flood_id(&self) -> (f: u64)
        ensures
            f == self.flood_id(),
    {
        self.sequential_flood_id
    }

    /// The stored file at `path`.
    pub fn stored_file(&self, path: &String) -> (f: Option<&Vec<u8>>)
        requires
            self.wf(),
        ensures
            f is Some <==> self.stored()@.contains_key(path@),
            f matches Some(v) ==> *v == self.stored()@[path@],
    {
        self.stored_files.get(path)
    }

    /// The media that the text file `key` waits for.
    pub fn needed_media(&self, key: &(NodeId, String)) -> (m: Option<&Vec<String>>)
        requires
            self.wf(),
        ensures
            m is Some <==> self.text_media()@.contains_key(key@),
            m matches Some(v) ==> *v == self.text_media()@[key@],
    {
        self.text_media_map.get(key)
    }

    /// Where the media file `path` can be had.
    pub fn media_source(&self, path: &String) -> (m: Option<&MediaSource>)
        requires
            self.wf(),
        ensures
            m is Some <==> self.sources()@.contains_key(path@),
            m matches Some(v) ==> *v == self.sources()@[path@],
    {
        self.media_sources.get(path)
    }

    /// The recorded route of the fragment `id`.
    pub fn route_of(&self, id: &PacketId) -> (r: Option<&SourceRoutingHeader>)
        requires
            self.wf(),
        ensures
            r is Some <==> self.routes()@.contains_key(*id),
            r matches Some(h) ==> *h == self.routes()@[*id],
    {
        self.routing_header_history.get(id)
    }

    /// The fragments waiting to be sent again, first to go first.
    pub fn packets_to_be_sent_again(&self) -> (q: &VecDeque<(PacketId, Fragment)>)
        ensures
            q@ == self.resend_queue(),
    {
        &self.packets_to_be_sent_again
    }
}

/// What a flood response `resp`, in `packet`, does, from `old` to `new`,
/// with the outcome `outcome`: an empty path trace, or an answer to an
/// older flood of this client, is dropped; an answer to its latest flood
/// teaches the edges and node kinds of the trace (and drone counters); a
/// response of another node is to be forwarded to the next hop.
pub open spec fn flood_response_applied(
    old: &WebBrowser,
    new: &WebBrowser,
    packet: Packet,
    resp: FloodResponse,
    outcome: FloodResponseOutcome,
) -> bool {
    &&& resp.path_trace@.len() == 0 ==> outcome is EmptyPathTrace && *new == *old
    &&& resp.path_trace@.len() > 0 && resp.path_trace@[0].0 == old.id() && resp.flood_id != old.flood_id()
        ==> outcome is WrongFloodId && *new == *old
    &&& resp.path_trace@.len() > 0 && resp.path_trace@[0].0 == old.id() && resp.flood_id == old.flood_id() ==> {
        &&& outcome matches FloodResponseOutcome::Learned(edges)
        &&& edges@ == path_edges(old.id(), resp.path_trace@)
        &&& forall|i: int| 0 <= i < edges@.len() ==> joins_trace_neighbours(resp.path_trace@, #[trigger] edges@[i])
        &&& (new.nodes()@, new.counters()@) == learn_path(old.nodes()@, old.counters()@, resp.path_trace@)
        &&& WebBrowser::frame_requests(new, old)
        &&& WebBrowser::frame_files(new, old)
        &&& WebBrowser::frame_routes(new, old)
    }
    &&& resp.path_trace@.len() > 0 && resp.path_trace@[0].0 != old.id() ==> {
        &&& *new == *old
        &&& outcome == match packet.routing_header.spec_next_hop() {
            Some(h) => FloodResponseOutcome::Forward(h),
            None => FloodResponseOutcome::NoNextHop,
        }
    }
}

/// What an acknowledgement `packet` does, from `old` to `new`, with the
/// outcome `outcome`: a packet for another node is to be shortcut; one for no
/// pending request, or for a fragment that waits for no acknowledgement, is
/// dropped; otherwise the fragment stops waiting, its route is forgotten,
/// and the drones on that route count one more packet.
pub open spec fn ack_applied(old: &WebBrowser, new: &WebBrowser, packet: Packet, outcome: AckOutcome) -> bool {
    let req_id = (packet.session_id % 0x1_0000) as u16;
    let pid = session_packet_id(packet.session_id);
    let found = first_request_with(old.pending(), req_id);
    let i = found->0 as int;
    if packet.routing_header.spec_destination() != Some(old.id()) {
        outcome is Shortcut && *new == *old
    } else if found is None {
        outcome is UnknownRequest && *new == *old
    } else if !old.pending()[i].waiting_for_ack@.contains_key(pid) {
        outcome is AlreadyAcknowledged && *new == *old
    } else {
        &&& outcome matches AckOutcome::Acknowledged(refresh)
        &&& new.pending() == old.pending().update(i, new.pending()[i])
        &&& same_but_waiting(old.pending()[i], new.pending()[i])
        &&& new.pending()[i].waiting_for_ack@ == old.pending()[i].waiting_for_ack@.remove(pid)
        &&& new.counter() == old.counter()
        &&& new.resend_queue() == old.resend_queue()
        &&& new.nodes() == old.nodes()
        &&& WebBrowser::frame_files(new, old)
        &&& new.id() == old.id()
        &&& new.flood_id() == old.flood_id()
        &&& new.routes()@ == old.routes()@.remove(pid)
        &&& if old.routes()@.contains_key(pid) {
            &&& refresh@ == old.routes()@[pid].hops@
            &&& new.counters()@ == count_sent_all(old.counters()@, old.routes()@[pid].hops@)
        } else {
            &&& refresh@ == Seq::<NodeId>::empty()
            &&& new.counters() == old.counters()
        }
    }
}

/// What a fragment `fragment` of a response, in `packet`, does, from `old`
/// to `new`, with the outcome `outcome`: a packet for another node is to be
/// shortcut; one for no pending request, or a fragment whose index was
/// already received, is dropped; otherwise the fragment is stored, the
/// response is complete once all its fragments are there, and an
/// acknowledgement is to be sent to the request's server.
pub open spec fn fragment_applied(
    old: &WebBrowser,
    new: &WebBrowser,
    packet: Packet,
    fragment: Fragment,
    outcome: FragmentOutcome,
) -> bool {
    let req_id = (packet.session_id % 0x1_0000) as u16;
    let found = first_request_with(old.pending(), req_id);
    let i = found->0 as int;
    let req = old.pending()[i];
    if packet.routing_header.spec_destination() != Some(old.id()) {
        outcome is Shortcut && *new == *old
    } else if found is None {
        outcome is UnknownRequest && *new == *old
    } else if exists|k: int|
        0 <= k < req.incoming_messages@.len() && #[trigger] req.incoming_messages@[k].fragment_index
            == fragment.fragment_index {
        outcome is Duplicate && *new == *old
    } else {
        let new_req = new.pending()[i];
        &&& outcome == (FragmentOutcome::SendAck {
            session_id: packet.session_id,
            fragment_index: fragment.fragment_index,
            dest: req.server_id,
        })
        &&& new.pending() == old.pending().update(i, new_req)
        &&& same_but_incoming(req, new_req)
        &&& new_req.incoming_messages@ == req.incoming_messages@.push(fragment)
        &&& new_req.response_is_complete == (req.response_is_complete
            || new_req.incoming_messages@.len() == fragment.total_n_fragments as usize)
        &&& new.counter() == old.counter()
        &&& new.resend_queue() == old.resend_queue()
        &&& WebBrowser::frame_nodes(new, old)
        &&& WebBrowser::frame_files(new, old)
        &&& WebBrowser::frame_routes(new, old)
    }
}

/// What a negative acknowledgement `nack`, in `packet`, does, from `old` to
/// `new`, with the outcome `outcome`: a packet for another node is to be
/// shortcut; one for no pending request, or for a fragment that waits for no
/// acknowledgement, is dropped; otherwise the fragment is to be sent again,
/// its route is forgotten, and, as the kind of the NACK says, the drone that
/// dropped it counts a loss or the node that could not route it is dropped.
pub open spec fn nack_applied(
    old: &WebBrowser,
    new: &WebBrowser,
    packet: Packet,
    nack: Nack,
    outcome: NackOutcome,
) -> bool {
    let req_id = (packet.session_id % 0x1_0000) as u16;
    let pid = session_packet_id(packet.session_id);
    let found = first_request_with(old.pending(), req_id);
    let i = found->0 as int;
    let req = old.pending()[i];
    if packet.routing_header.spec_destination() != Some(old.id()) {
        outcome is Shortcut && *new == *old
    } else if found is None {
        outcome is UnknownRequest && *new == *old
    } else if !req.waiting_for_ack@.contains_key(pid) {
        outcome is UnknownPacket && *new == *old
    } else {
        &&& outcome matches NackOutcome::Resend { packet_id, fragment, dest, refresh, removed_node }
        &&& packet_id == pid
        &&& fragment == req.waiting_for_ack@[pid]
        &&& dest == req.server_id
        &&& WebBrowser::frame_requests(new, old)
        &&& WebBrowser::frame_files(new, old)
        &&& new.id() == old.id()
        &&& new.flood_id() == old.flood_id()
        &&& new.routes()@ == old.routes()@.remove(pid)
        &&& match nack.nack_type {
            NackType::Dropped => {
                &&& removed_node is None
                &&& new.nodes() == old.nodes()
                &&& if old.routes()@.contains_key(pid) && packet.routing_header.spec_source() is Some {
                    let source = packet.routing_header.spec_source()->0;
                    &&& refresh == Some(source)
                    &&& new.counters()@ == counters_after_drop(
                        old.counters()@,
                        old.routes()@[pid].hops@,
                        source,
                    )
                } else {
                    &&& refresh is None
                    &&& new.counters() == old.counters()
                }
            },
            NackType::DestinationIsDrone => {
                &&& refresh is None
                &&& removed_node is None
                &&& WebBrowser::frame_nodes(new, old)
            },
            NackType::ErrorInRouting(n) | NackType::UnexpectedRecipient(n) => {
                let removable = !old.nodes()@.contains_key(n) || old.nodes()@[n]
                    == GraphNodeType::Drone;
                &&& refresh is None
                &&& removed_node == (if removable {
                    Some(n)
                } else {
                    None
                })
                &&& new.nodes() == old.nodes()
                &&& removable ==> new.counters()@ == old.counters()@.remove(n)
                &&& !removable ==> new.counters() == old.counters()
            },
        }
    }
}

/// What a packet does, from `old` to `new`, with the action `action`,
/// according to what it carries; a flood request is left to the flooding
/// protocol.
pub open spec fn packet_applied(old: &WebBrowser, new: &WebBrowser, packet: Packet, action: PacketAction) -> bool {
    match packet.pack_type {
        PacketType::FloodRequest(_) => action is FloodRequest && *new == *old,
        PacketType::FloodResponse(resp) => action matches PacketAction::FloodResponse(o) && flood_response_applied(
            old,
            new,
            packet,
            resp,
            o,
        ),
        PacketType::Ack(_) => action matches PacketAction::Ack(o) && ack_applied(old, new, packet, o),
        PacketType::Nack(nack) => action matches PacketAction::Nack(o) && nack_applied(old, new, packet, nack, o),
        PacketType::MsgFragment(f) => action matches PacketAction::Fragment(o) && fragment_applied(
            old,
            new,
            packet,
            f,
            o,
        ),
    }
}

/// What a generic answer `resp` from `server_id` does, from `old` to `new`,
/// with the reported `event`: a server's kind is recorded (for a known
/// node), and once no server of unknown kind is left the kinds of all known
/// servers are reported; a refused request or a missing file is reported as
/// unsupported.
pub open spec fn generic_response_applied(
    old: &WebBrowser,
    new: &WebBrowser,
    server_id: NodeId,
    resp: GenericResponse,
    event: Option<ClientEvent>,
) -> bool {
    match resp {
        GenericResponse::Type(st) => {
            &&& new.nodes()@ == if old.nodes()@.contains_key(server_id) {
                old.nodes()@.insert(server_id, graph_type_of_server(st))
            } else {
                old.nodes()@
            }
            &&& new.nodes().key_seq() == old.nodes().key_seq()
            &&& new.counters() == old.counters()
            &&& WebBrowser::frame_requests(new, old)
            &&& WebBrowser::frame_files(new, old)
            &&& WebBrowser::frame_routes(new, old)
            &&& if exists|k: NodeId| #[trigger] new.nodes()@.contains_key(k) && new.nodes()@[k]
                == GraphNodeType::Server {
                event is None
            } else {
                &&& event matches Some(ClientEvent::ServersTypes(list))
                &&& list@ == typed_servers(new.nodes().entries())
                &&& forall|i: int|
                    0 <= i < list@.len() ==> #[trigger] new.nodes()@.contains_key(list@[i].0)
                        && new.nodes()@[list@[i].0] == graph_type_of_server(list@[i].1)
            }
        },
        _ => event matches Some(ClientEvent::UnsupportedRequest) && *new == *old,
    }
}

/// What a text server's answer `resp` (from `server_id`, to a request of
/// type `request_type`) does, from `old` to `new`, with the outcome
/// `outcome`: a list of files is reported; a text file is handled as
/// `text_file_received` says.
pub open spec fn text_response_applied(
    old: &WebBrowser,
    new: &WebBrowser,
    server_id: NodeId,
    request_type: RequestType,
    resp: TextResponse,
    outcome: TextOutcome,
) -> bool {
    match resp {
        TextResponse::TextList(v) => outcome == TextOutcome::Event(ClientEvent::ListOfFiles(v, server_id))
            && *new == *old,
        TextResponse::Text(file) => match request_type {
            RequestType::Text(path, _) => text_file_received(old, new, server_id, path, file, outcome),
            _ => outcome is Dropped && *new == *old,
        },
    }
}

/// What a media server's answer `resp` (from `server_id`, to a request of
/// type `request_type`) does, from `old` to `new`, with the outcome
/// `outcome`: a list of files takes the server off the lists of servers
/// still to answer, and makes it the owner of each listed file that is
/// needed and has no owner yet, which is then to be requested from it; a
/// media file is stored under the requested path.
pub open spec fn media_response_applied(
    old: &WebBrowser,
    new: &WebBrowser,
    server_id: NodeId,
    request_type: RequestType,
    resp: MediaResponse,
    outcome: MediaOutcome,
) -> bool {
    match resp {
        MediaResponse::MediaList(files) => {
            let struck = old.sources_view().map_values(
                |v: MediaSourceView| strike_server(v, server_id),
            );
            let needed = |f: Seq<char>| is_needed(old.text_media_view(), f);
            let (sources, asked) = assign_owners(struck, needed, strings_view(files@), server_id);
            &&& new.sources_view() == sources
            &&& outcome matches MediaOutcome::Owners(list)
            &&& strings_view(list@) == asked
            &&& new.stored() == old.stored()
            &&& new.text_media() == old.text_media()
            &&& WebBrowser::frame_requests(new, old)
            &&& WebBrowser::frame_nodes(new, old)
            &&& WebBrowser::frame_routes(new, old)
        },
        MediaResponse::Media(file) => match request_type {
            RequestType::Media(path, _) => {
                &&& outcome is Stored
                &&& new.stored_view() == old.stored_view().insert(path@, file@)
                &&& new.sources() == old.sources()
                &&& new.text_media() == old.text_media()
                &&& WebBrowser::frame_requests(new, old)
                &&& WebBrowser::frame_nodes(new, old)
                &&& WebBrowser::frame_routes(new, old)
            },
            _ => outcome is Dropped && *new == *old,
        },
    }
}

/// In every state that the client reaches (each operation keeps `wf`,
/// which `new` establishes): no drone has lost more packets than were sent
/// through it, the fragments received for a request have distinct indices,
/// no list of media servers still to answer names a server twice, no table
/// of the client holds a key twice, and so the nodes of one kind, and the
/// servers reported with their kinds, never repeat a node.
pub proof fn lemma_client_invariants(c: &WebBrowser)
    requires
        c.wf(),
    ensures
        counters_consistent(c.counters()@),
        forall|i: int| 0 <= i < c.pending().len() ==> distinct_indices(#[trigger] c.pending()[i].incoming_messages@),
        waiting_lists_distinct(c.sources_view()),
        c.nodes().wf(),
        c.text_media().wf(),
        c.stored().wf(),
        c.sources().wf(),
        c.counters().wf(),
        c.routes().wf(),
        forall|i: int| 0 <= i < c.pending().len() ==> (#[trigger] c.pending()[i]).waiting_for_ack.wf(),
        forall|kind: GraphNodeType| #[trigger] ids_of_kind(c.nodes().entries(), kind).no_duplicates(),
        forall|i: int, j: int|
            0 <= i < typed_servers(c.nodes().entries()).len() && 0 <= j < typed_servers(c.nodes().entries()).len()
                && i != j ==> #[trigger] typed_servers(c.nodes().entries())[i].0 != #[trigger] typed_servers(
                c.nodes().entries(),
            )[j].0,
{
    let es = c.nodes().entries();
    assert forall|i: int, j: int| 0 <= i < es.len() && 0 <= j < es.len() && i != j implies es[i].0 != es[j].0 by {
        assert(c.nodes().key_at(i) != c.nodes().key_at(j));
    }
    assert forall|kind: GraphNodeType| #[trigger] ids_of_kind(es, kind).no_duplicates() by {
        lemma_ids_of_kind_distinct(es, kind);
    }
    lemma_typed_servers_distinct(es);
    assert forall|i: int| 0 <= i < c.pending().len() implies (#[trigger] c.pending()[i]).waiting_for_ack.wf() by {
        assert(c.pending_requests@[i].wf());
    }
    assert forall|i: int| 0 <= i < c.pending().len() implies distinct_indices(
        #[trigger] c.pending()[i].incoming_messages@,
    ) by {
        assert(c.pending_requests@[i].wf());
    }
}

/// Once a media server has listed its files, no media file waits for it
/// any more, and each file that is then to be requested from it names it as
/// the owner.
pub proof fn lemma_media_list_settles_server(
    old: &WebBrowser,
    new: &WebBrowser,
    server_id: NodeId,
    request_type: RequestType,
    files: Vec<String>,
    outcome: MediaOutcome,
)
    requires
        old.wf(),
        media_response_applied(old, new, server_id, request_type, MediaResponse::MediaList(files), outcome),
    ensures
        forall|k: Seq<char>| #[trigger]
            new.sources_view().contains_key(k) ==> !(new.sources_view()[k] matches MediaSourceView::RequestsLeft(
                l,
            ) && l.contains(server_id)),
        outcome matches MediaOutcome::Owners(list) && forall|i: int|
            0 <= i < list@.len() ==> #[trigger] new.sources_view().contains_key(list@[i]@)
                && new.sources_view()[list@[i]@] == MediaSourceView::Owner(Some(server_id)),
{
    let struck = old.sources_view().map_values(|v: MediaSourceView| strike_server(v, server_id));
    let needed = |f: Seq<char>| is_needed(old.text_media_view(), f);
    lemma_assign_owners(struck, needed, strings_view(files@), server_id);
    let (m, asked) = assign_owners(struck, needed, strings_view(files@), server_id);
    assert forall|k: Seq<char>| #[trigger] new.sources_view().contains_key(k) implies !(
    new.sources_view()[k] matches MediaSourceView::RequestsLeft(l) && l.contains(server_id)) by {
        if m[k] != MediaSourceView::Owner(Some(server_id)) {
            assert(struck.contains_key(k));
            assert(old.sources_view().contains_key(k));
            lemma_strike_server_removes(old.sources_view()[k], server_id);
        }
    }
    if let MediaOutcome::Owners(list) = outcome {
        assert forall|i: int| 0 <= i < list@.len() implies #[trigger] new.sources_view().contains_key(list@[i]@)
            && new.sources_view()[list@[i]@] == MediaSourceView::Owner(Some(server_id)) by {
            assert(strings_view(list@)[i] == list@[i]@);
            assert(asked[i] == list@[i]@);
        }
    }
}

/// Removing an element keeps a sequence free of duplicates.
proof fn lemma_remove_distinct(l: Seq<NodeId>, i: int)
    requires
        l.no_duplicates(),
        0 <= i < l.len(),
    ensures
        l.remove(i).no_duplicates(),
{
    let r = l.remove(i);
    assert forall|a: int, b: int| 0 <= a < r.len() && 0 <= b < r.len() && a != b implies r[a] != r[b] by {
        let oa = if a < i { a } else { a + 1 };
        let ob = if b < i { b } else { b + 1 };
        assert(r[a] == l[oa] && r[b] == l[ob]);
    }
}

/// The nodes of kind `kind` in a table without repeated nodes are distinct,
/// and each is a node of the table.
proof fn lemma_ids_of_kind_distinct(es: Seq<(NodeId, GraphNodeType)>, kind: GraphNodeType)
    requires
        forall|i: int, j: int| 0 <= i < es.len() && 0 <= j < es.len() && i != j ==> es[i].0 != es[j].0,
    ensures
        ids_of_kind(es, kind).no_duplicates(),
        forall|x: NodeId| ids_of_kind(es, kind).contains(x) ==> exists|q: int| 0 <= q < es.len() && es[q].0 == x,
    decreases es.len(),
{
    if es.len() > 0 {
        let init = es.drop_last();
        lemma_ids_of_kind_distinct(init, kind);
        let rest = ids_of_kind(init, kind);
        if es.last().1 == kind {
            let r = rest.push(es.last().0);
            assert forall|a: int, b: int| 0 <= a < r.len() && 0 <= b < r.len() && a != b implies r[a] != r[b] by {
                if a < rest.len() && b < rest.len() {
                } else if a < rest.len() {
                    assert(rest.contains(r[a]));
                    let q = choose|q: int| 0 <= q < init.len() && init[q].0 == r[a];
                    assert(es[q].0 == r[a]);
                } else {
                    assert(rest.contains(r[b]));
                    let q = choose|q: int| 0 <= q < init.len() && init[q].0 == r[b];
                    assert(es[q].0 == r[b]);
                }
            }
            assert forall|x: NodeId| r.contains(x) implies exists|q: int| 0 <= q < es.len() && es[q].0 == x by {
                let p = choose|p: int| 0 <= p < r.len() && r[p] == x;
                if p < rest.len() {
                    assert(rest.contains(x));
                    let q = choose|q: int| 0 <= q < init.len() && init[q].0 == x;
                    assert(es[q].0 == x);
                } else {
                    assert(es[es.len() - 1].0 == x);
                }
            }
        } else {
            assert forall|x: NodeId| rest.contains(x) implies exists|q: int| 0 <= q < es.len() && es[q].0 == x by {
                let q = choose|q: int| 0 <= q < init.len() && init[q].0 == x;
                assert(es[q].0 == x);
            }
        }
    }
}

/// The servers listed from a table without repeated nodes are distinct,
/// and each is a node of the table.
proof fn lemma_typed_servers_distinct(es: Seq<(NodeId, GraphNodeType)>)
    requires
        forall|i: int, j: int| 0 <= i < es.len() && 0 <= j < es.len() && i != j ==> es[i].0 != es[j].0,
    ensures
        forall|a: int, b: int|
            0 <= a < typed_servers(es).len() && 0 <= b < typed_servers(es).len() && a != b
                ==> #[trigger] typed_servers(es)[a].0 != #[trigger] typed_servers(es)[b].0,
        forall|a: int| 0 <= a < typed_servers(es).len() ==> exists|q: int| 0 <= q < es.len() && es[q].0 == #[trigger] typed_servers(es)[a].0,
    decreases es.len(),
{
    if es.len() > 0 {
        let init = es.drop_last();
        lemma_typed_servers_distinct(init);
        let rest = typed_servers(init);
        let r = typed_servers(es);
        if r.len() > rest.len() {
            assert(r == rest.push(r.last()));
            assert(r.last().0 == es.last().0);
            assert forall|a: int| 0 <= a < r.len() implies exists|q: int| 0 <= q < es.len() && es[q].0 == #[trigger] r[a].0 by {
                if a < rest.len() {
                    assert(r[a] == rest[a]);
                    let q = choose|q: int| 0 <= q < init.len() && init[q].0 == rest[a].0;
                    assert(es[q].0 == r[a].0);
                } else {
                    assert(es[es.len() - 1].0 == r[a].0);
                }
            }
            assert forall|a: int, b: int| 0 <= a < r.len() && 0 <= b < r.len() && a != b implies #[trigger] r[a].0
                != #[trigger] r[b].0 by {
                if a < rest.len() && b < rest.len() {
                    assert(r[a] == rest[a] && r[b] == rest[b]);
                } else if a < rest.len() {
                    assert(r[a] == rest[a]);
                    let q = choose|q: int| 0 <= q < init.len() && init[q].0 == rest[a].0;
                    assert(es[q].0 == r[a].0);
                } else {
                    assert(r[b] == rest[b]);
                    let q = choose|q: int| 0 <= q < init.len() && init[q].0 == rest[b].0;
                    assert(es[q].0 == r[b].0);
                }
            }
        } else {
            assert forall|a: int| 0 <= a < r.len() implies exists|q: int| 0 <= q < es.len() && es[q].0 == #[trigger] r[a].0 by {
                let q = choose|q: int| 0 <= q < init.len() && init[q].0 == rest[a].0;
                assert(es[q].0 == r[a].0);
            }
        }
    }
}

/// No drone has lost more packets than were sent through it.
pub open spec fn counters_consistent(counters: Map<NodeId, Counter>) -> bool {
    forall|k: NodeId| #[trigger] counters.contains_key(k) ==> counters[k].1 <= counters[k].0
}

/// No list of media servers still to answer names a server twice.
pub open spec fn waiting_lists_distinct(sources: Map<Seq<char>, MediaSourceView>) -> bool {
    forall|k: Seq<char>|
        #[trigger] sources.contains_key(k) ==> (sources[k] matches MediaSourceView::RequestsLeft(l) ==> l.no_duplicates())
}

/// The position of the first request of `reqs` that satisfies `p`.
pub open spec fn first_where(reqs: Seq<WebBrowserRequest>, p: spec_fn(WebBrowserRequest) -> bool) -> Option<
    usize,
> {
    if exists|i: int|
        0 <= i < reqs.len() && #[trigger] p(reqs[i]) && forall|j: int| 0 <= j < i ==> !#[trigger] p(reqs[j]) {
        Some(
            (choose|i: int|
                0 <= i < reqs.len() && #[trigger] p(reqs[i]) && forall|j: int|
                    0 <= j < i ==> !#[trigger] p(reqs[j])) as usize,
        )
    } else {
        None
    }
}

pub proof fn lemma_first_where(reqs: Seq<WebBrowserRequest>, p: spec_fn(WebBrowserRequest) -> bool, i: int)
    requires
        0 <= i <= reqs.len(),
        forall|j: int| 0 <= j < i ==> !#[trigger] p(reqs[j]),
        i == reqs.len() || p(reqs[i]),
    ensures
        i == reqs.len() ==> first_where(reqs, p) is None,
        i < reqs.len() ==> first_where(reqs, p) == Some(i as usize),
{
    if i < reqs.len() {
        let k = choose|k: int|
            0 <= k < reqs.len() && #[trigger] p(reqs[k]) && forall|j: int| 0 <= j < k ==> !#[trigger] p(reqs[j]);
        assert(p(reqs[i]));
        if k < i {
            assert(!p(reqs[k]));
        }
        if k > i {
            assert(!p(reqs[i]));
        }
    }
}

/// `first_where` finds the first request that satisfies `p`, and finds
/// none only when no request does.
pub proof fn lemma_first_where_found(reqs: Seq<WebBrowserRequest>, p: spec_fn(WebBrowserRequest) -> bool)
    requires
        reqs.len() <= usize::MAX,
    ensures
        first_where(reqs, p) matches Some(i) ==> 0 <= i < reqs.len() && p(reqs[i as int]) && forall|j: int|
            0 <= j < i ==> !p(#[trigger] reqs[j]),
        first_where(reqs, p) is None ==> forall|j: int| 0 <= j < reqs.len() ==> !p(#[trigger] reqs[j]),
{
    if first_where(reqs, p) is None {
        assert forall|j: int| 0 <= j < reqs.len() implies !p(#[trigger] reqs[j]) by {
            if p(reqs[j]) {
                let k = lemma_least_satisfier(reqs, p, j);
                lemma_first_where(reqs, p, k);
            }
        }
    } else {
        let i = first_where(reqs, p)->0 as int;
        let k = choose|k: int|
            0 <= k < reqs.len() && #[trigger] p(reqs[k]) && forall|q: int| 0 <= q < k ==> !#[trigger] p(reqs[q]);
        lemma_first_where(reqs, p, k);
    }
}

/// Below a request that satisfies `p` there is a first one that does.
proof fn lemma_least_satisfier(reqs: Seq<WebBrowserRequest>, p: spec_fn(WebBrowserRequest) -> bool, j: int) -> (k: int)
    requires
        0 <= j < reqs.len(),
        p(reqs[j]),
    ensures
        0 <= k <= j,
        p(reqs[k]),
        forall|q: int| 0 <= q < k ==> !p(#[trigger] reqs[q]),
    decreases j,
{
    if exists|q: int| 0 <= q < j && #[trigger] p(reqs[q]) {
        let q = choose|q: int| 0 <= q < j && #[trigger] p(reqs[q]);
        lemma_least_satisfier(reqs, p, q)
    } else {
        j
    }
}

/// A request is taken as completed only when its whole response has
/// arrived and all its own fragments are acknowledged; it is the first such
/// request; and when none is found, no request is in that state.
pub proof fn lemma_first_completed(reqs: Seq<WebBrowserRequest>)
    requires
        reqs.len() <= usize::MAX,
    ensures
        first_completed(reqs) matches Some(i) ==> {
            &&& 0 <= i < reqs.len()
            &&& reqs[i as int].response_is_complete
            &&& reqs[i as int].waiting_for_ack.len_spec() == 0
            &&& forall|j: int|
                0 <= j < i ==> !((#[trigger] reqs[j]).response_is_complete && reqs[j].waiting_for_ack.len_spec() == 0)
        },
        first_completed(reqs) is None ==> forall|j: int|
            0 <= j < reqs.len() ==> !((#[trigger] reqs[j]).response_is_complete && reqs[j].waiting_for_ack.len_spec()
                == 0),
{
    let p = |r: WebBrowserRequest| r.response_is_complete && r.waiting_for_ack.len_spec() == 0;
    lemma_first_where_found(reqs, p);
    if let Some(i) = first_completed(reqs) {
        assert forall|j: int| 0 <= j < i implies !((#[trigger] reqs[j]).response_is_complete
            && reqs[j].waiting_for_ack.len_spec() == 0) by {
            assert(!p(reqs[j]));
        }
    } else {
        assert forall|j: int| 0 <= j < reqs.len() implies !((#[trigger] reqs[j]).response_is_complete
            && reqs[j].waiting_for_ack.len_spec() == 0) by {
            assert(!p(reqs[j]));
        }
    }
}

/// Identifiers advanced by different counts below 2^48 differ.
pub proof fn lemma_advanced_distinct(start: PacketId, i: int, j: int)
    requires
        0 <= i < j < 0x1_0000_0000_0000,
    ensures
        start.advanced(i) != start.advanced(j),
{
    let m = 0x1_0000_0000_0000int;
    let p = start.packet() as int;
    PacketId::lemma_with(((p + i) % m) as u64, start.request());
    PacketId::lemma_with(((p + j) % m) as u64, start.request());
    if start.advanced(i) == start.advanced(j) {
        assert((p + i) % m == (p + j) % m);
        vstd::arithmetic::div_mod::lemma_mod_equivalence(p + j, p + i, m);
        vstd::arithmetic::div_mod::lemma_small_mod((j - i) as nat, m as nat);
        assert(false);
    }
}

/// The fragments of a request made of `frags`, sent from identifier
/// `start` on, wait under the identifiers that they were sent with: the
/// `i`-th under `start` advanced by `i`, and no other identifier waits.
pub proof fn lemma_waiting_map(start: PacketId, frags: Seq<Fragment>)
    requires
        frags.len() <= 0x1_0000_0000_0000,
    ensures
        forall|i: int|
            0 <= i < frags.len() ==> #[trigger] waiting_map(start, frags).contains_key(start.advanced(i))
                && waiting_map(start, frags)[start.advanced(i)] == frags[i],
        forall|k: PacketId|
            #[trigger] waiting_map(start, frags).contains_key(k) ==> exists|i: int|
                0 <= i < frags.len() && k == #[trigger] start.advanced(i),
    decreases frags.len(),
{
    if frags.len() > 0 {
        let init = frags.drop_last();
        let n = frags.len() - 1;
        lemma_waiting_map(start, init);
        let w0 = waiting_map(start, init);
        let w = waiting_map(start, frags);
        assert(w == w0.insert(start.advanced(n), frags.last()));
        assert forall|i: int| 0 <= i < frags.len() implies #[trigger] w.contains_key(start.advanced(i)) && w[start.advanced(
            i,
        )] == frags[i] by {
            if i < n {
                lemma_advanced_distinct(start, i, n);
                assert(init[i] == frags[i]);
                assert(w0.contains_key(start.advanced(i)));
            }
        }
        assert forall|k: PacketId| #[trigger] w.contains_key(k) implies exists|i: int|
            0 <= i < frags.len() && k == #[trigger] start.advanced(i) by {
            if k != start.advanced(n) {
                assert(w0.contains_key(k));
            }
        }
    }
}

/// The servers reported with their kinds are exactly the known servers of
/// known kind, each under the kind the client recorded: a text server as a
/// file server, a media server as a media server, a chat server as a chat
/// server; none is reported twice.
pub proof fn lemma_reported_server_kinds(c: &WebBrowser)
    requires
        c.wf(),
    ensures
        forall|i: int|
            0 <= i < typed_servers(c.nodes().entries()).len() ==> {
                let (id, kind) = #[trigger] typed_servers(c.nodes().entries())[i];
                &&& c.nodes()@.contains_key(id)
                &&& c.nodes()@[id] == graph_type_of_server(kind)
            },
        forall|id: NodeId|
            #[trigger] c.nodes()@.contains_key(id) && (c.nodes()@[id] == GraphNodeType::TextServer || c.nodes()@[id]
                == GraphNodeType::MediaServer || c.nodes()@[id] == GraphNodeType::ChatServer) ==> exists|i: int|
                0 <= i < typed_servers(c.nodes().entries()).len() && #[trigger] typed_servers(c.nodes().entries())[i]
                    == (id, typed_servers(c.nodes().entries())[i].1) && graph_type_of_server(
                    typed_servers(c.nodes().entries())[i].1,
                ) == c.nodes()@[id],
{
    let t = c.nodes();
    let es = t.entries();
    lemma_typed_servers(es);
    assert forall|i: int| 0 <= i < typed_servers(es).len() implies {
        let (id, kind) = #[trigger] typed_servers(es)[i];
        &&& t@.contains_key(id)
        &&& t@[id] == graph_type_of_server(kind)
    } by {
        let q = choose|q: int|
            0 <= q < es.len() && es[q].0 == (#[trigger] typed_servers(es)[i]).0 && es[q].1 == graph_type_of_server(
                typed_servers(es)[i].1,
            );
        assert(t.key_at(q) == es[q].0);
        t.lemma_index_of(q);
    }
    assert forall|id: NodeId|
        #[trigger] t@.contains_key(id) && (t@[id] == GraphNodeType::TextServer || t@[id] == GraphNodeType::MediaServer
            || t@[id] == GraphNodeType::ChatServer) implies exists|i: int|
        0 <= i < typed_servers(es).len() && #[trigger] typed_servers(es)[i] == (id, typed_servers(es)[i].1)
            && graph_type_of_server(typed_servers(es)[i].1) == t@[id] by {
        t.lemma_has(id);
        let q = t.index_of(id);
        assert(es[q].0 == id && es[q].1 == t@[id]);
        let i = choose|i: int|
            0 <= i < typed_servers(es).len() && typed_servers(es)[i].0 == es[q].0 && graph_type_of_server(
                typed_servers(es)[i].1,
            ) == es[q].1;
        assert(typed_servers(es)[i] == (id, typed_servers(es)[i].1));
    }
}

/// The position of the first request of `reqs` whose id is `req_id`.
pub open spec fn first_request_with(reqs: Seq<WebBrowserRequest>, req_id: RequestId) -> Option<usize> {
    first_where(reqs, |r: WebBrowserRequest| r.request_id == req_id)
}

/// The position of the first request of `reqs` whose response is complete
/// and whose fragments are all acknowledged.
pub open spec fn first_completed(reqs: Seq<WebBrowserRequest>) -> Option<usize> {
    first_where(reqs, |r: WebBrowserRequest| r.response_is_complete && r.waiting_for_ack.len_spec() == 0)
}

/// The identifier that the session id `session` stands for.
pub open spec fn session_packet_id(session: u64) -> PacketId {
    PacketId::spec_with((session / 0x1_0000) as u64, (session % 0x1_0000) as u16)
}

} // verus!
