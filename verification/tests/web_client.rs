use std::collections::HashSet;

use web_client::fragmentation::fragment_bytes;
use web_client::messages::{
    ClientEvent, Command, Compression, GenericResponse, GraphNodeType, MediaResponse, RequestContent,
    RequestType, Response, ServerType, TextResponse,
};
use web_client::packet_id::PacketId;
use web_client::web_client::{
    response_bytes, AckOutcome, CommandAction, Completion, FloodResponseOutcome, FragmentOutcome,
    MediaOutcome, MediaSource, NackOutcome, PacketAction, RequestPlan, ResendStep, SendBack, SendOccasion, TextOutcome,
    WebBrowser,
};
use web_client::wire::{
    Ack, FloodResponse, Fragment, Nack, NackType, NodeId, NodeType, Packet, PacketType, SourceRoutingHeader,
};

fn header(hops: Vec<NodeId>, hop_index: usize) -> SourceRoutingHeader {
    SourceRoutingHeader { hop_index, hops }
}

fn fragment_of(index: u64, total: u64, text: &str) -> Fragment {
    let mut data = [0u8; 128];
    data[..text.len()].copy_from_slice(text.as_bytes());
    Fragment { fragment_index: index, total_n_fragments: total, length: text.len() as u8, data }
}

fn ack(h: SourceRoutingHeader, session_id: u64) -> Packet {
    Packet { routing_header: h, session_id, pack_type: PacketType::Ack(Ack { fragment_index: 0 }) }
}

fn nack(h: SourceRoutingHeader, session_id: u64, nack_type: NackType) -> Packet {
    Packet { routing_header: h, session_id, pack_type: PacketType::Nack(Nack { fragment_index: 0, nack_type }) }
}

fn flood_response(path_trace: Vec<(NodeId, NodeType)>, flood_id: u64) -> Packet {
    Packet {
        routing_header: header(vec![12, 11, 1], 2),
        session_id: 0,
        pack_type: PacketType::FloodResponse(FloodResponse { flood_id, path_trace }),
    }
}

/// Client 1 with neighbour 11, that learned the given nodes from a flood
/// (each one right behind drone 11), servers with their kind recorded.
fn client_with_nodes(nodes: &[(NodeId, GraphNodeType)]) -> WebBrowser {
    let mut client = WebBrowser::new(1, &vec![11]);
    let flood_id = client.start_flooding();
    for (id, t) in nodes {
        let announced = match t {
            GraphNodeType::Client => NodeType::Client,
            GraphNodeType::Drone => NodeType::Drone,
            _ => NodeType::Server,
        };
        let p = flood_response(vec![(1, NodeType::Client), (11, NodeType::Drone), (*id, announced)], flood_id);
        client.handle_packet(&p);
        let kind = match t {
            GraphNodeType::TextServer => Some(ServerType::FileServer),
            GraphNodeType::MediaServer => Some(ServerType::MediaServer),
            GraphNodeType::ChatServer => Some(ServerType::ChatServer),
            _ => None,
        };
        if let Some(k) = kind {
            client.complete_request_with_generic_response(*id, RequestType::ServersType, &GenericResponse::Type(k));
        }
    }
    client
}

/// The edges of the topology graph after the given flood outcomes: the
/// client's edges with its neighbours, then the learned ones.
fn graph_edges(outcomes: Vec<PacketAction>) -> HashSet<(NodeId, NodeId)> {
    let mut edges: HashSet<(NodeId, NodeId)> = HashSet::from([(1, 11), (11, 1)]);
    for o in outcomes {
        match o {
            PacketAction::FloodResponse(FloodResponseOutcome::Learned(learned)) => edges.extend(learned),
            other => panic!("unexpected outcome {other:?}"),
        }
    }
    edges
}

#[test]
fn handle_ack() {
    let mut client = client_with_nodes(&[(2, GraphNodeType::Server)]);

    let mut p = ack(header(vec![2], 0), 0);
    assert!(matches!(client.handle_packet(&p), PacketAction::Ack(AckOutcome::Shortcut)));

    p.routing_header = header(vec![2, 11, 1], 2);
    let sends = client.add_request(
        2,
        Compression::Huffman,
        &vec![fragment_of(0, 1, "ciao")],
        RequestType::ServersType,
    );
    assert_eq!(sends.len(), 1);
    assert_eq!(sends[0].0, PacketId::new());
    client.record_route(PacketId::new(), header(vec![1, 11, 2], 1));
    match client.handle_packet(&p) {
        PacketAction::Ack(AckOutcome::Acknowledged(refresh)) => assert_eq!(refresh, vec![1, 11, 2]),
        other => panic!("unexpected outcome {other:?}"),
    }
    assert_eq!(client.pending_requests()[0].waiting_for_ack.len(), 0);
    assert_eq!(client.counter_of(11), Some((1, 0)));
}

#[test]
fn handle_nack_dropped() {
    let mut client = client_with_nodes(&[(2, GraphNodeType::Server)]);

    let mut p = nack(header(vec![2], 0), 0, NackType::Dropped);
    assert!(matches!(client.handle_packet(&p), PacketAction::Nack(NackOutcome::Shortcut)));

    p.routing_header = header(vec![11, 1], 2);
    client.add_request(2, Compression::Huffman, &vec![fragment_of(0, 1, "ciao")], RequestType::ServersType);
    client.record_route(PacketId::new(), header(vec![1, 11, 2], 1));
    match client.handle_packet(&p) {
        PacketAction::Nack(NackOutcome::Resend { packet_id, fragment, dest, refresh, removed_node }) => {
            assert_eq!(packet_id, PacketId::new());
            assert_eq!(fragment.data, fragment_of(0, 1, "ciao").data);
            assert_eq!(dest, 2);
            assert_eq!(refresh, Some(11));
            assert_eq!(removed_node, None);
        },
        other => panic!("unexpected outcome {other:?}"),
    }
    assert!(client.pending_requests()[0].waiting_for_ack.len() != 0);
    assert_eq!(client.counter_of(11), Some((1, 1)));
    assert!(client.route_of(&PacketId::new()).is_none());
}

#[test]
fn handle_nack_error_in_routing() {
    let mut client = client_with_nodes(&[(2, GraphNodeType::Server)]);

    let mut p = nack(header(vec![2], 0), 0, NackType::ErrorInRouting(11));
    assert!(matches!(client.handle_packet(&p), PacketAction::Nack(NackOutcome::Shortcut)));

    p.routing_header = header(vec![11, 1], 2);
    client.add_request(2, Compression::Huffman, &vec![fragment_of(0, 1, "ciao")], RequestType::ServersType);
    client.record_route(PacketId::new(), header(vec![1, 11, 2], 1));
    match client.handle_packet(&p) {
        PacketAction::Nack(NackOutcome::Resend { dest, refresh, removed_node, .. }) => {
            assert_eq!(dest, 2);
            assert_eq!(refresh, None);
            assert_eq!(removed_node, Some(11));
        },
        other => panic!("unexpected outcome {other:?}"),
    }
    assert!(client.pending_requests()[0].waiting_for_ack.len() != 0);
    assert_eq!(client.counter_of(11), None);
    assert!(client.route_of(&PacketId::new()).is_none());
}

#[test]
fn create_request() {
    let mut client = client_with_nodes(&[
        (22, GraphNodeType::TextServer),
        (2, GraphNodeType::MediaServer),
        (3, GraphNodeType::Server),
    ]);

    assert!(matches!(client.create_request(&RequestType::TextList(34)), RequestPlan::Unsupported));
    assert!(client.pending_requests().is_empty());

    let frags = match client.create_request(&RequestType::TextList(22)) {
        RequestPlan::Send { message, servers } => {
            assert_eq!(message.source_id, 1);
            assert_eq!(message.compression, Compression::NoCompression);
            assert!(matches!(message.content, RequestContent::TextList));
            assert_eq!(servers, vec![22]);
            let frags = fragment_bytes(&vec![1, 2, 3]);
            client.add_request(22, message.compression, &frags, RequestType::TextList(22));
            frags
        },
        RequestPlan::Unsupported => panic!("text server refused"),
    };
    let req = &client.pending_requests()[0];
    assert_eq!(req.request_id, 0);
    assert_eq!(req.server_id, 22);
    assert_eq!(req.compression, Compression::NoCompression);
    assert_eq!(req.waiting_for_ack.len(), 1);
    assert_eq!(*req.waiting_for_ack.key(0), PacketId::new());
    assert_eq!(req.waiting_for_ack.value(0).data, frags[0].data);
    assert_eq!(client.packet_id_counter(), PacketId::from_u64(1));

    match client.create_request(&RequestType::ServersType) {
        RequestPlan::Send { message, servers } => {
            assert!(matches!(message.content, RequestContent::ServersType));
            assert_eq!(servers, vec![3]);
            client.add_request(3, message.compression, &frags, RequestType::ServersType);
        },
        RequestPlan::Unsupported => panic!("type request refused"),
    }
    let req = &client.pending_requests()[1];
    assert_eq!(req.request_id, 1);
    assert_eq!(req.server_id, 3);
    assert_eq!(*req.waiting_for_ack.key(0), PacketId::from_u64(1));
}

#[test]
fn complete_request_with_media_response() {
    let mut client = client_with_nodes(&[(22, GraphNodeType::TextServer), (2, GraphNodeType::MediaServer)]);

    let o = client.complete_request_with_media_response(
        2,
        RequestType::Media("media.jpg".to_string(), 2),
        MediaResponse::Media("content".as_bytes().to_vec()),
    );
    assert!(matches!(o, MediaOutcome::Stored));
    assert_eq!(client.stored_file(&"media.jpg".to_string()).unwrap(), &"content".as_bytes().to_vec());

    // A text file that needs media1.jpg, which server 2 still has to list.
    let text = "<img src=\"media1.jpg\"/>".as_bytes().to_vec();
    match client.complete_request_with_text_response(22, RequestType::Text("tmp".to_string(), 22), TextResponse::Text(text)) {
        TextOutcome::WaitingForMedia(servers) => assert_eq!(servers, vec![2]),
        other => panic!("unexpected outcome {other:?}"),
    }
    // A media that nobody needs, also waiting for server 2.
    client.complete_request_with_text_response(
        22,
        RequestType::Text("other".to_string(), 22),
        TextResponse::Text("<img src=\"media_not_found.jpg\"/>".as_bytes().to_vec()),
    );
    let o = client.complete_request_with_media_response(
        2,
        RequestType::MediaList(2),
        MediaResponse::MediaList(vec!["media1.jpg".to_string(), "media2".to_string()]),
    );
    match o {
        MediaOutcome::Owners(list) => assert_eq!(list, vec!["media1.jpg".to_string()]),
        other => panic!("unexpected outcome {other:?}"),
    }
    assert!(matches!(client.media_source(&"media1.jpg".to_string()), Some(MediaSource::Owner(Some(2)))));
    assert!(matches!(client.media_source(&"media_not_found.jpg".to_string()), Some(MediaSource::Owner(None))));
}

#[test]
fn complete_request_with_text_response() {
    let mut client = client_with_nodes(&[(22, GraphNodeType::TextServer), (2, GraphNodeType::MediaServer)]);
    let filename = "file1.html".to_string();

    match client.complete_request_with_text_response(22, RequestType::TextList(22), TextResponse::TextList(vec!["a".to_string()])) {
        TextOutcome::Event(ClientEvent::ListOfFiles(list, server)) => {
            assert_eq!(list, vec!["a".to_string()]);
            assert_eq!(server, 22);
        },
        other => panic!("unexpected outcome {other:?}"),
    }

    match client.complete_request_with_text_response(
        22,
        RequestType::Text(filename.clone(), 22),
        TextResponse::Text("content".as_bytes().to_vec()),
    ) {
        TextOutcome::Event(ClientEvent::FileFromClient(resp, server)) => {
            assert_eq!(resp.html_file, ("file1.html".to_string(), "content".as_bytes().to_vec()));
            assert!(resp.media_files.is_empty());
            assert_eq!(server, 22);
        },
        other => panic!("unexpected outcome {other:?}"),
    }

    let o = client.complete_request_with_text_response(
        22,
        RequestType::Text(filename.clone(), 22),
        TextResponse::Text("content<img src=\"media.jpg\"/>".as_bytes().to_vec()),
    );
    assert_eq!(client.stored_file(&filename).unwrap(), &"content<img src=\"media.jpg\"/>".as_bytes().to_vec());
    assert_eq!(client.needed_media(&(22, filename)).unwrap(), &vec!["media.jpg".to_string()]);
    match o {
        TextOutcome::WaitingForMedia(servers) => assert_eq!(servers, vec![2]),
        other => panic!("unexpected outcome {other:?}"),
    }
}

#[test]
fn complete_request_with_generic_response() {
    let mut client = client_with_nodes(&[(2, GraphNodeType::Server)]);

    let e = client.complete_request_with_generic_response(2, RequestType::ServersType, &GenericResponse::InvalidRequest);
    assert!(matches!(e, Some(ClientEvent::UnsupportedRequest)));

    let e = client.complete_request_with_generic_response(2, RequestType::ServersType, &GenericResponse::NotFound);
    assert!(matches!(e, Some(ClientEvent::UnsupportedRequest)));

    let e = client.complete_request_with_generic_response(
        2,
        RequestType::ServersType,
        &GenericResponse::Type(ServerType::MediaServer),
    );
    assert_eq!(client.node_type(2), Some(GraphNodeType::MediaServer));
    match e {
        Some(ClientEvent::ServersTypes(list)) => assert_eq!(list, vec![(2, ServerType::MediaServer)]),
        other => panic!("unexpected event {other:?}"),
    }
}

#[test]
fn get_request_index() {
    let mut client = client_with_nodes(&[(12, GraphNodeType::Drone), (21, GraphNodeType::TextServer)]);
    // Two requests, with the ids that the identifier counter hands out in turn.
    client.add_request(21, Compression::LZW, &Vec::new(), RequestType::ServersType);
    let id = client.packet_id_counter();
    client.add_request(21, Compression::LZW, &Vec::new(), RequestType::ServersType);

    let p = ack(SourceRoutingHeader::empty_route(), PacketId::new().get_session_id());
    assert_eq!(client.get_request_index(&p), Some(0));
    let p = ack(SourceRoutingHeader::empty_route(), id.get_session_id());
    assert_eq!(client.get_request_index(&p), Some(1));
    let p = ack(SourceRoutingHeader::empty_route(), 33);
    assert_eq!(client.get_request_index(&p), None);
}

#[test]
fn client_is_destination() {
    let client = WebBrowser::new(1, &vec![11]);

    let p = ack(SourceRoutingHeader::empty_route(), 14);
    assert!(!client.client_is_destination(&p));

    let p = ack(header(vec![4, 3, 2, 1], 122), 9);
    assert!(client.client_is_destination(&p));

    let p = ack(header(vec![4, 3], 122), 9);
    assert!(!client.client_is_destination(&p));
}

#[test]
fn remove_node() {
    let mut client = client_with_nodes(&[(12, GraphNodeType::Drone)]);

    assert_eq!(client.counter_of(12), Some((0, 0)));
    assert!(client.remove_node(12));
    assert_eq!(client.counter_of(12), None);
    assert_eq!(client.node_type(1), Some(GraphNodeType::Client));
    assert_eq!(client.node_type(12), Some(GraphNodeType::Drone));
}

#[test]
fn is_correct_server_type() {
    let client = client_with_nodes(&[(12, GraphNodeType::Drone)]);

    assert!(client.is_correct_server_type(1, &GraphNodeType::Client));
    assert!(!client.is_correct_server_type(12, &GraphNodeType::TextServer));
    assert!(!client.is_correct_server_type(123, &GraphNodeType::Client));
}

#[test]
fn add_sender() {
    let mut client = WebBrowser::new(1, &Vec::new());
    match client.handle_command(Command::AddSender(11)) {
        CommandAction::AddSender(id) => assert_eq!(id, 11),
        other => panic!("unexpected action {other:?}"),
    }
    assert_eq!(client.start_flooding(), 1);
}

#[test]
fn remove_sender() {
    let mut client = client_with_nodes(&[(11, GraphNodeType::Drone)]);
    assert_eq!(client.counter_of(11), Some((0, 0)));

    match client.handle_command(Command::RemoveSender(11)) {
        CommandAction::RemoveSender { node, removed } => {
            assert_eq!(node, 11);
            assert!(removed);
        },
        other => panic!("unexpected action {other:?}"),
    }
    assert_eq!(client.node_type(1), Some(GraphNodeType::Client));
    assert_eq!(client.node_type(11), Some(GraphNodeType::Drone));
    assert_eq!(client.counter_of(11), None);
}

#[test]
fn try_resend_packet_successfully() {
    let mut client = client_with_nodes(&[(11, GraphNodeType::Drone), (21, GraphNodeType::MediaServer)]);
    let frag = fragment_of(0, 1, "ciao");
    client.add_request(21, Compression::LZW, &vec![frag], RequestType::Text("aa/file1.html".to_string(), 21));
    let id = PacketId::new();
    client.queue_for_resend(id, frag);

    match client.try_resend_packet() {
        ResendStep::Send { packet_id, fragment, dest } => {
            assert_eq!(packet_id, id);
            assert_eq!(fragment.data, frag.data);
            assert_eq!(dest, 21);
        },
        other => panic!("unexpected step {other:?}"),
    }
    assert!(client.packets_to_be_sent_again().is_empty());
    assert!(matches!(client.try_resend_packet(), ResendStep::Idle));
}

#[test]
fn try_resend_packet_unsuccessfully() {
    let mut client = client_with_nodes(&[(11, GraphNodeType::Drone), (21, GraphNodeType::MediaServer)]);
    let frag = fragment_of(0, 1, "ciao");
    client.add_request(22, Compression::LZW, &vec![frag], RequestType::Text("aa/file1.html".to_string(), 21));
    let id = PacketId::new();
    client.queue_for_resend(id, frag);

    match client.try_resend_packet() {
        ResendStep::Send { packet_id, dest, .. } => {
            assert_eq!(dest, 22);
            // No route to 22: the fragment goes back to the queue.
            client.queue_for_resend(packet_id, frag);
        },
        other => panic!("unexpected step {other:?}"),
    }
    let queue = client.packets_to_be_sent_again();
    assert_eq!(queue.len(), 1);
    assert_eq!(queue[0].0, id);
}

#[test]
fn start_flooding_simple_top() {
    let mut client = WebBrowser::new(1, &vec![11]);
    assert_eq!(client.start_flooding(), 1);
    assert_eq!(client.sequential_flood_id(), 1);

    let outcomes = vec![
        client.handle_packet(&flood_response(vec![(1, NodeType::Client), (11, NodeType::Drone), (12, NodeType::Drone)], 1)),
        client.handle_packet(&flood_response(vec![(1, NodeType::Client), (11, NodeType::Drone), (13, NodeType::Drone)], 1)),
        client.handle_packet(&flood_response(
            vec![(1, NodeType::Client), (11, NodeType::Drone), (14, NodeType::Drone), (13, NodeType::Drone)],
            1,
        )),
    ];
    let expected: HashSet<(NodeId, NodeId)> = HashSet::from([
        (1, 11), (11, 1), (11, 12), (12, 11), (13, 11), (11, 13), (14, 11), (11, 14), (13, 14), (14, 13),
    ]);
    assert_eq!(graph_edges(outcomes), expected);
    for (id, t) in [
        (1, GraphNodeType::Client),
        (11, GraphNodeType::Drone),
        (12, GraphNodeType::Drone),
        (13, GraphNodeType::Drone),
        (14, GraphNodeType::Drone),
    ] {
        assert_eq!(client.node_type(id), Some(t));
    }
}

#[test]
fn start_flooding_complex_top() {
    let mut client = WebBrowser::new(1, &vec![11]);
    assert_eq!(client.start_flooding(), 1);

    let outcomes = vec![
        client.handle_packet(&flood_response(vec![(1, NodeType::Client), (12, NodeType::Drone), (11, NodeType::Drone)], 1)),
        client.handle_packet(&flood_response(
            vec![
                (1, NodeType::Client),
                (11, NodeType::Drone),
                (13, NodeType::Drone),
                (2, NodeType::Client),
                (14, NodeType::Drone),
            ],
            1,
        )),
        client.handle_packet(&flood_response(
            vec![(1, NodeType::Client), (11, NodeType::Drone), (14, NodeType::Drone), (13, NodeType::Drone)],
            1,
        )),
    ];
    let expected: HashSet<(NodeId, NodeId)> = HashSet::from([
        (1, 11), (11, 1), (11, 12), (12, 11), (13, 11), (11, 13), (14, 11), (11, 14), (13, 14), (14, 13),
        (1, 12), (12, 1), (13, 2), (14, 2),
    ]);
    assert_eq!(graph_edges(outcomes), expected);
    for (id, t) in [
        (1, GraphNodeType::Client),
        (11, GraphNodeType::Drone),
        (12, GraphNodeType::Drone),
        (13, GraphNodeType::Drone),
        (14, GraphNodeType::Drone),
        (2, GraphNodeType::Client),
    ] {
        assert_eq!(client.node_type(id), Some(t));
    }
}

#[test]
fn flood_response_with_wrong_id_or_empty_trace_is_dropped() {
    let mut client = WebBrowser::new(1, &vec![11]);
    client.start_flooding();
    let p = flood_response(vec![(1, NodeType::Client), (11, NodeType::Drone), (12, NodeType::Drone)], 7);
    assert!(matches!(client.handle_packet(&p), PacketAction::FloodResponse(FloodResponseOutcome::WrongFloodId)));
    assert_eq!(client.node_type(12), None);
    let p = flood_response(Vec::new(), 1);
    assert!(matches!(client.handle_packet(&p), PacketAction::FloodResponse(FloodResponseOutcome::EmptyPathTrace)));
}

#[test]
fn foreign_flood_response_is_forwarded() {
    let mut client = WebBrowser::new(1, &vec![11]);
    let p = Packet {
        routing_header: header(vec![5, 1, 11, 3], 1),
        session_id: 0,
        pack_type: PacketType::FloodResponse(FloodResponse {
            flood_id: 4,
            path_trace: vec![(3, NodeType::Client), (11, NodeType::Drone), (1, NodeType::Client)],
        }),
    };
    assert!(matches!(client.handle_packet(&p), PacketAction::FloodResponse(FloodResponseOutcome::Forward(11))));
    let p = Packet {
        routing_header: header(vec![5, 1], 1),
        session_id: 0,
        pack_type: PacketType::FloodResponse(FloodResponse { flood_id: 4, path_trace: vec![(3, NodeType::Client)] }),
    };
    assert!(matches!(client.handle_packet(&p), PacketAction::FloodResponse(FloodResponseOutcome::NoNextHop)));
}

#[test]
fn counters_follow_acks_and_drops() {
    let mut client = WebBrowser::new(1, &vec![11]);
    let h = header(vec![1, 11, 12], 0);
    client.update_packet_counter_after_ack(&h);
    assert_eq!(client.counter_of(11), Some((1, 0)));
    client.update_packet_counter_after_nack(&h, 11);
    assert_eq!(client.counter_of(11), Some((2, 1)));
    client.update_packet_counter_after_ack(&h);
    client.update_packet_counter_after_ack(&h);
    assert_eq!(client.counter_of(11), Some((4, 1)));
    client.update_packet_counter_after_ack(&h);
    for _ in 0..3 {
        client.update_packet_counter_after_nack(&h, 11);
    }
    assert_eq!(client.counter_of(11), Some((8, 4)));
    // A drop by 12: 11 forwarded it, 12 lost it (12 has no counters).
    client.update_packet_counter_after_nack(&h, 12);
    assert_eq!(client.counter_of(11), Some((9, 4)));
    assert_eq!(client.counter_of(12), None);
}

#[test]
fn fragments_complete_a_request() {
    let mut client = client_with_nodes(&[(21, GraphNodeType::TextServer)]);
    client.add_request(21, Compression::NoCompression, &vec![fragment_of(0, 1, "q")], RequestType::TextList(21));
    let session = PacketId::new().get_session_id();
    let to_me = || header(vec![21, 11, 1], 2);
    let f1 = fragment_of(1, 2, "world");
    let f0 = fragment_of(0, 2, "hello ");
    let p1 = Packet { routing_header: to_me(), session_id: session, pack_type: PacketType::MsgFragment(f1) };
    match client.handle_packet(&p1) {
        PacketAction::Fragment(FragmentOutcome::SendAck { session_id, fragment_index, dest }) => {
            assert_eq!((session_id, fragment_index, dest), (session, 1, 21));
        },
        other => panic!("unexpected outcome {other:?}"),
    }
    assert!(matches!(client.handle_packet(&p1), PacketAction::Fragment(FragmentOutcome::Duplicate)));
    assert!(!client.pending_requests()[0].response_is_complete);
    let p0 = Packet { routing_header: to_me(), session_id: session, pack_type: PacketType::MsgFragment(f0) };
    client.handle_packet(&p0);
    assert!(client.pending_requests()[0].response_is_complete);

    // Still waiting for the acknowledgement of the request's own fragment.
    assert!(client.take_completed_request().is_none());
    client.handle_packet(&ack(to_me(), session));
    let mut req = client.take_completed_request().unwrap();
    assert!(client.pending_requests().is_empty());
    let bytes = response_bytes(&mut req);
    assert_eq!(&bytes[..6], b"hello ");
    assert_eq!(&bytes[128..133], b"world");

    let unknown = Packet {
        routing_header: header(vec![21, 1], 1),
        session_id: 77,
        pack_type: PacketType::MsgFragment(fragment_of(0, 1, "x")),
    };
    assert!(matches!(client.handle_packet(&unknown), PacketAction::Fragment(FragmentOutcome::UnknownRequest)));
}

#[test]
fn text_with_media_goes_back_once_media_arrive() {
    let mut client = client_with_nodes(&[(22, GraphNodeType::TextServer), (2, GraphNodeType::MediaServer)]);
    let html = "<img src=\"a/b/pic.jpg\"/><img src=\"gone.jpg\"/>";
    client.complete_request_with_text_response(
        22,
        RequestType::Text("dir/page.html".to_string(), 22),
        TextResponse::Text(html.as_bytes().to_vec()),
    );
    assert!(client.ready_text().is_none());
    match client.complete_request(
        2,
        RequestType::MediaList(2),
        Response::Media(MediaResponse::MediaList(vec!["a/b/pic.jpg".to_string()])),
    ) {
        Completion::Media(MediaOutcome::Owners(list)) => assert_eq!(list, vec!["a/b/pic.jpg".to_string()]),
        other => panic!("unexpected completion {other:?}"),
    }
    // pic.jpg is owned by 2 but not stored yet; gone.jpg has no owner.
    assert!(client.ready_text().is_none());
    client.complete_request_with_media_response(
        2,
        RequestType::Media("a/b/pic.jpg".to_string(), 2),
        MediaResponse::Media(vec![9, 9]),
    );
    let key = client.ready_text().unwrap();
    assert_eq!(key, (22, "dir/page.html".to_string()));
    match client.send_text_and_media_back(&key) {
        SendBack::Ready(ClientEvent::FileFromClient(resp, server)) => {
            assert_eq!(server, 22);
            assert_eq!(resp.html_file, ("page.html".to_string(), html.as_bytes().to_vec()));
            assert_eq!(
                resp.media_files,
                vec![("pic.jpg".to_string(), vec![9, 9]), ("gone.jpg".to_string(), Vec::new())]
            );
        },
        other => panic!("unexpected outcome {other:?}"),
    }
    assert!(client.needed_media(&key).is_none());
    assert!(client.stored_file(&"a/b/pic.jpg".to_string()).is_none());
    assert!(client.media_source(&"gone.jpg".to_string()).is_none());
    assert!(matches!(client.send_text_and_media_back(&key), SendBack::NotWaiting));
}

#[test]
fn text_that_is_not_utf8_is_refused() {
    let mut client = client_with_nodes(&[(22, GraphNodeType::TextServer)]);
    let o = client.complete_request_with_text_response(
        22,
        RequestType::Text("x.html".to_string(), 22),
        TextResponse::Text(vec![0xFF, 0xFE]),
    );
    assert!(matches!(o, TextOutcome::NotUtf8));
    let o = client.complete_request_with_text_response(
        22,
        RequestType::TextList(22),
        TextResponse::Text(b"fine".to_vec()),
    );
    assert!(matches!(o, TextOutcome::Dropped));
}

#[test]
fn requests_need_the_right_server_kind() {
    let client = client_with_nodes(&[(22, GraphNodeType::TextServer), (2, GraphNodeType::MediaServer)]);
    assert!(matches!(client.create_request(&RequestType::MediaList(22)), RequestPlan::Unsupported));
    assert!(matches!(client.create_request(&RequestType::Text("f".to_string(), 2)), RequestPlan::Unsupported));
    match client.create_request(&RequestType::Text("f".to_string(), 22)) {
        RequestPlan::Send { message, servers } => {
            assert_eq!(message.compression, Compression::LZW);
            assert!(matches!(message.content, RequestContent::Text(ref p) if p == "f"));
            assert_eq!(servers, vec![22]);
        },
        RequestPlan::Unsupported => panic!("text server refused"),
    }
    match client.create_request(&RequestType::Media("m".to_string(), 2)) {
        RequestPlan::Send { message, servers } => {
            assert_eq!(message.compression, Compression::NoCompression);
            assert!(matches!(message.content, RequestContent::Media(ref p) if p == "m"));
            assert_eq!(servers, vec![2]);
        },
        RequestPlan::Unsupported => panic!("media server refused"),
    }
}

#[test]
fn orphan_fragment_in_queue_is_reported() {
    let mut client = WebBrowser::new(1, &vec![11]);
    let id = PacketId::from_u64(0x0009_0005);
    client.queue_for_resend(id, fragment_of(0, 1, "z"));
    assert!(matches!(client.try_resend_packet(), ResendStep::Orphan { .. }));
}

#[test]
fn media_list_takes_server_off_waiting_lists() {
    let mut client = client_with_nodes(&[
        (22, GraphNodeType::TextServer),
        (2, GraphNodeType::MediaServer),
        (3, GraphNodeType::MediaServer),
    ]);
    match client.complete_request_with_text_response(
        22,
        RequestType::Text("page.html".to_string(), 22),
        TextResponse::Text("<img src=\"pic.jpg\"/>".as_bytes().to_vec()),
    ) {
        TextOutcome::WaitingForMedia(servers) => assert_eq!(servers, vec![2, 3]),
        other => panic!("unexpected outcome {other:?}"),
    }
    match client.complete_request_with_media_response(
        2,
        RequestType::MediaList(2),
        MediaResponse::MediaList(vec!["other.jpg".to_string()]),
    ) {
        MediaOutcome::Owners(list) => assert!(list.is_empty()),
        other => panic!("unexpected outcome {other:?}"),
    }
    match client.media_source(&"pic.jpg".to_string()) {
        Some(MediaSource::RequestsLeft(left)) => assert_eq!(left, &vec![3]),
        other => panic!("unexpected source {other:?}"),
    }
    match client.complete_request_with_media_response(
        3,
        RequestType::MediaList(3),
        MediaResponse::MediaList(vec!["pic.jpg".to_string(), "pic.jpg".to_string()]),
    ) {
        MediaOutcome::Owners(list) => assert_eq!(list, vec!["pic.jpg".to_string()]),
        other => panic!("unexpected outcome {other:?}"),
    }
    assert!(matches!(client.media_source(&"pic.jpg".to_string()), Some(MediaSource::Owner(Some(3)))));
}

#[test]
fn acks_for_unknown_requests_or_fragments_are_dropped() {
    let mut client = client_with_nodes(&[(2, GraphNodeType::Server)]);
    let p = ack(header(vec![2, 11, 1], 2), 0);
    assert!(matches!(client.handle_packet(&p), PacketAction::Ack(AckOutcome::UnknownRequest)));

    client.add_request(2, Compression::NoCompression, &vec![fragment_of(0, 1, "x")], RequestType::ServersType);
    assert!(matches!(client.handle_packet(&p), PacketAction::Ack(AckOutcome::Acknowledged(_))));
    assert!(matches!(client.handle_packet(&p), PacketAction::Ack(AckOutcome::AlreadyAcknowledged)));
    // Session id of packet 5 of request 0: not waiting.
    let other = ack(header(vec![2, 11, 1], 2), 5 << 16);
    client.add_request(2, Compression::NoCompression, &vec![fragment_of(0, 1, "y")], RequestType::ServersType);
    assert!(matches!(client.handle_packet(&other), PacketAction::Ack(AckOutcome::AlreadyAcknowledged)));
}

#[test]
fn nacks_for_unknown_requests_or_fragments_are_dropped() {
    let mut client = client_with_nodes(&[(2, GraphNodeType::Server)]);
    let p = nack(header(vec![11, 1], 1), 0, NackType::Dropped);
    assert!(matches!(client.handle_packet(&p), PacketAction::Nack(NackOutcome::UnknownRequest)));

    client.add_request(2, Compression::NoCompression, &vec![fragment_of(0, 1, "x")], RequestType::ServersType);
    let unknown = nack(header(vec![11, 1], 1), 7 << 16, NackType::Dropped);
    assert!(matches!(client.handle_packet(&unknown), PacketAction::Nack(NackOutcome::UnknownPacket)));
    assert_eq!(client.pending_requests()[0].waiting_for_ack.len(), 1);
}

#[test]
fn fragments_for_another_node_are_shortcut() {
    let mut client = client_with_nodes(&[(2, GraphNodeType::Server)]);
    client.add_request(2, Compression::NoCompression, &vec![fragment_of(0, 1, "x")], RequestType::ServersType);
    let p = Packet {
        routing_header: header(vec![2, 11, 5], 1),
        session_id: 0,
        pack_type: PacketType::MsgFragment(fragment_of(0, 1, "answer")),
    };
    assert!(matches!(client.handle_packet(&p), PacketAction::Fragment(FragmentOutcome::Shortcut)));
    assert!(client.pending_requests()[0].incoming_messages.is_empty());
}

#[test]
fn media_answer_to_another_request_is_dropped() {
    let mut client = client_with_nodes(&[(2, GraphNodeType::MediaServer)]);
    let o = client.complete_request_with_media_response(2, RequestType::MediaList(2), MediaResponse::Media(vec![1]));
    assert!(matches!(o, MediaOutcome::Dropped));
    assert!(client.stored_file(&"".to_string()).is_none());
}

#[test]
fn text_stored_under_a_shared_path_goes_back_once() {
    let mut client = client_with_nodes(&[
        (22, GraphNodeType::TextServer),
        (23, GraphNodeType::TextServer),
        (2, GraphNodeType::MediaServer),
    ]);
    let html = "<img src=\"pic.jpg\"/>".as_bytes().to_vec();
    for server in [22, 23] {
        client.complete_request_with_text_response(
            server,
            RequestType::Text("page.html".to_string(), server),
            TextResponse::Text(html.clone()),
        );
    }
    let first = (22, "page.html".to_string());
    let second = (23, "page.html".to_string());
    assert!(matches!(client.send_text_and_media_back(&first), SendBack::Ready(_)));
    assert!(matches!(client.send_text_and_media_back(&second), SendBack::MissingText));
    assert!(client.needed_media(&second).is_some());
}

#[test]
fn commands_become_requests_or_packets() {
    let mut client = client_with_nodes(&[(22, GraphNodeType::TextServer)]);
    match client.handle_command(Command::RequestFile("a.html".to_string(), 22)) {
        CommandAction::CreateRequest(RequestType::Text(path, server)) => {
            assert_eq!(path, "a.html".to_string());
            assert_eq!(server, 22);
        },
        other => panic!("unexpected action {other:?}"),
    }
    assert!(matches!(
        client.handle_command(Command::AskListOfFiles(22)),
        CommandAction::CreateRequest(RequestType::TextList(22))
    ));
    assert!(matches!(client.handle_command(Command::AskServersTypes), CommandAction::CreateRequest(RequestType::ServersType)));
    let p = ack(header(vec![2], 0), 0);
    assert!(matches!(
        client.handle_command(Command::Shortcut(p)),
        CommandAction::Packet(PacketAction::Ack(AckOutcome::Shortcut))
    ));
}

#[test]
fn repeated_hops_count_once_per_occurrence() {
    let mut client = WebBrowser::new(1, &vec![11, 12]);
    // 11 occurs twice before the drop by 12, once after it.
    client.update_packet_counter_after_nack(&header(vec![1, 11, 5, 11, 12, 11], 0), 12);
    assert_eq!(client.counter_of(11), Some((2, 0)));
    assert_eq!(client.counter_of(12), Some((1, 1)));
    client.update_packet_counter_after_ack(&header(vec![11, 12, 11], 0));
    assert_eq!(client.counter_of(11), Some((4, 0)));
    assert_eq!(client.counter_of(12), Some((2, 1)));
    assert_eq!(client.counter_of(5), None);
}

#[test]
fn send_results_queue_record_or_ask_for_a_flood() {
    let mut client = WebBrowser::new(1, &vec![11]);
    let f = fragment_of(0, 1, "x");
    let a = PacketId::from_u64(1);
    let b = PacketId::from_u64(2);
    let c = PacketId::from_u64(3);
    assert!(!client.fragment_send_result(SendOccasion::NewRequest, a, f, Some(header(vec![1, 11, 2], 1))));
    assert_eq!(client.route_of(&a).unwrap().hops, vec![1, 11, 2]);
    assert!(!client.fragment_send_result(SendOccasion::AfterNack, b, f, Some(header(vec![1, 11, 2], 1))));
    assert!(client.route_of(&b).is_none());
    assert!(client.fragment_send_result(SendOccasion::NewRequest, b, f, None));
    assert!(client.fragment_send_result(SendOccasion::AfterNack, c, f, None));
    assert!(!client.fragment_send_result(SendOccasion::FromQueue, a, f, None));
    let queued: Vec<PacketId> = client.packets_to_be_sent_again().iter().map(|(id, _)| *id).collect();
    assert_eq!(queued, vec![b, c, a]);
    assert!(!client.fragment_send_result(SendOccasion::FromQueue, c, f, Some(header(vec![1, 11], 1))));
    assert_eq!(client.route_of(&c).unwrap().hops, vec![1, 11]);
    assert_eq!(client.packets_to_be_sent_again().len(), 3);
}
