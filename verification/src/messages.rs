//! The application-level vocabulary of the client: node kinds, the
//! requests it sends to servers, the responses it receives, the commands of
//! the simulation controller and the events it reports back to it.
use vstd::prelude::*;

use crate::wire::{NodeId, NodeType, Packet};

verus! {

/// How a message body is compressed.
#[derive(Debug, Clone, Copy, PartialEq, Eq, Structural)]
pub enum Compression {
    LZW,
    NoCompression,
    Huffman,
}

/// The kinds of server of the network.
#[derive(Debug, Clone, Copy, PartialEq, Eq, Structural)]
pub enum ServerType {
    ChatServer,
    FileServer,
    MediaServer,
}

/// What the client knows of a node of its topology graph. A server whose
/// kind has not been asked yet is just `Server`.
#[derive(Debug, Clone, Copy, PartialEq, Eq, Structural)]
pub enum GraphNodeType {
    TextServer,
    MediaServer,
    ChatServer,
    Server,
    Client,
    Drone,
}

/// The node kind that a server kind stands for.
pub open spec fn graph_type_of_server(value: ServerType) -> GraphNodeType {
    match value {
        ServerType::ChatServer => GraphNodeType::ChatServer,
        ServerType::FileServer => GraphNodeType::TextServer,
        ServerType::MediaServer => GraphNodeType::MediaServer,
    }
}

/// The node kind that an announced node type stands for.
pub open spec fn graph_type_of_node(value: NodeType) -> GraphNodeType {
    match value {
        NodeType::Client => GraphNodeType::Client,
        NodeType::Drone => GraphNodeType::Drone,
        NodeType::Server => GraphNodeType::Server,
    }
}

impl From<ServerType> for GraphNodeType {
    fn from(value: ServerType) -> (t: GraphNodeType) {
        match value {
            ServerType::ChatServer => GraphNodeType::ChatServer,
            ServerType::FileServer => GraphNodeType::TextServer,
            ServerType::MediaServer => GraphNodeType::MediaServer,
        }
    }
}

impl vstd::std_specs::convert::FromSpecImpl<ServerType> for GraphNodeType {
    open spec fn obeys_from_spec() -> bool {
        true
    }

    open spec fn from_spec(v: ServerType) -> GraphNodeType {
        graph_type_of_server(v)
    }
}

impl From<NodeType> for GraphNodeType {
    fn from(value: NodeType) -> (t: GraphNodeType) {
        match value {
            NodeType::Client => GraphNodeType::Client,
            NodeType::Drone => GraphNodeType::Drone,
            NodeType::Server => GraphNodeType::Server,
        }
    }
}

impl vstd::std_specs::convert::FromSpecImpl<NodeType> for GraphNodeType {
    open spec fn obeys_from_spec() -> bool {
        true
    }

    open spec fn from_spec(v: NodeType) -> GraphNodeType {
        graph_type_of_node(v)
    }
}

/// What the client asks of a server: the list of its text files, the list
/// of its media files, the kind of every server, a text file or a media file
/// (given by path, together with the server that holds it).
#[derive(Debug)]
pub enum RequestType {
    TextList(NodeId),
    MediaList(NodeId),
    ServersType,
    Text(String, NodeId),
    Media(String, NodeId),
}

impl Clone for RequestType {
    fn clone(&self) -> (r: RequestType)
        ensures
            r == *self,
    {
        match self {
            RequestType::TextList(s) => RequestType::TextList(*s),
            RequestType::MediaList(s) => RequestType::MediaList(*s),
            RequestType::ServersType => RequestType::ServersType,
            RequestType::Text(p, s) => RequestType::Text(p.clone(), *s),
            RequestType::Media(p, s) => RequestType::Media(p.clone(), *s),
        }
    }
}

/// The body of a request message.
#[derive(Debug)]
pub enum RequestContent {
    TextList,
    MediaList,
    ServersType,
    Text(String),
    Media(String),
}

/// A request message, as the client sends it: who sends it, how the answer
/// is to be compressed, and what is asked.
#[derive(Debug)]
pub struct RequestMessage {
    pub source_id: NodeId,
    pub compression: Compression,
    pub content: RequestContent,
}

/// Answers that any server can give.
#[derive(Debug)]
pub enum GenericResponse {
    Type(ServerType),
    InvalidRequest,
    NotFound,
}

/// Answers of a text server.
#[derive(Debug)]
pub enum TextResponse {
    TextList(Vec<String>),
    Text(Vec<u8>),
}

/// Answers of a media server.
#[derive(Debug)]
pub enum MediaResponse {
    MediaList(Vec<String>),
    Media(Vec<u8>),
}

/// The content of a response message.
#[derive(Debug)]
pub enum Response {
    Generic(GenericResponse),
    Text(TextResponse),
    Media(MediaResponse),
}

/// A text file (name and content) together with the media files (name and
/// content) that it shows.
#[derive(Debug)]
pub struct TextMediaResponse {
    pub html_file: (String, Vec<u8>),
    pub media_files: Vec<(String, Vec<u8>)>,
}

/// What the client reports to the simulation controller about the requests
/// it was asked to make.
#[derive(Debug)]
pub enum ClientEvent {
    /// The kind of every chat, media and text server.
    ServersTypes(Vec<(NodeId, ServerType)>),
    UnsupportedRequest,
    /// The text files of the given server.
    ListOfFiles(Vec<String>, NodeId),
    /// A text file with its media, from the given server.
    FileFromClient(TextMediaResponse, NodeId),
}

/// Commands of the simulation controller.
#[derive(Debug)]
pub enum Command {
    /// A new direct neighbour (its channel stays with the caller).
    AddSender(NodeId),
    RemoveSender(NodeId),
    AskListOfFiles(NodeId),
    AskServersTypes,
    RequestFile(String, NodeId),
    /// A packet that reached the client through the controller.
    Shortcut(Packet),
}

} // verus!
