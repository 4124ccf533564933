//! A web client for a source-routed drone network: it discovers the
//! topology by flooding, requests text and media files from servers, splits
//! outgoing messages into fragments and reassembles the incoming ones.
pub mod assoc_map;
pub mod fragmentation;
pub mod messages;
pub mod model;
pub mod packet_id;
pub mod utils;
pub mod web_client;
pub mod wire;
