# web_client

A web client for a source-routed drone network. It discovers the network
by flooding, asks servers for their kind, for lists of files and for files,
splits its requests into fragments, reassembles the fragments of the
answers, and sends a text file back to the simulation controller together
with the media files it shows.

## Layout

- `src/` is the verified library (Verus).
  - `packet_id.rs`: packet identifiers and the 64-bit session ids they pack into.
  - `fragmentation.rs`: splitting a message into fragments and joining them back.
  - `utils.rs`: file names of paths, the media that an HTML file shows, UTF-8 decoding.
  - `assoc_map.rs`: a small association list with a map view.
  - `wire.rs`, `messages.rs`: the packets, requests, responses and events the client reads and produces.
  - `model.rs`: mathematical descriptions of the client's bookkeeping.
  - `web_client.rs`: the client's state and one verified step for each packet,
    command and response; each step says what is to be sent or reported.
- `tests/`: tests of the library.
- `app/`: the node around the library: channels, the weighted topology graph
  and its shortest routes, the flood history, serialization and compression.
