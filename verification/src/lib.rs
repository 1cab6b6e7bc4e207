//! Peer-to-peer transport and message multiplexing for a federation with a
//! fixed set of members.
//!
//! The crate holds the decisions of the transport layer as plain state
//! machines over bytes and queues: the wire codecs, the per-peer link
//! supervision, the bounded outbound queues of the connection manager and the
//! per-key inbound queues of the multiplexer. Sockets, timers and tasks live
//! with the caller, who feeds events in and carries actions out.
pub mod codec;
pub mod esplora;
pub mod link;
pub mod manager;
pub mod mux;
pub mod peer;
pub mod recovery;
pub mod transport;
pub mod wire;
