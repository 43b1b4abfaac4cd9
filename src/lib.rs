//! Verified core of a peer-to-peer session layer: content-addressed blob
//! storage, portable tickets, fetches with ordered progress events, topic
//! membership and forwarding for gossip meshes, multi-strategy discovery and
//! protocol routing.

pub mod digest;
pub mod discovery;
pub mod error;
pub mod fetch;
pub mod gossip;
pub mod router;
pub mod session;
pub mod store;
pub mod ticket;
pub mod ticket_laws;
pub mod window;
