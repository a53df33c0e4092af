//! The peer types a node keeps, shared with the network layer.
pub use crate::net::peer::{Peer, PeerIp, PeerList};
