pub mod gossip;
pub mod peer;
pub mod transport;
