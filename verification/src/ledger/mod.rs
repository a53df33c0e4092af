pub mod types;
pub mod address_map;
pub mod encoding;
pub mod transaction;
pub mod state;
pub mod block;
pub mod pow;
pub mod replay;
pub mod consensus;
pub mod mempool;
pub mod laws;
