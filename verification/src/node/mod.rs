pub mod node;
pub mod peer;
