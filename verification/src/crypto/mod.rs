pub mod hash;
pub mod signature;
