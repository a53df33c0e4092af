//! A small proof-of-work ledger: accounts, signed transfers, blocks, fork
//! choice by accumulated work, a mempool and the wire framing used between
//! nodes. Every operation here is verified against a specification.

pub mod ledger;
pub mod crypto;
pub mod net;
pub mod node;
pub mod storage;
pub mod framing;
