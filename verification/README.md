# ledgerzero

A small proof-of-work ledger written in Verus: accounts with balances and
nonces, Ed25519-signed transfers, blocks chained by SHA-256 hashes, fork
choice by accumulated work with replay from genesis, a per-sender mempool,
and the length-prefixed framing used on the wire and on disk.

Layout:

- `src/ledger/` — the verified core: `address_map` (sorted maps keyed by
  32-byte values), `encoding` (the bytes hashes commit to), `transaction`
  (validation), `state` (applying transfers), `block`, `pow`, `replay` (the
  mathematical model of replaying blocks), `consensus` (the block tree, fork
  choice and reorganisation), `mempool` (admission and block assembly) and
  `laws` (properties that span several operations).
- `src/crypto/` — SHA-256 (`sha2`) and Ed25519 verification (`ed25519-dalek`)
  behind trusted wrappers.
- `src/net/`, `src/node/`, `src/storage/`, `src/framing.rs` — gossip messages,
  peers, the node's handling of gossip, and rebuilding the chain from storage.
- `app/` — the node program: TCP transport, threads, the block file, postcard
  serialization of messages, and the mining loop.
- `tests/` — executable tests of the library.
