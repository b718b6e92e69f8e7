//! A key-value store replicated with a last-writer-wins CRDT whose per-peer
//! causal index is a compressed bitmap of hybrid logical clocks.
pub mod bitmap;
pub mod clock;
pub mod diff;
pub mod hlc;
pub mod kv;
pub mod memory;
pub mod opset;
pub mod peer_id;
