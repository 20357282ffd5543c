//! Base components for a distributed hash table: stream framing of content of
//! unknown length, key/value caches, peer states and tunnel modes.

pub mod bytes_wr;
pub mod tunnel;
pub mod peer;
pub mod tunnel_new;
pub mod kvcache;
