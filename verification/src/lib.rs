//! A single-process node for a line-oriented distributed-systems workbench.
//!
//! The node reads JSON request messages on stdin and writes response and
//! peer-to-peer messages on stdout (the I/O shell lives outside this crate).
//! The crate holds the verified core: the wire types and reply construction,
//! the gossip-based broadcast state machine with per-peer knowledge tracking,
//! the deterministic small-world topology generator, the counter workload,
//! and a small tokenizer that ships in the same repository.

pub mod broadcast;
pub mod counter;
pub mod knowledge;
pub mod lexer;
pub mod numset;
pub mod protocol;
pub mod rng;
pub mod text;
pub mod token;
pub mod topology;
