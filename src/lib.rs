//! Verified core of a block-header chain attester: range chunking, payload
//! framing, hash-link checking of a header sequence and its 64-byte commitment.

pub mod chunks;
pub mod header;
pub mod chain;
pub mod report;
pub mod payload;
