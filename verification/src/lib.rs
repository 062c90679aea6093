//! Block-production fingerprinting for a proof-of-stake beacon network.
//!
//! Each slot, a set of candidate nodes is asked to assemble the block it
//! would have proposed; the blocks are compared with a structural distance
//! metric over their attestation lists, and the node whose block is closest
//! to the canonical block is reported as its likely producer.
//!
//! The metric is an optimal-matching distance: attestations with equal vote
//! data may be matched and pay their position and bitfield differences,
//! unmatched attestations pay an insertion charge. It is proved to be a
//! metric in `laws`.

pub mod classify;
pub mod clock;
pub mod config;
pub mod counting;
pub mod delta;
pub mod distance;
pub mod laws;
pub mod matching;
pub mod orchestrate;
pub mod sink;
pub mod sums;
pub mod types;
pub mod window;
