//! A deterministic-random network fault-injection simulator for driving
//! tests of replicated protocols.
//!
//! A [`sim::Network`] owns one inbox of pending envelopes per registered
//! replica plus a log of everything ever broadcast. Broadcasting fans a
//! batch of messages out to every other replica, duplicating each message
//! one to three times and inserting the copies at random positions that
//! never overtake an earlier envelope from the same sender; receiving
//! drains a random-length prefix of a replica's inbox. All randomness
//! comes from a seedable [`rng::RandomSource`] injected at construction,
//! so a run is replayable from its seed.

use vstd::prelude::*;

pub mod rng;
pub mod sim;
pub mod text;
pub mod tree;

pub use crate::rng::RandomSource;
pub use crate::rng::StdRandomSource;
pub use crate::sim::Envelope;
pub use crate::sim::Network;
pub use crate::text::sample_text;
pub use crate::tree::FsOp;
pub use crate::tree::TreeNode;
pub use crate::tree::tree_ops;

verus! {

/// Identifier of a simulated protocol participant. Replicas are ordered by
/// their identifiers so that fan-out visits them in a stable order.
pub type ReplicaId = u16;

} // verus!
