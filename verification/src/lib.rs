//! A cluster membership library: a registry of known peers with
//! last-writer-wins conflict resolution keyed by per-node incarnation
//! counters, a tagged binary wire protocol for membership gossip, a
//! dispatcher that turns inbound frames into registry updates and replies,
//! and a failure-detection state machine for direct and indirect probes.

pub mod codec;
pub mod engine;
pub mod message;
pub mod node;
pub mod nodestore;
pub mod probe;

use vstd::prelude::*;

verus! {

} // verus!
