//! Verified core of a serverless local-network chat engine.
//!
//! Peers discover each other on the local network and exchange chat
//! messages over a single gossip topic. This crate holds the logic that
//! decides what the engine does: the wire codec for chat messages, the
//! content-addressed message identifier, the peer registry, the bounded
//! command queue, and the event-loop step functions. The unverified host
//! around it performs the network I/O and feeds events in.
use vstd::prelude::*;

pub mod bridge;
pub mod codec;
pub mod engine;
pub mod message;
pub mod msgid;

verus! {

/// Name of the single gossip topic the whole chat runs on.
pub fn topic_name() -> (r: &'static str)
    ensures
        r@ == "lanchat"@,
{
    "lanchat"
}


} // verus!
