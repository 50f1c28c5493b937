//! Topic registry and per-connection protocol state for a signalling relay.
//!
//! Peers join named topics and relay opaque negotiation frames to each other
//! through the relay. Connections are identified by an opaque `ConnId` that the
//! transport layer assigns when it accepts them; the write path of each
//! connection is kept by the transport layer in a side table keyed by that id.
use vstd::prelude::*;

pub mod registry;
pub mod session;

verus! {

/// Opaque identifier of one accepted connection.
pub type ConnId = u64;

} // verus!
