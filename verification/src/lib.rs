//! Server-side lockstep synchronization core.
//!
//! The server is the single source of truth for a deterministic simulation
//! driven by per-frame merged client inputs.  This crate holds the verified
//! heart of that server: per-frame input aggregation, client session
//! lifecycle, chunked world-snapshot transfer, and catch-up replay of merged
//! frame history for clients that join mid-session.  Transport, encoding and
//! the event loop live outside the crate and hand plain values in.

use vstd::prelude::*;

pub mod authent;
pub mod catchup;
pub mod clock;
pub mod server;
pub mod settings;
pub mod playout;
pub mod worldsend;

verus! {

/// One discrete simulation step, identified by an increasing counter.
pub type Frame = u64;

/// Stable identifier of a connected player, distinct from its transport
/// endpoints.
pub type ClientId = u64;

/// Opaque token for a transport endpoint; minted and interpreted by the
/// caller that owns the actual sockets.
pub type EndpointToken = u64;

} // verus!
