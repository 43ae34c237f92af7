//! Core of a multiplayer vehicle-simulation server: the wire codec for the
//! tagged command protocol, the authoritative vehicle registry with its
//! per-client local-id namespaces, the chunked file-transfer encoder and
//! receiver, and the session/event router that keeps every client's view of
//! the shared world converged.
use vstd::prelude::*;

pub mod codec;
pub mod commands;
pub mod config;
pub mod file_transfer;
pub mod registry;
mod rng;
pub mod server;
pub mod util;
pub mod vehicle;
pub mod wire;

verus! {

/// Protocol version carried in the handshake; a mismatch closes the connection.
pub const VERSION: (u32, u32) = (0, 6);

/// The rule clients follow to order bundled vehicle updates that arrive on the
/// unordered channel: an update is applied only when its generation counter is
/// strictly newer than the last applied one; stale arrivals are discarded.
pub fn should_apply_update(last_generation: u64, incoming_generation: u64) -> (r: bool)
    ensures
        r == (incoming_generation > last_generation),
{
    incoming_generation > last_generation
}

} // verus!
