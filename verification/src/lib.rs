//! dsh mobile-access proxy.
//!
//! One TCP port. The first byte of a connection says what it is: a TLS client,
//! served HTTP/1.1, or a bridge dialling out, whose 37-byte preamble is followed
//! by a Noise_XX handshake. A client is spliced onto the addressed bridge's mux,
//! and the bytes inside belong to the two endpoints.
//!
//! The library holds what decides: the wire formats, the mux, the handshakes,
//! the pairing registry, the tunnel pool, admission and routing. It does no
//! input or output; bytes and events go in, bytes and actions come out.

pub mod admission;
pub mod buf;
pub mod cli;
pub mod crypto;
pub mod edge;
pub mod effects;
pub mod harness;
pub mod headers;
pub mod ledger;
pub mod mux;
pub mod noise;
pub mod pairing;
pub mod phone;
pub mod reply;
pub mod routing;
pub mod session;
pub mod splice;
pub mod state;
pub mod stream;
pub mod table;
pub mod text;
pub mod tls;
pub mod trace;
pub mod tunnel;
pub mod wire;
pub mod ws;

use std::time::Duration;

use vstd::prelude::*;

use crate::wire::MAX_STREAMS_PER_BRIDGE;

verus! {

/// The duration that `Duration::from_millis` makes of a number of milliseconds.
pub uninterp spec fn of_millis(millis: u64) -> Duration;

/// `Duration::from_millis` makes the duration of that many milliseconds.
pub assume_specification[ Duration::from_millis ](millis: u64) -> (duration: Duration)
    ensures
        duration == of_millis(millis),
;

/// Admission limits.
///
/// Registering a bridge is deliberately unauthenticated: possession of a static
/// key is proved by the handshake itself, and there is nothing to authenticate
/// against. So the only defence against one host filling the table is a
/// ceiling. The bounds are per-process, and those per address exist because a
/// single origin could otherwise claim everything.
#[derive(Debug, Clone, Copy)]
pub struct Limits {
    /// Most bridge links the process will hold at once.
    pub max_bridges: usize,
    /// Most bridge links one peer address may hold at once.
    pub max_bridges_per_ip: usize,
    /// Most TLS clients one peer address may hold at once.
    pub max_clients_per_ip: usize,
    /// Most streams one bridge will carry at once.
    pub max_streams_per_bridge: usize,
    /// Deadline for the whole Noise_XX handshake, not just the preamble.
    pub handshake_timeout: Duration,
}

impl Default for Limits {
    fn default() -> (limits: Self)
        ensures
            limits.max_bridges == 1024,
            limits.max_bridges_per_ip == 32,
            limits.max_clients_per_ip == 64,
            limits.max_streams_per_bridge == 2048,
            limits.handshake_timeout == of_millis(10_000),
    {
        Limits {
            max_bridges: 1024,
            max_bridges_per_ip: 32,
            max_clients_per_ip: 64,
            max_streams_per_bridge: MAX_STREAMS_PER_BRIDGE,
            handshake_timeout: Duration::from_millis(10_000),
        }
    }
}

} // verus!
