//! Event-driven HTTP-tracker announce engine for a BitTorrent client.
//!
//! The library holds the verified core: the wire codecs (compact peer
//! lists, bencoded tracker replies, the announce GET request), the
//! per-announce state machine, and the handler that owns the in-flight
//! announce records. The surrounding process (sockets, DNS, the
//! readiness loop) hands events in as plain values and performs the
//! actions the core asks for.

use vstd::prelude::*;

pub mod bencode;
pub mod dispatch;
pub mod errors;
pub mod handler;
pub mod machine;
pub mod peers;
pub mod request;
pub mod response;
pub mod urlparse;
pub mod util;

verus! {

/// Inactivity budget for one announce, in milliseconds: a record that
/// sees no event for longer than this is timed out at the next tick.
pub const TIMEOUT_MS: u64 = 2500;

} // verus!
