//! Error taxonomy of the announce engine. Every failure a caller can
//! see is one of these kinds; a stopping announce suppresses them all.

use vstd::prelude::*;

verus! {

/// Why an announce failed.
#[derive(Debug)]
pub enum Error {
    /// The announce URL could not be parsed, names no host, or has an
    /// unknown scheme.
    InvalidRequest(String),
    /// A socket-level fault, or an impossible state/event combination.
    IO,
    /// The resolver returned no address.
    DNS,
    /// The tracker reply is not bencode, not a dictionary, or lacks a
    /// required field.
    InvalidResponse(&'static str),
    /// The tracker itself refused the announce, with its own reason.
    TrackerError(String),
    /// No event touched the announce for longer than its budget.
    Timeout,
}

} // verus!
