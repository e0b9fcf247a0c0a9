//! The tracker's reply: a bencoded dictionary turned into a peer list,
//! refresh interval and swarm counts, or a typed error.

use vstd::prelude::*;
use vstd::string::StringSliceAdditionalSpecFns;
use vstd::utf8::{valid_utf8, decode_utf8};
use crate::bencode::{BEncode, spec_dict_get, dict_get, decode_buf, enc};
use crate::errors::Error;
use crate::peers::{PeerAddr, spec_parse_peers, parse_peers};

verus! {

/// A successful announce outcome.
#[derive(Debug)]
pub struct TrackerResponse {
    /// Peer addresses, in the order the tracker listed them.
    pub peers: Vec<PeerAddr>,
    /// Seconds until the next announce.
    pub interval: u32,
    pub leechers: u32,
    pub seeders: u32,
}

/// The `failure reason` byte string, when the dictionary carries one.
pub open spec fn spec_failure_str(d: Seq<(Vec<u8>, BEncode)>) -> Option<Seq<u8>> {
    match spec_dict_get(d, "failure reason".spec_bytes()) {
        Some(BEncode::Str(s)) => Some(s@),
        _ => None,
    }
}

/// The compact `peers` byte string, when present as a byte string.
pub open spec fn spec_peers_str(d: Seq<(Vec<u8>, BEncode)>) -> Option<Seq<u8>> {
    match spec_dict_get(d, "peers".spec_bytes()) {
        Some(BEncode::Str(s)) => Some(s@),
        _ => None,
    }
}

/// The `interval` integer, when present as an integer.
pub open spec fn spec_interval(d: Seq<(Vec<u8>, BEncode)>) -> Option<i64> {
    match spec_dict_get(d, "interval".spec_bytes()) {
        Some(BEncode::Int(i)) => Some(i),
        _ => None,
    }
}

/// An optional swarm count: its integer value truncated to 32 bits if
/// the key holds an integer, zero otherwise.
pub open spec fn spec_count(d: Seq<(Vec<u8>, BEncode)>, key: Seq<u8>) -> u32 {
    match spec_dict_get(d, key) {
        Some(BEncode::Int(i)) => i as u32,
        _ => 0,
    }
}

/// Exactly how a bencode tree maps to an announce outcome.
pub open spec fn response_rel(data: BEncode, r: Result<TrackerResponse, Error>) -> bool {
    &&& (!(data matches BEncode::Dict(_)) ==> (r matches Err(e) && e matches
        Error::InvalidResponse(_)))
    &&& (data matches BEncode::Dict(d) ==> {
        &&& (spec_failure_str(d@) matches Some(fs) ==> {
            &&& (valid_utf8(fs) ==> (r matches Err(e) && e matches Error::TrackerError(m) && m@
                == decode_utf8(fs)))
            &&& (!valid_utf8(fs) ==> (r matches Err(e) && e matches Error::InvalidResponse(_)))
        })
        &&& (spec_failure_str(d@) is None ==> {
            &&& (spec_peers_str(d@) matches Some(p) ==> (p.len() % 6 == 0 ==> (spec_interval(d@)
                matches Some(iv) ==> (r matches Ok(t) && t.peers@ == spec_parse_peers(p)
                && t.interval == iv as u32 && t.leechers == spec_count(
                d@,
                "leechers".spec_bytes(),
            ) && t.seeders == spec_count(d@, "seeders".spec_bytes())))))
            &&& (spec_peers_str(d@) is None ==> (r matches Err(e) && e matches
                Error::InvalidResponse(_)))
            &&& (spec_peers_str(d@) matches Some(p) ==> (p.len() % 6 != 0 ==> (r matches Err(e)
                && e matches Error::InvalidResponse(_))))
            &&& ((spec_peers_str(d@) matches Some(p) && p.len() % 6 == 0) ==> (spec_interval(d@)
                is None ==> (r matches Err(e) && e matches Error::InvalidResponse(_))))
        })
    })
}

impl TrackerResponse {
    /// The defaults a reply is filled from: no peers, a 900 second
    /// interval, empty swarm counts.
    pub fn empty() -> (r: TrackerResponse)
        ensures
            r.peers@.len() == 0,
            r.interval == 900,
            r.leechers == 0,
            r.seeders == 0,
    {
        TrackerResponse { peers: Vec::new(), interval: 900, leechers: 0, seeders: 0 }
    }

    /// Read an announce outcome off a decoded bencode tree.
    ///
    /// A `failure reason` byte string wins over everything else and
    /// becomes a `TrackerError` with the tracker's own words; then
    /// `peers` (a byte string of 6-byte groups) and `interval` (an
    /// integer) are both required; `leechers` and `seeders` default
    /// to zero.
    pub fn from_bencode(data: BEncode) -> (r: Result<TrackerResponse, Error>)
        ensures
            response_rel(data, r),
    {
        let d = match data {
            BEncode::Dict(d) => d,
            _ => {
                return Err(
                    Error::InvalidResponse("Tracker response must be a dictionary type!"),
                );
            },
        };
        match dict_get(&d, "failure reason".as_bytes()) {
            Some(BEncode::Str(s)) => {
                return match crate::util::bytes_to_utf8(s.as_slice()) {
                    Some(reason) => Err(Error::TrackerError(reason)),
                    None => Err(Error::InvalidResponse("Failure reason must be UTF8!")),
                };
            },
            _ => {},
        }
        let peers: Vec<PeerAddr> = match dict_get(&d, "peers".as_bytes()) {
            Some(BEncode::Str(p)) => {
                match parse_peers(p.as_slice()) {
                    Some(v) => v,
                    None => {
                        return Err(
                            Error::InvalidResponse("Peer list length must be a multiple of 6!"),
                        );
                    },
                }
            },
            _ => {
                return Err(Error::InvalidResponse("Response must have peers field!"));
            },
        };
        let interval: u32 = match dict_get(&d, "interval".as_bytes()) {
            Some(BEncode::Int(i)) => *i as u32,
            _ => {
                return Err(Error::InvalidResponse("Response must have interval!"));
            },
        };
        let leechers: u32 = match dict_get(&d, "leechers".as_bytes()) {
            Some(BEncode::Int(i)) => *i as u32,
            _ => 0,
        };
        let seeders: u32 = match dict_get(&d, "seeders".as_bytes()) {
            Some(BEncode::Int(i)) => *i as u32,
            _ => 0,
        };
        Ok(TrackerResponse { peers, interval, leechers, seeders })
    }
}

/// What a finished read of a tracker connection yields: the outcome of
/// a bencode tree whose encoding starts the body, or, exactly when no
/// tree's encoding does, an invalid-response error.
pub open spec fn parse_response_rel(body: Seq<u8>, r: Result<TrackerResponse, Error>) -> bool {
    ||| (exists|v: BEncode| (#[trigger] enc(v)).is_prefix_of(body) && response_rel(v, r))
    ||| (!(exists|v: BEncode| (#[trigger] enc(v)).is_prefix_of(body)) && (r matches Err(e) && e
        matches Error::InvalidResponse(_)))
}

/// Decode and read a complete response body.
pub fn parse_response(body: &[u8]) -> (r: Result<TrackerResponse, Error>)
    ensures
        parse_response_rel(body@, r),
{
    match decode_buf(body) {
        Ok(v) => {
            let ghost gv = v;
            let res = TrackerResponse::from_bencode(v);
            proof {
                assert(enc(gv).is_prefix_of(body@) && response_rel(gv, res));
            }
            res
        },
        Err(e) => Err(e),
    }
}

} // verus!
