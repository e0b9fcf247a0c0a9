//! The dispatcher's decisions: where an inbound announce request goes,
//! and which handler a socket readiness notification belongs to. The
//! readiness loop itself lives with the sockets, outside the library.

use vstd::prelude::*;
use vstd::string::StringExecFns;
use crate::errors::Error;
use crate::handler::{Handler, Response};
use crate::request::Announce;
use crate::urlparse::{parse_url, url_parts_of};

verus! {

/// What the dispatcher decides for one inbound announce request.
pub enum RouteOutcome {
    /// The announce was accepted: submit a DNS query for this host
    /// under the announce's connection id.
    Accepted { host: String },
    /// The URL names a UDP tracker: it belongs to the UDP handler,
    /// outside this engine.
    Udp(Announce),
    /// The request failed outright; this response goes to the client.
    Respond(Response),
    /// The request failed, but it was stopping: nothing is sent.
    Suppressed,
}

/// Route one announce request: parse its URL, refuse unknown schemes
/// and hostless URLs (silently when the announce is stopping), start
/// an HTTP announce otherwise.
pub fn handle_request(h: &mut Handler, id: usize, req: Announce, now: u64) -> (r: RouteOutcome)
    requires
        old(h).wf(),
        now >= old(h).clock,
        !old(h).contains_id(id),
    ensures
        final(h).wf(),
        (r matches RouteOutcome::Accepted { host } ==> (url_parts_of(req.url@) matches Some(t)
            && t.0 == "http"@ && (t.1 matches Some(hh) && host@ == hh) && final(h).contains_id(id)
            && final(h).record(id).torrent == req.id && final(h).record(id).stopping
            == req.is_stopping() && final(h).record(id).last_updated == now
            && final(h).conns().len() == old(h).conns().len() + 1)),
        (r matches RouteOutcome::Udp(a) ==> (a == req && final(h).conns() == old(h).conns()
            && (url_parts_of(req.url@) matches Some(t) && t.0 == "udp"@))),
        (r matches RouteOutcome::Respond(resp) ==> (!req.is_stopping() && resp.0 == req.id
            && (resp.1 matches Err(e) && e matches Error::InvalidRequest(_)) && final(h).conns()
            == old(h).conns())),
        (r matches RouteOutcome::Suppressed ==> (req.is_stopping() && final(h).conns()
            == old(h).conns())),
        (url_parts_of(req.url@) matches Some(t) ==> {
            &&& ((t.0 == "http"@ && t.1 is Some) ==> r is Accepted)
            &&& (t.0 == "udp"@ ==> (r matches RouteOutcome::Udp(a) && a == req))
            &&& (((t.0 != "http"@ && t.0 != "udp"@) || (t.0 == "http"@ && t.1 is None)) ==> ((
            req.is_stopping() ==> r is Suppressed) && (!req.is_stopping() ==> r is Respond)))
        }),
        (url_parts_of(req.url@) is None ==> ((req.is_stopping() ==> r is Suppressed) && (
        !req.is_stopping() ==> r is Respond))),
{
    proof {
        reveal_strlit("http");
        reveal_strlit("udp");
        assert("http"@.len() != "udp"@.len());
        assert("http"@ != "udp"@);
    }
    let stopping = req.stopping();
    let torrent = req.id;
    match parse_url(req.url.as_str()) {
        Some(parts) => {
            if parts.scheme == String::from_str("http") {
                match h.new_announce(id, req, &parts, now) {
                    Ok(()) => {
                        proof {
                            assert(h.conns().last() == h.conns()[h.conns().len() - 1]);
                            assert(h.contains_id(id));
                            let w = h.index_of(id);
                            assert(0 <= w < h.conns().len() && h.conns()[w].id == id);
                            assert(w == h.conns().len() - 1);
                        }
                        match parts.host {
                            Some(hs) => RouteOutcome::Accepted { host: hs },
                            None => vstd::pervasive::unreached(),
                        }
                    },
                    Err(e) => {
                        if stopping {
                            RouteOutcome::Suppressed
                        } else {
                            RouteOutcome::Respond((torrent, Err(e)))
                        }
                    },
                }
            } else if parts.scheme == String::from_str("udp") {
                RouteOutcome::Udp(req)
            } else {
                if stopping {
                    RouteOutcome::Suppressed
                } else {
                    RouteOutcome::Respond(
                        (
                            torrent,
                            Err(
                                Error::InvalidRequest(
                                    String::from_str("Unknown tracker url scheme!"),
                                ),
                            ),
                        ),
                    )
                }
            }
        },
        None => {
            if stopping {
                RouteOutcome::Suppressed
            } else {
                RouteOutcome::Respond(
                    (torrent, Err(Error::InvalidRequest(String::from_str("Invalid url!")))),
                )
            }
        },
    }
}

/// Which collaborator a readiness notification belongs to, judged by
/// the id spaces the dispatcher knows.
pub enum SocketOwner {
    Http,
    Udp,
    Dns,
    Unknown,
}

/// Classify a socket readiness notification the way the dispatcher
/// does: the HTTP handler first, then the UDP handler, then the
/// resolver.
pub fn classify_socket(http_owns: bool, udp_owns: bool, dns_owns: bool) -> (r: SocketOwner)
    ensures
        http_owns ==> r is Http,
        (!http_owns && udp_owns) ==> r is Udp,
        (!http_owns && !udp_owns && dns_owns) ==> r is Dns,
        (!http_owns && !udp_owns && !dns_owns) ==> r is Unknown,
{
    if http_owns {
        SocketOwner::Http
    } else if udp_owns {
        SocketOwner::Udp
    } else if dns_owns {
        SocketOwner::Dns
    } else {
        SocketOwner::Unknown
    }
}

} // verus!
