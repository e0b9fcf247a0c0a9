//! The HTTP announce handler: owns every in-flight announce record,
//! keyed by connection id, and routes events into the records' state
//! machines.
//!
//! Time comes in as a monotonic millisecond count supplied by the
//! caller; each event refreshes the record's `last_updated`, and a
//! tick reaps every record that has been quiet for longer than
//! [`crate::TIMEOUT_MS`].

use vstd::prelude::*;
use vstd::string::{StringExecFns, StringSliceAdditionalSpecFns};
use crate::TIMEOUT_MS;
use crate::errors::Error;
use crate::machine::{Action, Event, ReadChunk, Step, TrackerState, step_rel};
use crate::request::{Announce, build_announce_request, spec_announce_request};
use crate::response::TrackerResponse;
use crate::urlparse::UrlParts;

verus! {

/// An announce response handed back to the rest of the client: the
/// caller's torrent id, and the outcome.
pub type Response = (usize, Result<TrackerResponse, Error>);

/// A finished DNS query, tagged with the connection id it belongs to.
pub struct QueryResponse {
    pub id: usize,
    pub res: Result<[u8; 4], Error>,
}

/// One in-flight announce record.
pub struct Tracker {
    /// The connection id: also the DNS query id and the poller's
    /// socket id.
    pub id: usize,
    /// The caller's torrent id, echoed back in the response.
    pub torrent: usize,
    /// A stopping announce never delivers an error response.
    pub stopping: bool,
    /// When the record last saw an event, in caller milliseconds.
    pub last_updated: u64,
    pub state: TrackerState,
}

/// What the handler hands back for one delivered event.
pub struct HandlerStep {
    pub response: Option<Response>,
    pub action: Action,
}

/// The map of live announces.
pub struct Handler {
    pub peer_id: [u8; 20],
    pub connections: Vec<Tracker>,
    /// The latest time this handler has seen.
    pub clock: u64,
}

/// A record is still within its inactivity budget at `now`.
pub open spec fn spec_live(t: Tracker, now: u64) -> bool {
    now - t.last_updated <= TIMEOUT_MS
}

/// The records a tick keeps, in order.
pub open spec fn spec_tick_keep(s: Seq<Tracker>, now: u64) -> Seq<Tracker>
    decreases s.len(),
{
    if s.len() == 0 {
        Seq::empty()
    } else {
        (if spec_live(s[0], now) {
            seq![s[0]]
        } else {
            Seq::empty()
        }) + spec_tick_keep(s.drop_first(), now)
    }
}

/// The timeout responses a tick emits: one per reaped record, in
/// order, except for stopping announces, which fail silently.
pub open spec fn spec_tick_resps(s: Seq<Tracker>, now: u64) -> Seq<Response>
    decreases s.len(),
{
    if s.len() == 0 {
        Seq::empty()
    } else {
        (if !spec_live(s[0], now) && !s[0].stopping {
            seq![(s[0].torrent, Err::<TrackerResponse, Error>(Error::Timeout))]
        } else {
            Seq::empty()
        }) + spec_tick_resps(s.drop_first(), now)
    }
}

impl Handler {
    pub open spec fn conns(&self) -> Seq<Tracker> {
        self.connections@
    }

    /// A connection id names at most one record.
    pub open spec fn contains_id(&self, id: usize) -> bool {
        exists|i: int| 0 <= i < self.conns().len() && self.conns()[i].id == id
    }

    pub open spec fn index_of(&self, id: usize) -> int {
        choose|i: int| 0 <= i < self.conns().len() && self.conns()[i].id == id
    }

    pub open spec fn record(&self, id: usize) -> Tracker
        recommends
            self.contains_id(id),
    {
        self.conns()[self.index_of(id)]
    }

    /// The handler's invariant: ids are unique, every live record's
    /// machine is well-formed and not terminal, and no record's
    /// timestamp is ahead of the handler's clock.
    pub open spec fn wf(&self) -> bool {
        &&& (forall|i: int, j: int|
            0 <= i < j < self.conns().len() ==> self.conns()[i].id != self.conns()[j].id)
        &&& (forall|i: int|
            0 <= i < self.conns().len() ==> {
                &&& (#[trigger] self.conns()[i]).state.wf()
                &&& !self.conns()[i].state.is_terminal()
                &&& self.conns()[i].last_updated <= self.clock
            })
    }

    pub fn new(peer_id: [u8; 20]) -> (r: Handler)
        ensures
            r.wf(),
            r.conns().len() == 0,
            r.peer_id@ == peer_id@,
            r.clock == 0,
    {
        Handler { peer_id, connections: Vec::new(), clock: 0 }
    }

    fn find_index(&self, id: usize) -> (r: Option<usize>)
        requires
            self.wf(),
        ensures
            (r matches Some(i) ==> (self.contains_id(id) && i == self.index_of(id) && i
                < self.conns().len() && self.conns()[i as int].id == id)),
            (r is None ==> !self.contains_id(id)),
    {
        let mut i: usize = 0;
        while i < self.connections.len()
            invariant
                self.wf(),
                i <= self.conns().len(),
                forall|j: int| 0 <= j < i ==> self.conns()[j].id != id,
            decreases self.conns().len() - i,
        {
            if self.connections[i].id == id {
                proof {
                    assert(self.contains_id(id));
                    let w = self.index_of(id);
                    assert(0 <= w < self.conns().len() && self.conns()[w].id == id);
                    assert(w == i as int);
                }
                return Some(i);
            }
            i = i + 1;
        }
        None
    }

    /// Membership test the dispatcher uses to route socket events.
    pub fn contains(&self, id: usize) -> (r: bool)
        requires
            self.wf(),
        ensures
            r == self.contains_id(id),
    {
        match self.find_index(id) {
            Some(_) => true,
            None => false,
        }
    }

    /// The request bytes still owed to the socket of `id`, when that
    /// announce is in its writing state.
    pub fn pending_write(&self, id: usize) -> (r: Option<Vec<u8>>)
        requires
            self.wf(),
        ensures
            (self.contains_id(id) ==> (self.record(id).state matches TrackerState::Writing {
                writer,
            } ==> (r matches Some(v) && v@ == writer.remaining()))),
            ((self.contains_id(id) && !(self.record(id).state is Writing)) ==> r is None),
            (!self.contains_id(id) ==> r is None),
    {
        match self.find_index(id) {
            Some(i) => {
                match &self.connections[i].state {
                    TrackerState::Writing { writer } => Some(
                        vstd::slice::slice_to_vec(writer.pending()),
                    ),
                    _ => None,
                }
            },
            None => None,
        }
    }

    /// Start a new announce: build the GET request, record the
    /// announce under the caller-allocated connection id, and hand the
    /// host back so the caller can submit the DNS query under the same
    /// id. Fails, touching nothing, when the URL names no host.
    pub fn new_announce(&mut self, id: usize, req: Announce, url: &UrlParts, now: u64) -> (r:
        Result<(), Error>)
        requires
            old(self).wf(),
            now >= old(self).clock,
            !old(self).contains_id(id),
        ensures
            final(self).wf(),
            final(self).peer_id@ == old(self).peer_id@,
            final(self).clock == now,
            (url.host is None ==> (r matches Err(e) && e matches Error::InvalidRequest(_)
                && final(self).conns() == old(self).conns())),
            (url.host matches Some(h) ==> (r is Ok && final(self).conns().len()
                == old(self).conns().len() + 1 && final(self).conns().subrange(
                0,
                old(self).conns().len() as int,
            ) == old(self).conns() && {
                let t = final(self).conns().last();
                &&& t.id == id
                &&& t.torrent == req.id
                &&& t.stopping == req.is_stopping()
                &&& t.last_updated == now
                &&& (t.state matches TrackerState::ResolvingDNS { req: rb, port: p } && rb@
                    == spec_announce_request(
                    req.hash@,
                    old(self).peer_id@,
                    req.uploaded,
                    req.downloaded,
                    req.left,
                    req.port,
                    req.event,
                    vstd::utf8::encode_utf8(url.path@),
                    vstd::utf8::encode_utf8(h@),
                ) && p == spec_url_port(url))
            })),
    {
        self.clock = now;
        let host = match &url.host {
            Some(h) => h,
            None => {
                return Err(
                    Error::InvalidRequest(String::from_str("Tracker announce url has no host!")),
                );
            },
        };
        let http_req = build_announce_request(&req, &self.peer_id, url.path.as_str(),
            host.as_str());
        let port: u16 = match url.port {
            Some(p) => p,
            None => 80,
        };
        let stopping = req.stopping();
        self.connections.push(
            Tracker {
                id,
                torrent: req.id,
                stopping,
                last_updated: now,
                state: TrackerState::new(http_req, port),
            },
        );
        proof {
            assert(self.conns().subrange(0, old(self).conns().len() as int) =~= old(self).conns());
        }
        Ok(())
    }

    fn deliver(&mut self, id: usize, event: Event, now: u64) -> (r: HandlerStep)
        requires
            old(self).wf(),
            now >= old(self).clock,
            (old(self).contains_id(id) ==> (old(self).record(id).state matches
                TrackerState::Writing { writer } ==> (event matches Event::Writable(res) ==> (res
                matches Ok(n) ==> n <= writer.remaining().len())))),
        ensures
            final(self).wf(),
            deliver_rel(*old(self), *final(self), id, event, now, r),
    {
        self.clock = now;
        let idx = match self.find_index(id) {
            Some(i) => i,
            None => {
                return HandlerStep { response: None, action: Action::Wait };
            },
        };
        let ghost pre = *old(self);
        let mut rec = self.connections.remove(idx);
        rec.last_updated = now;
        let ghost pre_state = rec.state;
        let res = rec.state.handle(event);
        match res {
            Ok(step) => {
                let Step { response, action } = step;
                match response {
                    Some(t) => {
                        proof {
                            assert(self.conns() =~= pre.conns().remove(idx as int));
                        }
                        HandlerStep { response: Some((rec.torrent, Ok(t))), action }
                    },
                    None => {
                        self.connections.insert(idx, rec);
                        proof {
                            assert(self.conns() =~= pre.conns().update(
                                idx as int,
                                self.conns()[idx as int],
                            ));
                        }
                        HandlerStep { response: None, action }
                    },
                }
            },
            Err(e) => {
                proof {
                    assert(self.conns() =~= pre.conns().remove(idx as int));
                }
                if rec.stopping {
                    proof {
                        assert(step_rel(pre_state, event, Err(e), TrackerState::Error));
                    }
                    HandlerStep { response: None, action: Action::Wait }
                } else {
                    HandlerStep { response: Some((rec.torrent, Err(e))), action: Action::Wait }
                }
            },
        }
    }

    /// The socket of `id` became readable; `res` carries what the read
    /// produced.
    pub fn readable(&mut self, id: usize, res: Result<ReadChunk, Error>, now: u64) -> (r:
        HandlerStep)
        requires
            old(self).wf(),
            now >= old(self).clock,
        ensures
            final(self).wf(),
            deliver_rel(*old(self), *final(self), id, Event::Readable(res), now, r),
    {
        self.deliver(id, Event::Readable(res), now)
    }

    /// The socket of `id` became writable; `res` carries how many of
    /// the offered bytes it accepted.
    pub fn writable(&mut self, id: usize, res: Result<usize, Error>, now: u64) -> (r: HandlerStep)
        requires
            old(self).wf(),
            now >= old(self).clock,
            (old(self).contains_id(id) ==> (old(self).record(id).state matches
                TrackerState::Writing { writer } ==> (res matches Ok(n) ==> n
                <= writer.remaining().len()))),
        ensures
            final(self).wf(),
            deliver_rel(*old(self), *final(self), id, Event::Writable(res), now, r),
    {
        self.deliver(id, Event::Writable(res), now)
    }

    /// A DNS query finished for the record that owns its id.
    pub fn dns_resolved(&mut self, resp: QueryResponse, now: u64) -> (r: HandlerStep)
        requires
            old(self).wf(),
            now >= old(self).clock,
        ensures
            final(self).wf(),
            deliver_rel(*old(self), *final(self), resp.id, Event::DnsResolved(resp.res), now, r),
    {
        let QueryResponse { id, res } = resp;
        self.deliver(id, Event::DnsResolved(res), now)
    }

    /// Reap every record that has been quiet for longer than the
    /// timeout, and emit a Timeout response for each reaped announce
    /// that was not stopping. No surviving record is older than the
    /// budget.
    pub fn tick(&mut self, now: u64) -> (r: Vec<Response>)
        requires
            old(self).wf(),
            now >= old(self).clock,
        ensures
            final(self).wf(),
            final(self).clock == now,
            final(self).peer_id@ == old(self).peer_id@,
            final(self).conns() == spec_tick_keep(old(self).conns(), now),
            r@ == spec_tick_resps(old(self).conns(), now),
            forall|i: int|
                0 <= i < final(self).conns().len() ==> now - (#[trigger] final(self).conns()[i]).last_updated
                    <= TIMEOUT_MS,
    {
        self.clock = now;
        let ghost g = self.connections@;
        let mut kept: Vec<Tracker> = Vec::new();
        let mut resps: Vec<Response> = Vec::new();
        proof {
            assert(spec_tick_keep(g, now) =~= kept@ + spec_tick_keep(self.connections@, now));
            assert(spec_tick_resps(g, now) =~= resps@ + spec_tick_resps(self.connections@, now));
        }
        while self.connections.len() > 0
            invariant
                self.clock == now,
                self.peer_id@ == old(self).peer_id@,
                spec_tick_keep(g, now) == kept@ + spec_tick_keep(self.connections@, now),
                spec_tick_resps(g, now) == resps@ + spec_tick_resps(self.connections@, now),
                forall|i: int|
                    0 <= i < self.connections@.len() ==> {
                        &&& (#[trigger] self.connections@[i]).state.wf()
                        &&& !self.connections@[i].state.is_terminal()
                        &&& self.connections@[i].last_updated <= now
                    },
                forall|i: int, j: int|
                    0 <= i < j < self.connections@.len() ==> self.connections@[i].id
                        != self.connections@[j].id,
                forall|i: int|
                    0 <= i < kept@.len() ==> {
                        &&& (#[trigger] kept@[i]).state.wf()
                        &&& !kept@[i].state.is_terminal()
                        &&& kept@[i].last_updated <= now
                        &&& now - kept@[i].last_updated <= TIMEOUT_MS
                    },
                forall|i: int, j: int|
                    0 <= i < j < kept@.len() ==> kept@[i].id != kept@[j].id,
                forall|i: int, j: int|
                    0 <= i < kept@.len() && 0 <= j < self.connections@.len() ==> (#[trigger] kept@[i]).id
                        != (#[trigger] self.connections@[j]).id,
            decreases self.connections@.len(),
        {
            let ghost before = self.connections@;
            let t = self.connections.remove(0);
            proof {
                assert(self.connections@ =~= before.drop_first());
            }
            let expired = now - t.last_updated > TIMEOUT_MS;
            if expired {
                if !t.stopping {
                    resps.push((t.torrent, Err(Error::Timeout)));
                }
            } else {
                kept.push(t);
            }
        }
        proof {
            assert(spec_tick_keep(self.connections@, now) =~= Seq::<Tracker>::empty());
            assert(spec_tick_resps(self.connections@, now) =~= Seq::<Response>::empty());
            assert(kept@ =~= spec_tick_keep(g, now));
            assert(resps@ =~= spec_tick_resps(g, now));
        }
        self.connections = kept;
        resps
    }
}

/// How one delivered event changes the handler. Exactly one of three
/// things happens: the id is unknown and nothing changes; the record
/// advances in place with its timestamp refreshed; or the record is
/// removed, with at most one response, whose torrent id is the
/// record's, and never an error response for a stopping announce.
pub open spec fn deliver_rel(
    pre: Handler,
    post: Handler,
    id: usize,
    event: Event,
    now: u64,
    r: HandlerStep,
) -> bool {
    &&& post.peer_id@ == pre.peer_id@
    &&& post.clock == now
    &&& (!pre.contains_id(id) ==> (r.response is None && r.action is Wait && post.conns()
        == pre.conns()))
    &&& (pre.contains_id(id) ==> {
        let i = pre.index_of(id);
        let rec = pre.record(id);
        &&& (post.contains_id(id) ==> {
            let rec2 = post.record(id);
            &&& post.conns() == pre.conns().update(i, rec2)
            &&& post.index_of(id) == i
            &&& rec2.id == id
            &&& rec2.torrent == rec.torrent
            &&& rec2.stopping == rec.stopping
            &&& rec2.last_updated == now
            &&& r.response is None
            &&& step_rel(
                rec.state,
                event,
                Ok(Step { response: None, action: r.action }),
                rec2.state,
            )
        })
        &&& (!post.contains_id(id) ==> {
            &&& post.conns() == pre.conns().remove(i)
            &&& (r.response matches Some(resp) ==> {
                &&& resp.0 == rec.torrent
                &&& (resp.1 is Err ==> !rec.stopping)
                &&& (resp.1 matches Ok(t) ==> step_rel(
                    rec.state,
                    event,
                    Ok(Step { response: Some(t), action: r.action }),
                    TrackerState::Error,
                ))
                &&& (resp.1 matches Err(e) ==> step_rel(
                    rec.state,
                    event,
                    Err(e),
                    TrackerState::Error,
                ))
            })
            &&& (r.response is None ==> (rec.stopping && exists|e: Error|
                step_rel(rec.state, event, Err(e), TrackerState::Error)))
        })
    })
}

/// At most one response per announce: an event for an unknown id
/// yields nothing and changes nothing, and an emitted response removes
/// the record (so no later event can yield another), echoing the
/// record's torrent id.
pub proof fn lemma_at_most_one_response(
    pre: Handler,
    post: Handler,
    id: usize,
    event: Event,
    now: u64,
    r: HandlerStep,
)
    requires
        deliver_rel(pre, post, id, event, now, r),
    ensures
        r.response is Some ==> !post.contains_id(id),
        !pre.contains_id(id) ==> (r.response is None && post.conns() == pre.conns()),
        pre.contains_id(id) ==> (r.response matches Some(resp) ==> resp.0 == pre.record(
            id,
        ).torrent),
{
}

/// A stopping announce never yields an error response: its failures,
/// of any kind, are suppressed.
pub proof fn lemma_stopping_suppressed(
    pre: Handler,
    post: Handler,
    id: usize,
    event: Event,
    now: u64,
    r: HandlerStep,
)
    requires
        deliver_rel(pre, post, id, event, now, r),
        pre.contains_id(id) ==> pre.record(id).stopping,
    ensures
        r.response matches Some(resp) ==> resp.1 is Ok,
{
}

/// `last_updated` is monotonically non-decreasing per record: every
/// record that survives an event either kept its timestamp or had it
/// refreshed to `now`, which is no earlier than anything the handler
/// has seen.
pub proof fn lemma_last_updated_monotone(
    pre: Handler,
    post: Handler,
    id: usize,
    event: Event,
    now: u64,
    r: HandlerStep,
)
    requires
        pre.wf(),
        now >= pre.clock,
        deliver_rel(pre, post, id, event, now, r),
    ensures
        forall|i: int|
            0 <= i < post.conns().len() ==> exists|j: int|
                0 <= j < pre.conns().len() && pre.conns()[j].id == (#[trigger] post.conns()[i]).id
                    && post.conns()[i].last_updated >= pre.conns()[j].last_updated,
{
    if !pre.contains_id(id) {
        assert forall|i: int| 0 <= i < post.conns().len() implies exists|j: int|
            0 <= j < pre.conns().len() && pre.conns()[j].id == (#[trigger] post.conns()[i]).id
                && post.conns()[i].last_updated >= pre.conns()[j].last_updated by {
            assert(pre.conns()[i].id == post.conns()[i].id && post.conns()[i].last_updated
                >= pre.conns()[i].last_updated);
        }
    } else {
        let k = pre.index_of(id);
        if post.contains_id(id) {
            assert forall|i: int| 0 <= i < post.conns().len() implies exists|j: int|
                0 <= j < pre.conns().len() && pre.conns()[j].id == (#[trigger] post.conns()[i]).id
                    && post.conns()[i].last_updated >= pre.conns()[j].last_updated by {
                if i == k {
                    assert(pre.conns()[k].id == post.conns()[i].id && post.conns()[i].last_updated
                        >= pre.conns()[k].last_updated);
                } else {
                    assert(pre.conns()[i].id == post.conns()[i].id && post.conns()[
                        i
                    ].last_updated >= pre.conns()[i].last_updated);
                }
            }
        } else {
            assert forall|i: int| 0 <= i < post.conns().len() implies exists|j: int|
                0 <= j < pre.conns().len() && pre.conns()[j].id == (#[trigger] post.conns()[i]).id
                    && post.conns()[i].last_updated >= pre.conns()[j].last_updated by {
                if i < k {
                    assert(pre.conns()[i].id == post.conns()[i].id && post.conns()[
                        i
                    ].last_updated >= pre.conns()[i].last_updated);
                } else {
                    assert(pre.conns()[i + 1].id == post.conns()[i].id && post.conns()[
                        i
                    ].last_updated >= pre.conns()[i + 1].last_updated);
                }
            }
        }
    }
}

/// The port the connect address uses: the URL's, or 80.
pub open spec fn spec_url_port(url: &UrlParts) -> u16 {
    match url.port {
        Some(p) => p,
        None => 80,
    }
}

} // verus!
