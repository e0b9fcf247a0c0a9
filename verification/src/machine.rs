//! The per-announce state machine.
//!
//! Sockets and DNS live outside the library; every event carries the
//! plain outcome of the outside work (the resolved address, how many
//! bytes the socket accepted, the bytes a read produced), and every
//! step returns the action the surrounding loop should attempt next.
//! The whole transition table is [`step_rel`].

use vstd::prelude::*;
use crate::errors::Error;
use crate::response::{TrackerResponse, parse_response, parse_response_rel};

verus! {

/// Drains a prepared request buffer across possibly many writable
/// events: `idx` bytes are already on the wire.
pub struct Writer {
    pub buf: Vec<u8>,
    pub idx: usize,
}

impl Writer {
    pub open spec fn wf(&self) -> bool {
        self.idx <= self.buf@.len()
    }

    /// The bytes still owed to the socket.
    pub open spec fn remaining(&self) -> Seq<u8> {
        self.buf@.skip(self.idx as int)
    }

    pub fn new(buf: Vec<u8>) -> (r: Writer)
        ensures
            r.wf(),
            r.buf == buf,
            r.idx == 0,
    {
        Writer { buf, idx: 0 }
    }

    /// The slice to offer the socket on the next writable event.
    pub fn pending<'a>(&'a self) -> (r: &'a [u8])
        requires
            self.wf(),
        ensures
            r@ == self.remaining(),
    {
        vstd::slice::slice_subrange(self.buf.as_slice(), self.idx, self.buf.len())
    }
}

/// Accumulates response bytes until the peer closes its write half.
pub struct Reader {
    pub buf: Vec<u8>,
}

/// What a read produced: the bytes the socket yielded without
/// blocking, and whether end-of-stream was reached.
pub struct ReadChunk {
    pub data: Vec<u8>,
    pub eof: bool,
}

/// An event delivered to one announce, carrying the outside outcome.
pub enum Event {
    /// The resolver finished: an IPv4 address, or its error.
    DnsResolved(Result<[u8; 4], Error>),
    /// The socket was writable and accepted this many of the offered
    /// bytes (zero when the write would block), or failed.
    Writable(Result<usize, Error>),
    /// The socket was readable, or failed.
    Readable(Result<ReadChunk, Error>),
}

/// What the surrounding loop should do after a step.
pub enum Action {
    /// Nothing: wait for the next readiness event.
    Wait,
    /// Start a non-blocking connect to this address, then attempt a
    /// write at once.
    Connect([u8; 4], u16),
    /// The request is fully sent: attempt a read at once.
    TryRead,
}

/// One step's yield: at most one response, and the next action.
pub struct Step {
    pub response: Option<TrackerResponse>,
    pub action: Action,
}

/// The five states of one announce.
pub enum TrackerState {
    /// Transient marker; a live record is never in this state.
    Error,
    /// DNS query outstanding; the request bytes wait with the port.
    ResolvingDNS { req: Vec<u8>, port: u16 },
    /// Connect initiated; draining the request buffer.
    Writing { writer: Writer },
    /// Request sent; accumulating the reply.
    Reading { reader: Reader },
    /// Terminal success.
    Complete(TrackerResponse),
}

impl TrackerState {
    pub open spec fn is_terminal(&self) -> bool {
        self matches TrackerState::Error || self matches TrackerState::Complete(_)
    }

    pub open spec fn wf(&self) -> bool {
        self matches TrackerState::Writing { writer } ==> writer.wf()
    }

    pub fn new(req: Vec<u8>, port: u16) -> (r: TrackerState)
        ensures
            r == (TrackerState::ResolvingDNS { req, port }),
            r.wf(),
            !r.is_terminal(),
    {
        TrackerState::ResolvingDNS { req, port }
    }
}

/// The transition table: how a state and an event determine the next
/// state, the result, and the action. Terminal states are never
/// re-entered (an event on one is an IO-class fault), so an announce
/// yields at most one response.
pub open spec fn step_rel(
    pre: TrackerState,
    event: Event,
    r: Result<Step, Error>,
    post: TrackerState,
) -> bool {
    &&& (pre.is_terminal() ==> (r matches Err(e) && e matches Error::IO && post matches
        TrackerState::Error))
    &&& (pre matches TrackerState::ResolvingDNS { req, port } ==> {
        &&& (event matches Event::DnsResolved(dr) ==> {
            &&& (dr matches Ok(ip) ==> (r matches Ok(st) && st.response is None && st.action
                == Action::Connect(ip, port) && (post matches TrackerState::Writing { writer }
                && writer.buf == req && writer.idx == 0)))
            &&& (dr matches Err(e) ==> (r matches Err(e2) && e2 == e && post matches
                TrackerState::Error))
        })
        &&& (!(event matches Event::DnsResolved(_)) ==> (r matches Ok(st) && st.response is None
            && st.action is Wait && post == pre))
    })
    &&& (pre matches TrackerState::Writing { writer } ==> {
        &&& (event matches Event::Writable(res) ==> {
            &&& (res matches Ok(n) ==> {
                &&& (n < writer.remaining().len() ==> (r matches Ok(st) && st.response is None
                    && st.action is Wait && (post matches TrackerState::Writing { writer: w2 }
                    && w2.buf == writer.buf && w2.idx == writer.idx + n)))
                &&& (n >= writer.remaining().len() ==> (r matches Ok(st) && st.response is None
                    && st.action is TryRead && (post matches TrackerState::Reading { reader }
                    && reader.buf@ == Seq::<u8>::empty())))
            })
            &&& (res matches Err(e) ==> (r matches Err(e2) && e2 == e && post matches
                TrackerState::Error))
        })
        &&& (event matches Event::Readable(_) ==> (r matches Ok(st) && st.response is None
            && st.action is Wait && post == pre))
        &&& (event matches Event::DnsResolved(_) ==> (r matches Err(e) && e matches Error::IO
            && post matches TrackerState::Error))
    })
    &&& (pre matches TrackerState::Reading { reader } ==> {
        &&& (event matches Event::Readable(res) ==> {
            &&& (res matches Ok(chunk) ==> {
                &&& (!chunk.eof ==> (r matches Ok(st) && st.response is None && st.action is Wait
                    && (post matches TrackerState::Reading { reader: r2 } && r2.buf@ == reader.buf@
                    + chunk.data@)))
                &&& (chunk.eof ==> {
                    &&& (r matches Ok(st) ==> (st.response matches Some(t) && parse_response_rel(
                        reader.buf@ + chunk.data@,
                        Ok(t),
                    ) && post matches TrackerState::Error))
                    &&& (r matches Err(e) ==> (parse_response_rel(reader.buf@ + chunk.data@, Err(e))
                        && post matches TrackerState::Error))
                })
            })
            &&& (res matches Err(e) ==> (r matches Err(e2) && e2 == e && post matches
                TrackerState::Error))
        })
        &&& (event matches Event::Writable(_) ==> (r matches Ok(st) && st.response is None
            && st.action is Wait && post == pre))
        &&& (event matches Event::DnsResolved(_) ==> (r matches Err(e) && e matches Error::IO
            && post matches TrackerState::Error))
    })
}

impl TrackerState {
    /// Drive one event through the machine. A writable outcome may not
    /// claim more bytes than were offered.
    pub fn handle(&mut self, event: Event) -> (r: Result<Step, Error>)
        requires
            old(self).wf(),
            ((*old(self)) matches TrackerState::Writing { writer } ==> (event
                matches Event::Writable(res) ==> (res matches Ok(n) ==> n
                <= writer.remaining().len()))),
        ensures
            final(self).wf(),
            step_rel(*old(self), event, r, *final(self)),
            (r matches Ok(st) && st.response is Some) ==> final(self).is_terminal(),
            r is Err ==> (*final(self)) matches TrackerState::Error,
    {
        let mut s = TrackerState::Error;
        core::mem::swap(&mut s, self);
        match (s, event) {
            (TrackerState::ResolvingDNS { req, port }, Event::DnsResolved(dr)) => {
                match dr {
                    Ok(ip) => {
                        *self = TrackerState::Writing { writer: Writer::new(req) };
                        Ok(Step { response: None, action: Action::Connect(ip, port) })
                    },
                    Err(e) => Err(e),
                }
            },
            (TrackerState::ResolvingDNS { req, port }, _) => {
                *self = TrackerState::ResolvingDNS { req, port };
                Ok(Step { response: None, action: Action::Wait })
            },
            (TrackerState::Writing { writer }, Event::Writable(res)) => {
                match res {
                    Ok(n) => {
                        let rem = writer.buf.len() - writer.idx;
                        if n >= rem {
                            *self = TrackerState::Reading { reader: Reader { buf: Vec::new() } };
                            Ok(Step { response: None, action: Action::TryRead })
                        } else {
                            *self = TrackerState::Writing {
                                writer: Writer { buf: writer.buf, idx: writer.idx + n },
                            };
                            Ok(Step { response: None, action: Action::Wait })
                        }
                    },
                    Err(e) => Err(e),
                }
            },
            (TrackerState::Writing { writer }, Event::Readable(_)) => {
                *self = TrackerState::Writing { writer };
                Ok(Step { response: None, action: Action::Wait })
            },
            (TrackerState::Writing { writer: _ }, Event::DnsResolved(_)) => Err(Error::IO),
            (TrackerState::Reading { reader }, Event::Readable(res)) => {
                match res {
                    Ok(chunk) => {
                        let ReadChunk { data, eof } = chunk;
                        let mut buf = reader.buf;
                        let mut data = data;
                        buf.append(&mut data);
                        if eof {
                            match parse_response(buf.as_slice()) {
                                Ok(t) => Ok(Step { response: Some(t), action: Action::Wait }),
                                Err(e) => Err(e),
                            }
                        } else {
                            *self = TrackerState::Reading { reader: Reader { buf } };
                            Ok(Step { response: None, action: Action::Wait })
                        }
                    },
                    Err(e) => Err(e),
                }
            },
            (TrackerState::Reading { reader }, Event::Writable(_)) => {
                *self = TrackerState::Reading { reader };
                Ok(Step { response: None, action: Action::Wait })
            },
            (TrackerState::Reading { reader: _ }, Event::DnsResolved(_)) => Err(Error::IO),
            (TrackerState::Error, _) => Err(Error::IO),
            (TrackerState::Complete(_), _) => Err(Error::IO),
        }
    }
}

/// Once terminal, always terminal: no event leads out of Complete or
/// Error, and any event delivered there is refused as a fault.
pub proof fn lemma_terminal_never_revisited(
    pre: TrackerState,
    event: Event,
    r: Result<Step, Error>,
    post: TrackerState,
)
    requires
        pre.is_terminal(),
        step_rel(pre, event, r, post),
    ensures
        r is Err,
        post matches TrackerState::Error,
{
}

/// A response is yielded only by a step that ends the machine: the
/// post-state of any response-bearing or failing step is terminal, so
/// one announce yields at most one response before it is torn down.
pub proof fn lemma_response_is_final(
    pre: TrackerState,
    event: Event,
    r: Result<Step, Error>,
    post: TrackerState,
)
    requires
        step_rel(pre, event, r, post),
        (r matches Ok(st) && st.response is Some) || r is Err,
    ensures
        post.is_terminal(),
{
}

} // verus!
