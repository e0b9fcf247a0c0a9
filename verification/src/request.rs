//! Announce requests and the HTTP/1.1 GET wire encoding.
//!
//! The emitted request is a pure function of the announce fields, the
//! peer id, and the URL's path and host; its exact byte sequence is
//! [`spec_announce_request`].

use vstd::prelude::*;
use vstd::string::StringSliceAdditionalSpecFns;
use crate::bencode::dec_digits;

verus! {

/// What the client is telling the tracker about this torrent.
#[derive(Debug, Clone, Copy, PartialEq, Eq, Structural)]
pub enum Event {
    Started,
    Stopped,
    Completed,
}

/// One announce request, as the rest of the client hands it in.
#[derive(Debug)]
pub struct Announce {
    /// The caller's torrent id, echoed back in the response.
    pub id: usize,
    /// The tracker announce URL.
    pub url: String,
    /// The torrent's 20-byte info-hash.
    pub hash: [u8; 20],
    /// The local listening port advertised to the tracker.
    pub port: u16,
    pub uploaded: u64,
    pub downloaded: u64,
    pub left: u64,
    pub event: Option<Event>,
}

impl Announce {
    /// A stopping announce is best-effort: it never delivers a failure
    /// response.
    pub open spec fn is_stopping(&self) -> bool {
        self.event == Some(Event::Stopped)
    }

    pub fn stopping(&self) -> (r: bool)
        ensures
            r == self.is_stopping(),
    {
        match self.event {
            Some(Event::Stopped) => true,
            _ => false,
        }
    }
}

/// What the announce subsystem accepts on its inbound queue.
#[derive(Debug)]
pub enum Request {
    Announce(Announce),
    Shutdown,
}

/// A snapshot of the torrent state an announce is built from.
#[derive(Debug)]
pub struct TorrentInfo {
    pub id: usize,
    pub announce: String,
    pub hash: [u8; 20],
    pub piece_len: u64,
    pub total_len: u64,
    /// Pieces uploaded so far.
    pub uploaded: u64,
    /// Pieces downloaded so far.
    pub downloaded: u64,
}

impl Request {
    /// Build an announce request from a torrent snapshot: byte counts
    /// are pieces scaled by the piece length, `left` is what remains of
    /// the total.
    pub fn new_announce(torrent: &TorrentInfo, port: u16, event: Option<Event>) -> (r: Request)
        requires
            torrent.uploaded * torrent.piece_len <= u64::MAX,
            torrent.downloaded * torrent.piece_len <= torrent.total_len,
        ensures
            (r matches Request::Announce(a) && a.id == torrent.id && a.url@ == torrent.announce@
                && a.hash@ == torrent.hash@ && a.port == port && a.uploaded == torrent.uploaded
                * torrent.piece_len && a.downloaded == torrent.downloaded * torrent.piece_len
                && a.left == torrent.total_len - torrent.downloaded * torrent.piece_len
                && a.event == event),
    {
        Request::Announce(
            Announce {
                id: torrent.id,
                url: torrent.announce.clone(),
                hash: torrent.hash,
                port,
                uploaded: torrent.uploaded * torrent.piece_len,
                downloaded: torrent.downloaded * torrent.piece_len,
                left: torrent.total_len - torrent.downloaded * torrent.piece_len,
                event,
            },
        )
    }

    pub fn started(torrent: &TorrentInfo, port: u16) -> (r: Request)
        requires
            torrent.uploaded * torrent.piece_len <= u64::MAX,
            torrent.downloaded * torrent.piece_len <= torrent.total_len,
        ensures
            (r matches Request::Announce(a) && a.id == torrent.id && a.url@ == torrent.announce@
                && a.hash@ == torrent.hash@ && a.port == port && a.uploaded == torrent.uploaded
                * torrent.piece_len && a.downloaded == torrent.downloaded * torrent.piece_len
                && a.left == torrent.total_len - torrent.downloaded * torrent.piece_len
                && a.event == Some(Event::Started)),
    {
        Request::new_announce(torrent, port, Some(Event::Started))
    }

    pub fn stopped(torrent: &TorrentInfo, port: u16) -> (r: Request)
        requires
            torrent.uploaded * torrent.piece_len <= u64::MAX,
            torrent.downloaded * torrent.piece_len <= torrent.total_len,
        ensures
            (r matches Request::Announce(a) && a.id == torrent.id && a.url@ == torrent.announce@
                && a.hash@ == torrent.hash@ && a.port == port && a.uploaded == torrent.uploaded
                * torrent.piece_len && a.downloaded == torrent.downloaded * torrent.piece_len
                && a.left == torrent.total_len - torrent.downloaded * torrent.piece_len
                && a.event == Some(Event::Stopped)),
    {
        Request::new_announce(torrent, port, Some(Event::Stopped))
    }

    pub fn completed(torrent: &TorrentInfo, port: u16) -> (r: Request)
        requires
            torrent.uploaded * torrent.piece_len <= u64::MAX,
            torrent.downloaded * torrent.piece_len <= torrent.total_len,
        ensures
            (r matches Request::Announce(a) && a.id == torrent.id && a.url@ == torrent.announce@
                && a.hash@ == torrent.hash@ && a.port == port && a.uploaded == torrent.uploaded
                * torrent.piece_len && a.downloaded == torrent.downloaded * torrent.piece_len
                && a.left == torrent.total_len - torrent.downloaded * torrent.piece_len
                && a.event == Some(Event::Completed)),
    {
        Request::new_announce(torrent, port, Some(Event::Completed))
    }

    pub fn interval(torrent: &TorrentInfo, port: u16) -> (r: Request)
        requires
            torrent.uploaded * torrent.piece_len <= u64::MAX,
            torrent.downloaded * torrent.piece_len <= torrent.total_len,
        ensures
            (r matches Request::Announce(a) && a.id == torrent.id && a.url@ == torrent.announce@
                && a.hash@ == torrent.hash@ && a.port == port && a.uploaded == torrent.uploaded
                * torrent.piece_len && a.downloaded == torrent.downloaded * torrent.piece_len
                && a.left == torrent.total_len - torrent.downloaded * torrent.piece_len
                && a.event is None),
    {
        Request::new_announce(torrent, port, None)
    }
}

/// One hex digit, upper case.
pub open spec fn hex_digit(n: u8) -> u8
    recommends
        n < 16,
{
    if n < 10 {
        (48 + n) as u8
    } else {
        (55 + n) as u8
    }
}

/// A byte percent-encoded unconditionally: `%` and two upper-case hex
/// digits.
pub open spec fn pct_byte(b: u8) -> Seq<u8> {
    seq![37u8, hex_digit(b / 16), hex_digit(b % 16)]
}

/// Every byte percent-encoded, in order.
pub open spec fn pct_bytes(s: Seq<u8>) -> Seq<u8>
    decreases s.len(),
{
    if s.len() == 0 {
        Seq::empty()
    } else {
        pct_byte(s[0]) + pct_bytes(s.drop_first())
    }
}

/// One `key=value&` query fragment; the trailing `&` is part of this
/// engine's canonical output.
pub open spec fn query_pair(k: Seq<u8>, v: Seq<u8>) -> Seq<u8> {
    k + "=".spec_bytes() + v + "&".spec_bytes()
}

/// The query fragments selected by the announce event. A stopping
/// announce emits `event=started`, matching this engine's established
/// on-the-wire output.
pub open spec fn event_pairs(e: Option<Event>) -> Seq<u8> {
    match e {
        Some(Event::Started) => query_pair("numwant".spec_bytes(), "50".spec_bytes()) + query_pair(
            "event".spec_bytes(),
            "started".spec_bytes(),
        ),
        Some(Event::Stopped) => query_pair("event".spec_bytes(), "started".spec_bytes()),
        Some(Event::Completed) => query_pair("numwant".spec_bytes(), "20".spec_bytes())
            + query_pair("event".spec_bytes(), "completed".spec_bytes()),
        None => query_pair("numwant".spec_bytes(), "20".spec_bytes()),
    }
}

/// The full announce GET request, byte for byte.
pub open spec fn spec_announce_request(
    hash: Seq<u8>,
    peer_id: Seq<u8>,
    uploaded: u64,
    downloaded: u64,
    left: u64,
    port: u16,
    event: Option<Event>,
    path: Seq<u8>,
    host: Seq<u8>,
) -> Seq<u8> {
    "GET ".spec_bytes() + path + "?".spec_bytes() + query_pair(
        "info_hash".spec_bytes(),
        pct_bytes(hash),
    ) + query_pair("peer_id".spec_bytes(), pct_bytes(peer_id)) + query_pair(
        "uploaded".spec_bytes(),
        dec_digits(uploaded as nat),
    ) + query_pair("downloaded".spec_bytes(), dec_digits(downloaded as nat)) + query_pair(
        "left".spec_bytes(),
        dec_digits(left as nat),
    ) + query_pair("compact".spec_bytes(), "1".spec_bytes()) + query_pair(
        "port".spec_bytes(),
        dec_digits(port as nat),
    ) + event_pairs(event) + " HTTP/1.1\r\n".spec_bytes() + "Host: ".spec_bytes() + host
        + "\r\n".spec_bytes() + "\r\n".spec_bytes()
}

/// Append `key=value&` to a request buffer.
pub fn append_query_pair(s: &mut Vec<u8>, k: &str, v: &str)
    ensures
        final(s)@ == old(s)@ + query_pair(k.spec_bytes(), v.spec_bytes()),
{
    s.extend_from_slice(k.as_bytes());
    s.extend_from_slice("=".as_bytes());
    s.extend_from_slice(v.as_bytes());
    s.extend_from_slice("&".as_bytes());
    assert(s@ =~= old(s)@ + query_pair(k.spec_bytes(), v.spec_bytes()));
}

/// Append the canonical decimal digits of `n`.
pub fn append_dec(s: &mut Vec<u8>, n: u64)
    ensures
        final(s)@ == old(s)@ + dec_digits(n as nat),
    decreases n,
{
    if n < 10 {
        s.push((48 + n as u8) as u8);
        assert(s@ =~= old(s)@ + dec_digits(n as nat));
    } else {
        append_dec(s, n / 10);
        s.push((48 + (n % 10) as u8) as u8);
        proof {
            assert(dec_digits(n as nat) == dec_digits(n as nat / 10) + seq![
                (48 + n as nat % 10) as u8,
            ]);
            assert((n / 10) as nat == n as nat / 10);
            assert(s@ =~= old(s)@ + dec_digits(n as nat));
        }
    }
}

proof fn lemma_pct_snoc(s: Seq<u8>)
    requires
        s.len() > 0,
    ensures
        pct_bytes(s) == pct_bytes(s.drop_last()) + pct_byte(s.last()),
    decreases s.len(),
{
    if s.len() == 1 {
        assert(s.drop_first() =~= Seq::<u8>::empty());
        assert(s.drop_last() =~= Seq::<u8>::empty());
        assert(pct_bytes(s) =~= pct_bytes(s.drop_last()) + pct_byte(s.last()));
    } else {
        lemma_pct_snoc(s.drop_first());
        assert(s.drop_first().drop_last() =~= s.drop_last().drop_first());
        assert(s.drop_last()[0] == s[0]);
        assert(pct_bytes(s) =~= pct_bytes(s.drop_last()) + pct_byte(s.last()));
    }
}

/// Append every byte of `data`, unconditionally percent-encoded.
pub fn append_pct(s: &mut Vec<u8>, data: &[u8])
    ensures
        final(s)@ == old(s)@ + pct_bytes(data@),
{
    let mut i: usize = 0;
    assert(s@ =~= old(s)@ + pct_bytes(data@.subrange(0, 0)));
    while i < data.len()
        invariant
            i <= data@.len(),
            s@ == old(s)@ + pct_bytes(data@.subrange(0, i as int)),
        decreases data@.len() - i,
    {
        let b = data[i];
        s.push(37);
        s.push(if b / 16 < 10 {
            (48 + b / 16) as u8
        } else {
            (55 + b / 16) as u8
        });
        s.push(if b % 16 < 10 {
            (48 + b % 16) as u8
        } else {
            (55 + b % 16) as u8
        });
        proof {
            let pre = data@.subrange(0, i as int);
            let post = data@.subrange(0, i + 1 as int);
            lemma_pct_snoc(post);
            assert(post.drop_last() =~= pre);
            assert(s@ =~= old(s)@ + (pct_bytes(pre) + pct_byte(data@[i as int])));
        }
        i = i + 1;
    }
    assert(data@.subrange(0, data@.len() as int) =~= data@);
}

/// Build the HTTP/1.1 GET request for one announce against a tracker
/// at `path` on `host`. The result is exactly
/// [`spec_announce_request`], so equal inputs give identical bytes.
#[verifier::rlimit(100)]
pub fn build_announce_request(req: &Announce, peer_id: &[u8; 20], path: &str, host: &str) -> (r:
    Vec<u8>)
    ensures
        r@ == spec_announce_request(
            req.hash@,
            peer_id@,
            req.uploaded,
            req.downloaded,
            req.left,
            req.port,
            req.event,
            path.spec_bytes(),
            host.spec_bytes(),
        ),
{
    let ghost head = "GET ".spec_bytes() + path.spec_bytes() + "?".spec_bytes() + query_pair(
        "info_hash".spec_bytes(),
        pct_bytes(req.hash@),
    ) + query_pair("peer_id".spec_bytes(), pct_bytes(peer_id@));
    let ghost mid = head + query_pair("uploaded".spec_bytes(), dec_digits(req.uploaded as nat))
        + query_pair("downloaded".spec_bytes(), dec_digits(req.downloaded as nat)) + query_pair(
        "left".spec_bytes(),
        dec_digits(req.left as nat),
    ) + query_pair("compact".spec_bytes(), "1".spec_bytes()) + query_pair(
        "port".spec_bytes(),
        dec_digits(req.port as nat),
    );
    let mut http_req: Vec<u8> = Vec::new();
    http_req.extend_from_slice("GET ".as_bytes());
    http_req.extend_from_slice(path.as_bytes());
    http_req.extend_from_slice("?".as_bytes());
    http_req.extend_from_slice("info_hash".as_bytes());
    http_req.extend_from_slice("=".as_bytes());
    append_pct(&mut http_req, req.hash.as_slice());
    http_req.extend_from_slice("&".as_bytes());
    http_req.extend_from_slice("peer_id".as_bytes());
    http_req.extend_from_slice("=".as_bytes());
    append_pct(&mut http_req, peer_id.as_slice());
    http_req.extend_from_slice("&".as_bytes());
    assert(http_req@ =~= head);
    append_num_pair(&mut http_req, "uploaded", req.uploaded);
    append_num_pair(&mut http_req, "downloaded", req.downloaded);
    append_num_pair(&mut http_req, "left", req.left);
    append_query_pair(&mut http_req, "compact", "1");
    append_num_pair(&mut http_req, "port", req.port as u64);
    assert(http_req@ =~= mid);
    match req.event {
        Some(Event::Started) => {
            append_query_pair(&mut http_req, "numwant", "50");
            append_query_pair(&mut http_req, "event", "started");
        },
        Some(Event::Stopped) => {
            append_query_pair(&mut http_req, "event", "started");
        },
        Some(Event::Completed) => {
            append_query_pair(&mut http_req, "numwant", "20");
            append_query_pair(&mut http_req, "event", "completed");
        },
        None => {
            append_query_pair(&mut http_req, "numwant", "20");
        },
    }
    assert(http_req@ =~= mid + event_pairs(req.event));
    http_req.extend_from_slice(" HTTP/1.1\r\n".as_bytes());
    http_req.extend_from_slice("Host: ".as_bytes());
    http_req.extend_from_slice(host.as_bytes());
    http_req.extend_from_slice("\r\n".as_bytes());
    http_req.extend_from_slice("\r\n".as_bytes());
    assert(http_req@ =~= spec_announce_request(
        req.hash@,
        peer_id@,
        req.uploaded,
        req.downloaded,
        req.left,
        req.port,
        req.event,
        path.spec_bytes(),
        host.spec_bytes(),
    ));
    http_req
}

/// Append `key=<decimal>&`.
pub fn append_num_pair(s: &mut Vec<u8>, k: &str, n: u64)
    ensures
        final(s)@ == old(s)@ + query_pair(k.spec_bytes(), dec_digits(n as nat)),
{
    s.extend_from_slice(k.as_bytes());
    s.extend_from_slice("=".as_bytes());
    append_dec(s, n);
    s.extend_from_slice("&".as_bytes());
    assert(s@ =~= old(s)@ + query_pair(k.spec_bytes(), dec_digits(n as nat)));
}

/// The percent-encoded text of a byte string: `%` and two upper-case
/// hex characters per byte.
pub open spec fn pct_chars(s: Seq<u8>) -> Seq<char>
    decreases s.len(),
{
    if s.len() == 0 {
        Seq::empty()
    } else {
        "%"@ + crate::util::hex_char_seq(s[0] / 16) + crate::util::hex_char_seq(s[0] % 16)
            + pct_chars(s.drop_first())
    }
}

proof fn lemma_pct_chars_snoc(s: Seq<u8>)
    requires
        s.len() > 0,
    ensures
        pct_chars(s) == pct_chars(s.drop_last()) + "%"@ + crate::util::hex_char_seq(
            s.last() / 16,
        ) + crate::util::hex_char_seq(s.last() % 16),
    decreases s.len(),
{
    if s.len() == 1 {
        assert(s.drop_first() =~= Seq::<u8>::empty());
        assert(s.drop_last() =~= Seq::<u8>::empty());
        assert(pct_chars(s) =~= pct_chars(s.drop_last()) + "%"@ + crate::util::hex_char_seq(
            s.last() / 16,
        ) + crate::util::hex_char_seq(s.last() % 16));
    } else {
        lemma_pct_chars_snoc(s.drop_first());
        assert(s.drop_first().drop_last() =~= s.drop_last().drop_first());
        assert(s.drop_last()[0] == s[0]);
        assert(pct_chars(s) =~= pct_chars(s.drop_last()) + "%"@ + crate::util::hex_char_seq(
            s.last() / 16,
        ) + crate::util::hex_char_seq(s.last() % 16));
    }
}

/// Percent-encode every byte of a parameter unconditionally, as the
/// announce query wants the info-hash and peer id.
pub fn encode_param(data: &[u8]) -> (r: String)
    ensures
        r@ == pct_chars(data@),
{
    let mut resp = String::new();
    let mut i: usize = 0;
    assert(resp@ =~= pct_chars(data@.subrange(0, 0)));
    while i < data.len()
        invariant
            i <= data@.len(),
            resp@ == pct_chars(data@.subrange(0, i as int)),
        decreases data@.len() - i,
    {
        let b = data[i];
        resp.append("%");
        crate::util::append_hex_char(&mut resp, b / 16);
        crate::util::append_hex_char(&mut resp, b % 16);
        proof {
            let post = data@.subrange(0, i + 1 as int);
            lemma_pct_chars_snoc(post);
            assert(post.drop_last() =~= data@.subrange(0, i as int));
        }
        i = i + 1;
    }
    assert(data@.subrange(0, data@.len() as int) =~= data@);
    resp
}

/// Identical announce inputs encode to identical request bytes: the
/// wire encoding is deterministic.
pub proof fn lemma_request_deterministic(
    a: Announce,
    b: Announce,
    peer_id: Seq<u8>,
    path: Seq<u8>,
    host: Seq<u8>,
)
    requires
        a.hash@ == b.hash@,
        a.uploaded == b.uploaded,
        a.downloaded == b.downloaded,
        a.left == b.left,
        a.port == b.port,
        a.event == b.event,
    ensures
        spec_announce_request(
            a.hash@,
            peer_id,
            a.uploaded,
            a.downloaded,
            a.left,
            a.port,
            a.event,
            path,
            host,
        ) == spec_announce_request(
            b.hash@,
            peer_id,
            b.uploaded,
            b.downloaded,
            b.left,
            b.port,
            b.event,
            path,
            host,
        ),
{
}

} // verus!
