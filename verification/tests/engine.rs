use tracker_announce::dispatch::{classify_socket, handle_request, RouteOutcome, SocketOwner};
use tracker_announce::errors::Error;
use tracker_announce::handler::{Handler, QueryResponse};
use tracker_announce::machine::{Action, ReadChunk};
use tracker_announce::request::{Announce, Event, Request, TorrentInfo};
use tracker_announce::TIMEOUT_MS;

const PEER_ID: [u8; 20] = [0x41u8; 20];

fn announce(event: Option<Event>) -> Announce {
    Announce {
        id: 42,
        url: "http://tr.example/announce".to_string(),
        hash: [0u8; 20],
        port: 6881,
        uploaded: 0,
        downloaded: 0,
        left: 100,
        event,
    }
}

fn accept(h: &mut Handler, id: usize, event: Option<Event>, now: u64) -> String {
    match handle_request(h, id, announce(event), now) {
        RouteOutcome::Accepted { host } => host,
        _ => panic!("announce not accepted"),
    }
}

#[test]
fn happy_path() {
    let mut h = Handler::new(PEER_ID);
    let host = accept(&mut h, 7, Some(Event::Started), 0);
    assert_eq!(host, "tr.example");
    assert!(h.contains(7));

    // DNS comes back; the engine asks for a connect and a first write.
    let step = h.dns_resolved(QueryResponse { id: 7, res: Ok([10, 0, 0, 1]) }, 10);
    assert!(step.response.is_none());
    match step.action {
        Action::Connect(ip, port) => {
            assert_eq!(ip, [10, 0, 0, 1]);
            assert_eq!(port, 80);
        }
        _ => panic!("expected a connect"),
    }

    // The request bytes now wait in the writer.
    let pending = h.pending_write(7).unwrap();
    let text = String::from_utf8_lossy(&pending).into_owned();
    assert!(text.starts_with("GET /announce?info_hash=%00"));
    assert!(text.contains("&numwant=50&event=started&"));
    assert!(text.ends_with(" HTTP/1.1\r\nHost: tr.example\r\n\r\n"));

    // The socket takes everything: time to read.
    let step = h.writable(7, Ok(pending.len()), 20);
    assert!(step.response.is_none());
    assert!(matches!(step.action, Action::TryRead));
    assert!(h.pending_write(7).is_none());

    // The tracker answers and closes.
    let body = b"d8:intervali1800e5:peers6:\x0a\x00\x00\x02\x1a\xe1e".to_vec();
    let step = h.readable(7, Ok(ReadChunk { data: body, eof: true }), 30);
    let (torrent, res) = step.response.expect("a response is owed");
    assert_eq!(torrent, 42);
    let tr = res.unwrap();
    assert_eq!(tr.interval, 1800);
    assert_eq!(tr.leechers, 0);
    assert_eq!(tr.seeders, 0);
    assert_eq!(tr.peers.len(), 1);
    assert_eq!(tr.peers[0].octets, [10, 0, 0, 2]);
    assert_eq!(tr.peers[0].port, 6881);

    // The record is gone: nothing can answer twice.
    assert!(!h.contains(7));
    let step = h.readable(7, Ok(ReadChunk { data: Vec::new(), eof: true }), 40);
    assert!(step.response.is_none());
}

#[test]
fn partial_writes_advance_the_writer() {
    let mut h = Handler::new(PEER_ID);
    accept(&mut h, 3, None, 0);
    let step = h.dns_resolved(QueryResponse { id: 3, res: Ok([1, 1, 1, 1]) }, 1);
    assert!(step.response.is_none());
    let full = h.pending_write(3).unwrap();
    let step = h.writable(3, Ok(10), 2);
    assert!(step.response.is_none());
    assert!(matches!(step.action, Action::Wait));
    let rest = h.pending_write(3).unwrap();
    assert_eq!(rest, full[10..].to_vec());
    // a would-block write makes no progress
    let step = h.writable(3, Ok(0), 3);
    assert!(step.response.is_none());
    assert_eq!(h.pending_write(3).unwrap(), rest);
    let step = h.writable(3, Ok(rest.len()), 4);
    assert!(matches!(step.action, Action::TryRead));
}

#[test]
fn body_across_many_reads() {
    let mut h = Handler::new(PEER_ID);
    accept(&mut h, 9, None, 0);
    h.dns_resolved(QueryResponse { id: 9, res: Ok([1, 1, 1, 1]) }, 1);
    let n = h.pending_write(9).unwrap().len();
    h.writable(9, Ok(n), 2);
    let body = b"d8:intervali1800e5:peers6:\x0a\x00\x00\x02\x1a\xe1e";
    let step = h.readable(9, Ok(ReadChunk { data: body[..5].to_vec(), eof: false }), 3);
    assert!(step.response.is_none());
    let step = h.readable(9, Ok(ReadChunk { data: body[5..].to_vec(), eof: true }), 4);
    let (torrent, res) = step.response.unwrap();
    assert_eq!(torrent, 42);
    assert_eq!(res.unwrap().interval, 1800);
}

#[test]
fn tracker_failure_reported() {
    let mut h = Handler::new(PEER_ID);
    accept(&mut h, 5, None, 0);
    h.dns_resolved(QueryResponse { id: 5, res: Ok([1, 1, 1, 1]) }, 1);
    let n = h.pending_write(5).unwrap().len();
    h.writable(5, Ok(n), 2);
    let body = b"d14:failure reason11:bad requestee".to_vec();
    let step = h.readable(5, Ok(ReadChunk { data: body, eof: true }), 3);
    let (torrent, res) = step.response.unwrap();
    assert_eq!(torrent, 42);
    match res {
        Err(Error::TrackerError(m)) => assert_eq!(m, "bad request"),
        other => panic!("unexpected: {:?}", other.err()),
    }
    assert!(!h.contains(5));
}

#[test]
fn invalid_response_reported() {
    let mut h = Handler::new(PEER_ID);
    accept(&mut h, 5, None, 0);
    h.dns_resolved(QueryResponse { id: 5, res: Ok([1, 1, 1, 1]) }, 1);
    let n = h.pending_write(5).unwrap().len();
    h.writable(5, Ok(n), 2);
    let step = h.readable(5, Ok(ReadChunk { data: b"d5:peers0:e".to_vec(), eof: true }), 3);
    let (_, res) = step.response.unwrap();
    assert!(matches!(res, Err(Error::InvalidResponse(_))));
}

#[test]
fn dns_failure_single_error_response() {
    let mut h = Handler::new(PEER_ID);
    accept(&mut h, 11, Some(Event::Started), 0);
    let step = h.dns_resolved(QueryResponse { id: 11, res: Err(Error::DNS) }, 5);
    let (torrent, res) = step.response.expect("error must be reported");
    assert_eq!(torrent, 42);
    assert!(matches!(res, Err(Error::DNS)));
    assert!(!h.contains(11));
    // no second response for the same announce
    let step = h.dns_resolved(QueryResponse { id: 11, res: Err(Error::DNS) }, 6);
    assert!(step.response.is_none());
}

#[test]
fn inactivity_timeout() {
    let mut h = Handler::new(PEER_ID);
    accept(&mut h, 13, Some(Event::Started), 0);
    // fresh records survive a tick
    let resps = h.tick(TIMEOUT_MS);
    assert!(resps.is_empty());
    assert!(h.contains(13));
    // past the budget the record is reaped, with one Timeout response
    let resps = h.tick(TIMEOUT_MS + 1);
    assert_eq!(resps.len(), 1);
    assert_eq!(resps[0].0, 42);
    assert!(matches!(resps[0].1, Err(Error::Timeout)));
    assert!(!h.contains(13));
}

#[test]
fn events_refresh_the_timeout() {
    let mut h = Handler::new(PEER_ID);
    accept(&mut h, 2, None, 0);
    // an event at t=2000 resets the inactivity clock
    let step = h.readable(2, Ok(ReadChunk { data: Vec::new(), eof: false }), 2000);
    assert!(step.response.is_none());
    let resps = h.tick(2000 + TIMEOUT_MS);
    assert!(resps.is_empty());
    assert!(h.contains(2));
}

#[test]
fn stopping_suppression() {
    let mut h = Handler::new(PEER_ID);
    accept(&mut h, 17, Some(Event::Stopped), 0);
    let step = h.dns_resolved(QueryResponse { id: 17, res: Err(Error::DNS) }, 5);
    assert!(step.response.is_none());
    assert!(!h.contains(17));
}

#[test]
fn stopping_timeout_suppressed() {
    let mut h = Handler::new(PEER_ID);
    accept(&mut h, 19, Some(Event::Stopped), 0);
    let resps = h.tick(TIMEOUT_MS + 1);
    assert!(resps.is_empty());
    assert!(!h.contains(19));
}

#[test]
fn stopping_success_still_delivered() {
    let mut h = Handler::new(PEER_ID);
    accept(&mut h, 23, Some(Event::Stopped), 0);
    h.dns_resolved(QueryResponse { id: 23, res: Ok([1, 1, 1, 1]) }, 1);
    let n = h.pending_write(23).unwrap().len();
    h.writable(23, Ok(n), 2);
    let body = b"d8:intervali60e5:peers0:e".to_vec();
    let step = h.readable(23, Ok(ReadChunk { data: body, eof: true }), 3);
    let (torrent, res) = step.response.expect("success is not suppressed");
    assert_eq!(torrent, 42);
    assert_eq!(res.unwrap().interval, 60);
}

#[test]
fn io_error_aborts_announce() {
    let mut h = Handler::new(PEER_ID);
    accept(&mut h, 29, None, 0);
    h.dns_resolved(QueryResponse { id: 29, res: Ok([1, 1, 1, 1]) }, 1);
    let step = h.writable(29, Err(Error::IO), 2);
    let (torrent, res) = step.response.unwrap();
    assert_eq!(torrent, 42);
    assert!(matches!(res, Err(Error::IO)));
    assert!(!h.contains(29));
}

#[test]
fn url_without_host_is_invalid() {
    let mut h = Handler::new(PEER_ID);
    let parts = tracker_announce::urlparse::UrlParts {
        scheme: "http".to_string(),
        host: None,
        port: None,
        path: "/announce".to_string(),
    };
    let res = h.new_announce(1, announce(None), &parts, 0);
    assert!(matches!(res, Err(Error::InvalidRequest(_))));
    assert!(!h.contains(1));
}

#[test]
fn unknown_scheme_is_invalid() {
    let mut h = Handler::new(PEER_ID);
    let mut req = announce(None);
    req.url = "gopher://tr.example/announce".to_string();
    assert!(matches!(
        handle_request(&mut h, 1, req, 0),
        RouteOutcome::Respond((42, Err(Error::InvalidRequest(_))))
    ));
}

#[test]
fn unparsable_url_is_invalid() {
    let mut h = Handler::new(PEER_ID);
    let mut req = announce(None);
    req.url = "not a url".to_string();
    assert!(matches!(
        handle_request(&mut h, 1, req, 0),
        RouteOutcome::Respond((42, Err(Error::InvalidRequest(_))))
    ));
}

#[test]
fn stopping_bad_url_suppressed() {
    let mut h = Handler::new(PEER_ID);
    let mut req = announce(Some(Event::Stopped));
    req.url = "not a url".to_string();
    assert!(matches!(handle_request(&mut h, 1, req, 0), RouteOutcome::Suppressed));
}

#[test]
fn udp_urls_are_routed_away() {
    let mut h = Handler::new(PEER_ID);
    let mut req = announce(None);
    req.url = "udp://tr.example:1337".to_string();
    match handle_request(&mut h, 1, req, 0) {
        RouteOutcome::Udp(a) => assert_eq!(a.id, 42),
        _ => panic!("expected udp routing"),
    }
    assert!(!h.contains(1));
}

#[test]
fn url_port_reaches_connect() {
    let mut h = Handler::new(PEER_ID);
    let mut req = announce(None);
    req.url = "http://tr.example:8080/announce".to_string();
    match handle_request(&mut h, 1, req, 0) {
        RouteOutcome::Accepted { host } => assert_eq!(host, "tr.example"),
        _ => panic!("not accepted"),
    }
    let step = h.dns_resolved(QueryResponse { id: 1, res: Ok([9, 9, 9, 9]) }, 1);
    match step.action {
        Action::Connect(_, port) => assert_eq!(port, 8080),
        _ => panic!("expected connect"),
    }
    // the Host header still omits the port
    let text = String::from_utf8_lossy(&h.pending_write(1).unwrap()).into_owned();
    assert!(text.ends_with("Host: tr.example\r\n\r\n"));
}

#[test]
fn request_constructors_scale_by_piece_len() {
    let t = TorrentInfo {
        id: 3,
        announce: "http://tr.example/announce".to_string(),
        hash: [1u8; 20],
        piece_len: 16384,
        total_len: 163840,
        uploaded: 2,
        downloaded: 4,
    };
    match Request::new_announce(&t, 6881, Some(Event::Started)) {
        Request::Announce(a) => {
            assert_eq!(a.id, 3);
            assert_eq!(a.uploaded, 32768);
            assert_eq!(a.downloaded, 65536);
            assert_eq!(a.left, 98304);
            assert_eq!(a.port, 6881);
            assert_eq!(a.event, Some(Event::Started));
        }
        Request::Shutdown => panic!("expected an announce"),
    }
    assert!(matches!(Request::started(&t, 1), Request::Announce(a) if a.event == Some(Event::Started)));
    assert!(matches!(Request::stopped(&t, 1), Request::Announce(a) if a.event == Some(Event::Stopped)));
    assert!(matches!(Request::completed(&t, 1), Request::Announce(a) if a.event == Some(Event::Completed)));
    assert!(matches!(Request::interval(&t, 1), Request::Announce(a) if a.event.is_none()));
}

#[test]
fn stopping_predicate() {
    assert!(announce(Some(Event::Stopped)).stopping());
    assert!(!announce(Some(Event::Started)).stopping());
    assert!(!announce(None).stopping());
}

#[test]
fn socket_classification_order() {
    assert!(matches!(classify_socket(true, true, true), SocketOwner::Http));
    assert!(matches!(classify_socket(false, true, true), SocketOwner::Udp));
    assert!(matches!(classify_socket(false, false, true), SocketOwner::Dns));
    assert!(matches!(classify_socket(false, false, false), SocketOwner::Unknown));
}

#[test]
fn independent_announces_progress_independently() {
    let mut h = Handler::new(PEER_ID);
    accept(&mut h, 1, None, 0);
    let mut second = announce(None);
    second.id = 43;
    match handle_request(&mut h, 2, second, 1) {
        RouteOutcome::Accepted { .. } => {}
        _ => panic!("not accepted"),
    }
    let step = h.dns_resolved(QueryResponse { id: 2, res: Err(Error::DNS) }, 2);
    assert_eq!(step.response.unwrap().0, 43);
    assert!(h.contains(1));
    assert!(!h.contains(2));
}
