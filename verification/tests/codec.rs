use tracker_announce::bencode::{decode_buf, dict_get, BEncode};
use tracker_announce::errors::Error;
use tracker_announce::peers::{bytes_to_addr, addr_to_bytes, parse_peers, serialize_peers, PeerAddr};
use tracker_announce::request::{build_announce_request, encode_param, Announce, Event};
use tracker_announce::response::TrackerResponse;
use tracker_announce::util::{io_err, torrent_name};

fn announce(event: Option<Event>) -> Announce {
    Announce {
        id: 42,
        url: "http://tr.example/announce".to_string(),
        hash: [0u8; 20],
        port: 6881,
        uploaded: 0,
        downloaded: 0,
        left: 100,
        event,
    }
}

fn count_occurrences(hay: &[u8], needle: &[u8]) -> usize {
    if needle.is_empty() || hay.len() < needle.len() {
        return 0;
    }
    let mut n = 0;
    for i in 0..=(hay.len() - needle.len()) {
        if &hay[i..i + needle.len()] == needle {
            n += 1;
        }
    }
    n
}

#[test]
fn request_bytes_happy_path() {
    let req = announce(Some(Event::Started));
    let bytes = build_announce_request(&req, &[0x41u8; 20], "/announce", "tr.example");
    let mut expected = String::from("GET /announce?info_hash=");
    for _ in 0..20 {
        expected.push_str("%00");
    }
    expected.push_str("&peer_id=");
    for _ in 0..20 {
        expected.push_str("%41");
    }
    expected.push_str("&uploaded=0&downloaded=0&left=100&compact=1&port=6881");
    expected.push_str("&numwant=50&event=started&");
    expected.push_str(" HTTP/1.1\r\nHost: tr.example\r\n\r\n");
    assert_eq!(bytes, expected.as_bytes());
}

#[test]
fn request_bytes_deterministic() {
    let req = announce(Some(Event::Completed));
    let a = build_announce_request(&req, &[7u8; 20], "/announce", "tr.example");
    let b = build_announce_request(&req, &[7u8; 20], "/announce", "tr.example");
    assert_eq!(a, b);
}

#[test]
fn request_bytes_stopped_keeps_started_event() {
    let req = announce(Some(Event::Stopped));
    let bytes = build_announce_request(&req, &[0u8; 20], "/a", "h");
    let s = String::from_utf8_lossy(&bytes).into_owned();
    assert!(s.contains("&event=started&"));
    assert!(!s.contains("numwant"));
}

#[test]
fn request_bytes_no_event_numwant_20() {
    let req = announce(None);
    let bytes = build_announce_request(&req, &[0u8; 20], "/a", "h");
    let s = String::from_utf8_lossy(&bytes).into_owned();
    assert!(s.contains("&numwant=20& HTTP/1.1"));
    assert!(!s.contains("event="));
}

#[test]
fn request_keys_appear_exactly_once() {
    // a small deterministic pseudo-random generator
    let mut seed: u64 = 0x9e3779b97f4a7c15;
    let mut next = || {
        seed ^= seed << 13;
        seed ^= seed >> 7;
        seed ^= seed << 17;
        seed
    };
    for round in 0..20 {
        let mut hash = [0u8; 20];
        for b in hash.iter_mut() {
            *b = next() as u8;
        }
        let event = match round % 4 {
            0 => Some(Event::Started),
            1 => Some(Event::Stopped),
            2 => Some(Event::Completed),
            _ => None,
        };
        let req = Announce {
            id: round,
            url: "http://tr.example/announce".to_string(),
            hash,
            port: next() as u16,
            uploaded: next(),
            downloaded: next(),
            left: next(),
            event,
        };
        let mut pid = [0u8; 20];
        for b in pid.iter_mut() {
            *b = next() as u8;
        }
        let bytes = build_announce_request(&req, &pid, "/announce", "tr.example");
        for key in [
            "info_hash=",
            "peer_id=",
            "uploaded=",
            "downloaded=",
            "left=",
            "compact=1",
            "port=",
        ] {
            assert_eq!(count_occurrences(&bytes, key.as_bytes()), 1, "key {}", key);
        }
        // every pair is terminated by '&'
        let q_start = bytes.iter().position(|&b| b == b'?').unwrap() + 1;
        let q_end = count_occurrences(&bytes, b" HTTP/1.1");
        assert_eq!(q_end, 1);
        let query = &bytes[q_start..bytes.windows(9).position(|w| w == b" HTTP/1.1").unwrap()];
        assert_eq!(query.last(), Some(&b'&'));
        for pair in query.split(|&b| b == b'&') {
            if !pair.is_empty() {
                assert_eq!(pair.iter().filter(|&&b| b == b'=').count(), 1);
            }
        }
    }
}

#[test]
fn peers_parse_exact() {
    let data = [10u8, 0, 0, 2, 0x1a, 0xe1, 192, 168, 1, 1, 0x00, 0x50];
    let peers = parse_peers(&data).unwrap();
    assert_eq!(peers.len(), 2);
    assert_eq!(peers[0].octets, [10, 0, 0, 2]);
    assert_eq!(peers[0].port, 6881);
    assert_eq!(peers[1].octets, [192, 168, 1, 1]);
    assert_eq!(peers[1].port, 80);
}

#[test]
fn peers_parse_rejects_bad_length() {
    assert!(parse_peers(&[1, 2, 3, 4, 5]).is_none());
    assert!(parse_peers(&[1, 2, 3, 4, 5, 6, 7]).is_none());
}

#[test]
fn peers_round_trip() {
    let mut seed: u64 = 12345;
    let mut next = || {
        seed = seed.wrapping_mul(6364136223846793005).wrapping_add(1442695040888963407);
        (seed >> 32) as u8
    };
    for k in [0usize, 1, 2, 7, 50] {
        let data: Vec<u8> = (0..6 * k).map(|_| next()).collect();
        let peers = parse_peers(&data).unwrap();
        assert_eq!(peers.len(), k);
        let back = serialize_peers(&peers);
        assert_eq!(back, data);
    }
}

#[test]
fn addr_byte_round_trip() {
    let addr = PeerAddr { octets: [1, 2, 3, 4], port: 65535 };
    let bytes = addr_to_bytes(&addr);
    assert_eq!(bytes, [1, 2, 3, 4, 0xff, 0xff]);
    let back = bytes_to_addr(&bytes);
    assert_eq!(back.octets, addr.octets);
    assert_eq!(back.port, addr.port);
}

#[test]
fn bencode_decodes_scenario_body() {
    let body = b"d8:intervali1800e5:peers6:\x0a\x00\x00\x02\x1a\xe1e";
    let v = decode_buf(body).unwrap();
    match &v {
        BEncode::Dict(d) => {
            match dict_get(d, b"interval") {
                Some(BEncode::Int(i)) => assert_eq!(*i, 1800),
                _ => panic!("interval missing"),
            }
            match dict_get(d, b"peers") {
                Some(BEncode::Str(s)) => assert_eq!(s.as_slice(), b"\x0a\x00\x00\x02\x1a\xe1"),
                _ => panic!("peers missing"),
            }
        }
        _ => panic!("not a dict"),
    }
}

#[test]
fn bencode_ints_and_strictness() {
    assert!(matches!(decode_buf(b"i0e").unwrap(), BEncode::Int(0)));
    assert!(matches!(decode_buf(b"i-42e").unwrap(), BEncode::Int(-42)));
    assert!(matches!(
        decode_buf(b"i9223372036854775807e").unwrap(),
        BEncode::Int(9223372036854775807)
    ));
    assert!(matches!(
        decode_buf(b"i-9223372036854775808e").unwrap(),
        BEncode::Int(-9223372036854775808)
    ));
    // not canonical or out of range
    assert!(decode_buf(b"i01e").is_err());
    assert!(decode_buf(b"i-0e").is_err());
    assert!(decode_buf(b"i9223372036854775808e").is_err());
    assert!(decode_buf(b"ie").is_err());
    // bytes after the first value are tolerated, not decoded
    assert!(matches!(decode_buf(b"i1ei2e").unwrap(), BEncode::Int(1)));
    // leading zero in a string length
    assert!(decode_buf(b"01:a").is_err());
}

#[test]
fn bencode_nested_shapes() {
    let v = decode_buf(b"l4:spami7ed1:ali1eeee").unwrap();
    match v {
        BEncode::List(items) => {
            assert_eq!(items.len(), 3);
            assert!(matches!(&items[0], BEncode::Str(s) if s.as_slice() == b"spam"));
            assert!(matches!(items[1], BEncode::Int(7)));
            match &items[2] {
                BEncode::Dict(d) => match dict_get(d, b"a") {
                    Some(BEncode::List(inner)) => {
                        assert_eq!(inner.len(), 1);
                        assert!(matches!(inner[0], BEncode::Int(1)));
                    }
                    _ => panic!("bad dict"),
                },
                _ => panic!("bad third item"),
            }
        }
        _ => panic!("not a list"),
    }
}

#[test]
fn response_tracker_failure() {
    let v = decode_buf(b"d14:failure reason11:bad requestee").unwrap();
    match TrackerResponse::from_bencode(v) {
        Err(Error::TrackerError(m)) => assert_eq!(m, "bad request"),
        other => panic!("unexpected outcome: {:?}", other.err()),
    }
}

#[test]
fn response_failure_reason_not_utf8() {
    let v = decode_buf(b"d14:failure reason2:\xff\xfee").unwrap();
    assert!(matches!(
        TrackerResponse::from_bencode(v),
        Err(Error::InvalidResponse(_))
    ));
}

#[test]
fn response_missing_interval() {
    let v = decode_buf(b"d5:peers0:e").unwrap();
    assert!(matches!(
        TrackerResponse::from_bencode(v),
        Err(Error::InvalidResponse(_))
    ));
}

#[test]
fn response_missing_peers() {
    let v = decode_buf(b"d8:intervali1800ee").unwrap();
    assert!(matches!(
        TrackerResponse::from_bencode(v),
        Err(Error::InvalidResponse(_))
    ));
}

#[test]
fn response_bad_peer_length() {
    let v = decode_buf(b"d8:intervali1800e5:peers4:\x01\x02\x03\x04e").unwrap();
    assert!(matches!(
        TrackerResponse::from_bencode(v),
        Err(Error::InvalidResponse(_))
    ));
}

#[test]
fn response_not_a_dict() {
    let v = decode_buf(b"i5e").unwrap();
    assert!(matches!(
        TrackerResponse::from_bencode(v),
        Err(Error::InvalidResponse(_))
    ));
}

#[test]
fn response_counts_parsed() {
    let v =
        decode_buf(b"d8:intervali900e8:leechersi3e5:peers0:7:seedersi11ee").unwrap();
    let t = TrackerResponse::from_bencode(v).unwrap();
    assert_eq!(t.interval, 900);
    assert_eq!(t.leechers, 3);
    assert_eq!(t.seeders, 11);
    assert!(t.peers.is_empty());
}

#[test]
fn response_empty_defaults() {
    let t = TrackerResponse::empty();
    assert!(t.peers.is_empty());
    assert_eq!(t.interval, 900);
    assert_eq!(t.leechers, 0);
    assert_eq!(t.seeders, 0);
}

#[test]
fn encode_param_every_byte() {
    assert_eq!(encode_param(&[]), "");
    assert_eq!(encode_param(&[0x00, 0x41, 0xff, 0x1a]), "%00%41%FF%1A");
}

#[test]
fn torrent_name_hex() {
    let mut hash = [0u8; 20];
    hash[0] = 0xab;
    hash[1] = 0x01;
    hash[19] = 0xf0;
    let name = torrent_name(&hash);
    assert_eq!(name.len(), 40);
    assert!(name.starts_with("AB01"));
    assert!(name.ends_with("F0"));
    assert_eq!(&name[2..38], "01".repeat(1) + &"00".repeat(17));
}

#[test]
fn io_err_is_err() {
    let r: std::io::Result<u8> = io_err("no progress");
    assert!(r.is_err());
    assert_eq!(r.unwrap_err().to_string(), "no progress");
}
