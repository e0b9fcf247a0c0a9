//! Compact peer lists: 6-byte records, four IPv4 octets followed by a
//! big-endian 16-bit port.

use vstd::prelude::*;

verus! {

/// An IPv4 peer address as the tracker reply carries it.
#[derive(Clone, Copy, Debug)]
pub struct PeerAddr {
    pub octets: [u8; 4],
    pub port: u16,
}

impl PeerAddr {
    /// The address a 6-byte compact record denotes.
    pub open spec fn spec_of_bytes(s: Seq<u8>) -> PeerAddr
        recommends
            s.len() >= 6,
    {
        PeerAddr {
            octets: [s[0], s[1], s[2], s[3]],
            port: ((s[4] as u16) * 256 + (s[5] as u16)) as u16,
        }
    }

    /// The 6-byte compact record for an address.
    pub open spec fn spec_to_bytes(self) -> Seq<u8> {
        seq![
            self.octets[0],
            self.octets[1],
            self.octets[2],
            self.octets[3],
            (self.port / 256) as u8,
            (self.port % 256) as u8,
        ]
    }
}

/// Decode the first six bytes of `p` as one compact peer record.
pub fn bytes_to_addr(p: &[u8]) -> (r: PeerAddr)
    requires
        p@.len() >= 6,
    ensures
        r == PeerAddr::spec_of_bytes(p@),
{
    let port: u16 = (p[4] as u16) * 256 + (p[5] as u16);
    PeerAddr { octets: [p[0], p[1], p[2], p[3]], port }
}

/// Encode one peer address as its 6-byte compact record.
pub fn addr_to_bytes(addr: &PeerAddr) -> (r: [u8; 6])
    ensures
        r@ == addr.spec_to_bytes(),
{
    let r: [u8; 6] = [
        addr.octets[0],
        addr.octets[1],
        addr.octets[2],
        addr.octets[3],
        (addr.port / 256) as u8,
        (addr.port % 256) as u8,
    ];
    assert(r@ =~= addr.spec_to_bytes());
    r
}

/// The peer list a compact `peers` string of length `6k` denotes:
/// one address per 6-byte group, in order.
pub open spec fn spec_parse_peers(data: Seq<u8>) -> Seq<PeerAddr>
    recommends
        data.len() % 6 == 0,
{
    Seq::new(data.len() / 6, |i: int| PeerAddr::spec_of_bytes(data.subrange(6 * i, 6 * i + 6)))
}

/// The compact string a peer list serializes back to.
pub open spec fn spec_serialize_peers(peers: Seq<PeerAddr>) -> Seq<u8>
    decreases peers.len(),
{
    if peers.len() == 0 {
        Seq::empty()
    } else {
        peers[0].spec_to_bytes() + spec_serialize_peers(peers.drop_first())
    }
}

/// Parse a compact `peers` string. Exactly `k` addresses come out of a
/// string of length `6k`, in order; any other length is refused.
pub fn parse_peers(data: &[u8]) -> (r: Option<Vec<PeerAddr>>)
    ensures
        data@.len() % 6 == 0 ==> (r matches Some(v) && v@ == spec_parse_peers(data@)),
        data@.len() % 6 != 0 ==> r is None,
{
    if data.len() % 6 != 0 {
        return None;
    }
    let mut peers: Vec<PeerAddr> = Vec::new();
    let mut i: usize = 0;
    while i < data.len()
        invariant
            data@.len() % 6 == 0,
            i == 6 * peers@.len(),
            i <= data@.len(),
            forall|j: int|
                0 <= j < peers@.len() ==> peers@[j] == PeerAddr::spec_of_bytes(
                    data@.subrange(6 * j, 6 * j + 6),
                ),
        decreases data@.len() - i,
    {
        assert(i + 6 <= data@.len());
        let chunk: &[u8] = vstd::slice::slice_subrange(data, i, i + 6);
        peers.push(bytes_to_addr(chunk));
        i = i + 6;
    }
    assert(i == data@.len());
    assert(peers@ =~= spec_parse_peers(data@));
    Some(peers)
}

/// Serialize a peer list back to its compact form.
pub fn serialize_peers(peers: &Vec<PeerAddr>) -> (r: Vec<u8>)
    ensures
        r@ == spec_serialize_peers(peers@),
        r@.len() == 6 * peers@.len(),
{
    let mut out: Vec<u8> = Vec::new();
    let mut i: usize = 0;
    proof {
        lemma_serialize_len(peers@);
    }
    while i < peers.len()
        invariant
            i <= peers@.len(),
            out@ == spec_serialize_peers(peers@.subrange(0, i as int)),
            out@.len() == 6 * i,
        decreases peers@.len() - i,
    {
        let b = addr_to_bytes(&peers[i]);
        let ghost prefix = peers@.subrange(0, i as int);
        out.push(b[0]);
        out.push(b[1]);
        out.push(b[2]);
        out.push(b[3]);
        out.push(b[4]);
        out.push(b[5]);
        proof {
            lemma_serialize_snoc(peers@.subrange(0, i + 1 as int));
            assert(peers@.subrange(0, i + 1 as int).drop_last() =~= prefix);
            assert(out@ =~= spec_serialize_peers(prefix) + peers@[i as int].spec_to_bytes());
        }
        i = i + 1;
    }
    assert(peers@.subrange(0, peers@.len() as int) =~= peers@);
    out
}

/// Serialization appends one 6-byte record at the tail.
proof fn lemma_serialize_snoc(peers: Seq<PeerAddr>)
    requires
        peers.len() > 0,
    ensures
        spec_serialize_peers(peers) == spec_serialize_peers(peers.drop_last())
            + peers.last().spec_to_bytes(),
    decreases peers.len(),
{
    if peers.len() == 1 {
        assert(peers.drop_first() =~= Seq::<PeerAddr>::empty());
        assert(peers.drop_last() =~= Seq::<PeerAddr>::empty());
        assert(spec_serialize_peers(peers) == peers[0].spec_to_bytes() + spec_serialize_peers(
            peers.drop_first(),
        ));
        assert(peers[0] == peers.last());
        assert(spec_serialize_peers(peers) =~= peers.last().spec_to_bytes());
        assert(spec_serialize_peers(peers) =~= spec_serialize_peers(peers.drop_last())
            + peers.last().spec_to_bytes());
    } else {
        lemma_serialize_snoc(peers.drop_first());
        assert(peers.drop_first().drop_last() =~= peers.drop_last().drop_first());
        assert(peers.drop_last()[0] == peers[0]);
        assert(spec_serialize_peers(peers) =~= spec_serialize_peers(peers.drop_last())
            + peers.last().spec_to_bytes());
    }
}

/// A serialized list of `k` addresses is `6k` bytes long.
proof fn lemma_serialize_len(peers: Seq<PeerAddr>)
    ensures
        spec_serialize_peers(peers).len() == 6 * peers.len(),
    decreases peers.len(),
{
    if peers.len() > 0 {
        lemma_serialize_len(peers.drop_first());
    }
}

/// Parsing a compact string of length `6k` and re-serializing the
/// resulting addresses yields the original bytes.
pub proof fn lemma_peers_round_trip(data: Seq<u8>)
    requires
        data.len() % 6 == 0,
    ensures
        spec_serialize_peers(spec_parse_peers(data)) == data,
    decreases data.len(),
{
    if data.len() == 0 {
        assert(spec_parse_peers(data) =~= Seq::<PeerAddr>::empty());
        assert(spec_serialize_peers(spec_parse_peers(data)) =~= data);
    } else {
        let head = data.subrange(0, 6);
        let rest = data.subrange(6, data.len() as int);
        lemma_peers_round_trip(rest);
        let parsed = spec_parse_peers(data);
        assert(parsed.len() > 0);
        assert(parsed[0] == PeerAddr::spec_of_bytes(head));
        assert(parsed.drop_first() =~= spec_parse_peers(rest)) by {
            assert forall|i: int| 0 <= i < parsed.drop_first().len() implies parsed.drop_first()[i]
                == spec_parse_peers(rest)[i] by {
                assert(data.subrange(6 * (i + 1), 6 * (i + 1) + 6) =~= rest.subrange(
                    6 * i,
                    6 * i + 6,
                ));
            }
        }
        assert(PeerAddr::spec_of_bytes(head).spec_to_bytes() =~= head) by {
            assert((head[4] as u16) * 256 + (head[5] as u16) < 65536);
        }
        assert(spec_serialize_peers(parsed) =~= head + rest);
        assert(head + rest =~= data);
    }
}

/// A peer list whose ports and octets are in range serializes and
/// parses back to itself.
pub proof fn lemma_peers_round_trip_rev(peers: Seq<PeerAddr>)
    ensures
        spec_serialize_peers(peers).len() % 6 == 0,
        spec_parse_peers(spec_serialize_peers(peers)) == peers,
    decreases peers.len(),
{
    lemma_serialize_len(peers);
    if peers.len() == 0 {
        assert(spec_parse_peers(spec_serialize_peers(peers)) =~= peers);
    } else {
        let rest = peers.drop_first();
        lemma_peers_round_trip_rev(rest);
        lemma_serialize_len(rest);
        let data = spec_serialize_peers(peers);
        let head = peers[0].spec_to_bytes();
        assert(data =~= head + spec_serialize_peers(rest));
        assert(data.subrange(6, data.len() as int) =~= spec_serialize_peers(rest));
        assert(PeerAddr::spec_of_bytes(head) == peers[0]) by {
            assert(head[4] == peers[0].port / 256);
            assert(head[5] == peers[0].port % 256);
            assert((head[4] as u16) * 256 + (head[5] as u16) == peers[0].port);
            assert(PeerAddr::spec_of_bytes(head).octets =~= peers[0].octets);
        }
        assert forall|i: int| 0 <= i < peers.len() implies spec_parse_peers(data)[i]
            == peers[i] by {
            assert(spec_parse_peers(data)[i] == PeerAddr::spec_of_bytes(
                data.subrange(6 * i, 6 * i + 6),
            ));
            if i == 0 {
                assert(data.subrange(0, 6) =~= head);
            } else {
                assert(data.subrange(6 * i, 6 * i + 6) =~= spec_serialize_peers(rest).subrange(
                    6 * (i - 1),
                    6 * (i - 1) + 6,
                ));
                assert(spec_parse_peers(spec_serialize_peers(rest))[i - 1] == rest[i - 1]);
                assert(rest[i - 1] == peers[i]);
            }
        }
        assert(spec_parse_peers(data) =~= peers);
    }
}

} // verus!
