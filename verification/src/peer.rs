//! Peers, and the compact lists in which trackers name them.
//!
//! A compact list has six bytes for each peer: four of IPv4 address, two of port
//! number, both in network byte order.

use crate::bytes::{read_u16, u16_bytes, u16_value};
use crate::error::Error;
use vstd::prelude::*;

verus! {

/// Bytes that a peer takes up in a compact list.
pub const PEER_SIZE: usize = 6;

/// An IPv4 address.
#[derive(Clone, Copy, Debug, PartialEq, Eq, Structural)]
pub struct Ipv4Addr {
    pub a: u8,
    pub b: u8,
    pub c: u8,
    pub d: u8,
}

impl Ipv4Addr {
    /// The address `a.b.c.d`.
    pub fn new(a: u8, b: u8, c: u8, d: u8) -> (r: Ipv4Addr)
        ensures
            r == (Ipv4Addr { a, b, c, d }),
    {
        Ipv4Addr { a, b, c, d }
    }
}

/// A peer in the swarm.
#[derive(Clone, Copy, Debug, PartialEq, Eq, Structural)]
pub struct Peer {
    /// Identifier assigned to this peer for internal tracking
    pub id: u32,
    /// IPv4 address of the peer
    pub ip: Ipv4Addr,
    /// Port number for connecting to the peer
    pub port: u16,
}

impl Peer {
    /// Creates a peer with placeholder values.
    pub fn new() -> (r: Peer)
        ensures
            r == (Peer { id: 0, ip: Ipv4Addr { a: 1, b: 1, c: 1, d: 1 }, port: 0 }),
    {
        Peer { id: 0, ip: Ipv4Addr::new(1, 1, 1, 1), port: 0 }
    }
}

/// The address that the first four bytes of an entry hold.
pub open spec fn entry_ip(entry: Seq<u8>) -> Ipv4Addr {
    Ipv4Addr { a: entry[0], b: entry[1], c: entry[2], d: entry[3] }
}

/// The peer that the `i`-th entry of a compact list names.
pub open spec fn listed_peer(list: Seq<u8>, i: int) -> Peer {
    let entry = list.subrange(i * PEER_SIZE, (i + 1) * PEER_SIZE);
    Peer { id: (i % 0x1_0000_0000) as u32, ip: entry_ip(entry), port: u16_value(entry.skip(4)) as u16 }
}

/// The peers that a compact list names, in order.
pub open spec fn listed_peers(list: Seq<u8>) -> Seq<Peer> {
    Seq::new((list.len() / PEER_SIZE as nat), |i: int| listed_peer(list, i))
}

/// The entry of a compact list that names `peer`.
pub open spec fn compact_entry(peer: Peer) -> Seq<u8> {
    seq![peer.ip.a, peer.ip.b, peer.ip.c, peer.ip.d] + u16_bytes(peer.port)
}

/// Parses a compact peer list and numbers the peers from zero.
pub fn parse_peers(tracker_peers: Vec<u8>) -> (r: Result<Vec<Peer>, Error>)
    ensures
        match r {
            Ok(peers) => tracker_peers@.len() % 6 == 0 && peers@ == listed_peers(tracker_peers@),
            Err(e) => tracker_peers@.len() % 6 != 0 && e == Error::InvalidPeerList,
        },
{
    if tracker_peers.len() % PEER_SIZE != 0 {
        return Err(Error::InvalidPeerList);
    }
    let len: usize = tracker_peers.len();
    let count: usize = len / PEER_SIZE;
    let mut peers: Vec<Peer> = Vec::new();
    let mut i: usize = 0;
    while i < count
        invariant
            i <= count,
            count * PEER_SIZE <= len == tracker_peers@.len(),
            peers@ == Seq::new(i as nat, |j: int| listed_peer(tracker_peers@, j)),
        decreases count - i,
    {
        let offset: usize = i * PEER_SIZE;
        let ghost entry = tracker_peers@.subrange(offset as int, offset + PEER_SIZE);
        let ip = Ipv4Addr::new(
            tracker_peers[offset],
            tracker_peers[offset + 1],
            tracker_peers[offset + 2],
            tracker_peers[offset + 3],
        );
        let port_bytes = vstd::slice::slice_subrange(&tracker_peers, offset + 4, offset + 6);
        let port: u16 = read_u16(port_bytes);
        assert(entry.skip(4) =~= port_bytes@);
        let mut peer = Peer::new();
        peer.id = (i as u64 % 0x1_0000_0000) as u32;
        peer.ip = ip;
        peer.port = port;
        assert(peer == listed_peer(tracker_peers@, i as int));
        peers.push(peer);
        i += 1;
        assert(peers@ =~= Seq::new(i as nat, |j: int| listed_peer(tracker_peers@, j)));
    }
    Ok(peers)
}

/// The concatenated entries of `peers`.
pub open spec fn compact_list(peers: Seq<Peer>) -> Seq<u8>
    decreases peers.len(),
{
    if peers.len() == 0 {
        seq![]
    } else {
        compact_list(peers.drop_last()) + compact_entry(peers.last())
    }
}

proof fn lemma_compact_list_entry(peers: Seq<Peer>, i: int)
    requires
        0 <= i < peers.len(),
    ensures
        compact_list(peers).len() == PEER_SIZE * peers.len(),
        compact_list(peers).subrange(i * PEER_SIZE, (i + 1) * PEER_SIZE) == compact_entry(peers[i]),
    decreases peers.len(),
{
    let rest = peers.drop_last();
    let list = compact_list(peers);
    if rest.len() > 0 {
        lemma_compact_list_entry(rest, if i < rest.len() { i } else { 0 });
    }
    assert(compact_list(rest).len() == PEER_SIZE * rest.len());
    if i < rest.len() {
        assert(list.subrange(i * PEER_SIZE, (i + 1) * PEER_SIZE) =~= compact_list(rest).subrange(
            i * PEER_SIZE,
            (i + 1) * PEER_SIZE,
        ));
    } else {
        assert(list.subrange(i * PEER_SIZE, (i + 1) * PEER_SIZE) =~= compact_entry(peers[i]));
    }
}

/// Parsing the compact list of some peers gives their addresses and ports back, in
/// order.
pub proof fn law_compact_list_round_trip(peers: Seq<Peer>)
    ensures
        compact_list(peers).len() % 6 == 0,
        listed_peers(compact_list(peers)).len() == peers.len(),
        forall|i: int|
            0 <= i < peers.len() ==> {
                let listed = #[trigger] listed_peers(compact_list(peers))[i];
                &&& listed.ip == peers[i].ip
                &&& listed.port == peers[i].port
                &&& i < 0x1_0000_0000 ==> listed.id == i
            },
{
    let list = compact_list(peers);
    if peers.len() > 0 {
        lemma_compact_list_entry(peers, 0);
    }
    assert forall|i: int| 0 <= i < peers.len() implies {
        let listed = #[trigger] listed_peers(list)[i];
        &&& listed.ip == peers[i].ip
        &&& listed.port == peers[i].port
        &&& i < 0x1_0000_0000 ==> listed.id == i
    } by {
        lemma_compact_list_entry(peers, i);
        crate::bytes::law_u16_round_trip(peers[i].port);
        assert(compact_entry(peers[i]).skip(4) =~= u16_bytes(peers[i].port));
    }
}

/// Each entry of a compact list gives one peer: four bytes of address, in order, and two
/// bytes of port, the more significant first. The peers are numbered from zero.
pub proof fn law_listed_peers(list: Seq<u8>, i: int)
    requires
        0 <= i,
        6 * i + 6 <= list.len(),
        i < 0x1_0000_0000,
    ensures
        6 * listed_peers(list).len() <= list.len() < 6 * listed_peers(list).len() + 6,
        listed_peers(list)[i].id == i,
        listed_peers(list)[i].ip.a == list[6 * i],
        listed_peers(list)[i].ip.b == list[6 * i + 1],
        listed_peers(list)[i].ip.c == list[6 * i + 2],
        listed_peers(list)[i].ip.d == list[6 * i + 3],
        listed_peers(list)[i].port == 256 * list[6 * i + 4] + list[6 * i + 5],
{
}

} // verus!
