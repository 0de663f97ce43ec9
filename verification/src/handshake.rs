//! The handshake that opens a connection between two peers.
//!
//! It is laid out as `<pstrlen><pstr><reserved><info_hash><peer_id>`: one byte of
//! length, the protocol string, eight reserved bytes, the 20-byte hash of the
//! torrent's info dictionary and the 20-byte identifier of the peer.

use crate::bytes::{append, copy_range, zeros};
use crate::error::Error;
use vstd::prelude::*;

verus! {

/// "BitTorrent protocol" in ASCII.
pub open spec fn protocol_id() -> Seq<u8> {
    seq![
        0x42u8, 0x69, 0x74, 0x54, 0x6f, 0x72, 0x72, 0x65, 0x6e, 0x74, 0x20, 0x70, 0x72, 0x6f, 0x74,
        0x6f, 0x63, 0x6f, 0x6c,
    ]
}

/// "BitTorrent protocol" in ASCII.
pub(crate) fn protocol_bytes() -> (r: Vec<u8>)
    ensures
        r@ == protocol_id(),
{
    let pstr: Vec<u8> = vec![
        0x42u8, 0x69, 0x74, 0x54, 0x6f, 0x72, 0x72, 0x65, 0x6e, 0x74, 0x20, 0x70, 0x72, 0x6f, 0x74,
        0x6f, 0x63, 0x6f, 0x6c,
    ];
    assert(pstr@ =~= protocol_id());
    pstr
}

/// A handshake message.
pub struct Handshake {
    /// Length of the protocol identifier (19 for BitTorrent)
    pub pstrlen: usize,
    /// Protocol identifier bytes
    pub pstr: Vec<u8>,
    /// 8 reserved bytes for protocol extensions
    pub reserved: Vec<u8>,
    /// 20-byte SHA-1 hash of the torrent's info dictionary
    pub info_hash: Vec<u8>,
    /// 20-byte unique identifier of the peer
    pub peer_id: Vec<u8>,
}

/// The bytes of the handshake with these fields.
pub open spec fn handshake_bytes(
    pstrlen: usize,
    pstr: Seq<u8>,
    reserved: Seq<u8>,
    info_hash: Seq<u8>,
    peer_id: Seq<u8>,
) -> Seq<u8> {
    seq![(pstrlen % 0x100) as u8] + pstr + reserved + info_hash + peer_id
}

/// Whether the reserved bytes announce the extension protocol (BEP 10).
pub open spec fn announces_extensions(reserved: Seq<u8>) -> bool {
    reserved.len() > 5 && reserved[5] & 0x10 != 0
}

/// The protocol string is the ASCII text that the protocol is named by.
pub proof fn law_protocol_id(i: int)
    ensures
        protocol_id().len() == 19,
        protocol_id().len() == "BitTorrent protocol"@.len(),
        0 <= i < 19 ==> protocol_id()[i] as int == "BitTorrent protocol"@[i] as int,
{
    reveal_strlit("BitTorrent protocol");
}

/// The extension protocol is announced by bit 4 of the sixth reserved byte, whatever the
/// other bits are.
pub proof fn law_announces_extensions(reserved: Seq<u8>)
    ensures
        reserved.len() == 8 ==> announces_extensions(reserved) == (reserved[5] as int / 16 % 2 == 1),
        reserved.len() <= 5 ==> !announces_extensions(reserved),
{
    if reserved.len() > 5 {
        let b = reserved[5];
        assert((b & 0x10 != 0) == (b / 16 % 2 == 1)) by (bit_vector);
    }
}

impl Handshake {
    /// Creates a handshake of the BitTorrent protocol, with its reserved bytes
    /// all zero.
    pub fn new(peer_id: Vec<u8>, info_hash: Vec<u8>) -> (r: Self)
        ensures
            r.pstrlen == 19,
            r.pstr@ == protocol_id(),
            r.reserved@ == Seq::new(8, |i: int| 0u8),
            r.info_hash == info_hash,
            r.peer_id == peer_id,
    {
        let pstr = protocol_bytes();
        let pstrlen: usize = pstr.len();
        let reserved = zeros(8);
        Handshake { pstrlen, pstr, reserved, info_hash, peer_id }
    }

    /// The bytes of the handshake, in the order in which they are sent.
    pub fn serialize(&self) -> (r: Result<Vec<u8>, Error>)
        ensures
            r matches Ok(bytes) && bytes@ == handshake_bytes(
                self.pstrlen,
                self.pstr@,
                self.reserved@,
                self.info_hash@,
                self.peer_id@,
            ),
    {
        let mut serialized: Vec<u8> = Vec::new();
        serialized.push((self.pstrlen % 0x100) as u8);
        append(&mut serialized, &self.pstr);
        append(&mut serialized, &self.reserved);
        append(&mut serialized, &self.info_hash);
        append(&mut serialized, &self.peer_id);
        Ok(serialized)
    }

    /// Whether the sender supports the extension protocol (BEP 10).
    pub fn supports_extensions(&self) -> (r: bool)
        ensures
            r == announces_extensions(self.reserved@),
    {
        self.reserved.len() > 5 && self.reserved[5] & 0x10 != 0
    }
}

/// Reads a handshake off the bytes that follow its length byte.
///
/// It fails if the buffer does not hold enough bytes for all fields. Neither the
/// protocol string nor the reserved bytes are checked.
pub fn deserialize_handshake(buf: &[u8], pstrlen: usize) -> (r: Result<Handshake, Error>)
    ensures
        match r {
            Ok(h) => {
                &&& buf@.len() >= pstrlen + 48
                &&& h.pstrlen == pstrlen
                &&& h.pstr@ == buf@.subrange(0, pstrlen as int)
                &&& h.reserved@ == buf@.subrange(pstrlen as int, pstrlen + 8)
                &&& h.info_hash@ == buf@.subrange(pstrlen + 8, pstrlen + 28)
                &&& h.peer_id@ == buf@.subrange(pstrlen + 28, pstrlen + 48)
            },
            Err(e) => buf@.len() < pstrlen + 48 && e == Error::HandshakeTooShort,
        },
{
    if buf.len() < 48 || buf.len() - 48 < pstrlen {
        return Err(Error::HandshakeTooShort);
    }
    let pstr = copy_range(buf, 0, pstrlen);
    let reserved = copy_range(buf, pstrlen, pstrlen + 8);
    let info_hash = copy_range(buf, pstrlen + 8, pstrlen + 28);
    let peer_id = copy_range(buf, pstrlen + 28, pstrlen + 48);
    Ok(Handshake { pstrlen, pstr, reserved, info_hash, peer_id })
}

/// A handshake whose fields have their proper sizes takes `49 + pstrlen` bytes,
/// 68 for the BitTorrent protocol.
pub proof fn law_handshake_size(
    pstrlen: usize,
    pstr: Seq<u8>,
    reserved: Seq<u8>,
    info_hash: Seq<u8>,
    peer_id: Seq<u8>,
)
    requires
        pstr.len() == pstrlen,
        reserved.len() == 8,
        info_hash.len() == 20,
        peer_id.len() == 20,
    ensures
        handshake_bytes(pstrlen, pstr, reserved, info_hash, peer_id).len() == 49 + pstrlen,
        pstr == protocol_id() ==> handshake_bytes(
            pstrlen,
            pstr,
            reserved,
            info_hash,
            peer_id,
        ).len() == 68,
{
}

/// The first byte of a serialized handshake is its protocol length, and the bytes
/// after it hold the fields where the reader of a handshake takes them from.
pub proof fn law_handshake_round_trip(
    pstrlen: usize,
    pstr: Seq<u8>,
    reserved: Seq<u8>,
    info_hash: Seq<u8>,
    peer_id: Seq<u8>,
)
    requires
        pstrlen < 0x100,
        pstr.len() == pstrlen,
        reserved.len() == 8,
        info_hash.len() == 20,
        peer_id.len() == 20,
    ensures
        ({
            let bytes = handshake_bytes(pstrlen, pstr, reserved, info_hash, peer_id);
            let buf = bytes.skip(1);
            &&& bytes[0] == pstrlen
            &&& buf.len() == pstrlen + 48
            &&& buf.subrange(0, pstrlen as int) == pstr
            &&& buf.subrange(pstrlen as int, pstrlen + 8) == reserved
            &&& buf.subrange(pstrlen + 8, pstrlen + 28) == info_hash
            &&& buf.subrange(pstrlen + 28, pstrlen + 48) == peer_id
        }),
{
    let bytes = handshake_bytes(pstrlen, pstr, reserved, info_hash, peer_id);
    let buf = bytes.skip(1);
    assert(buf.subrange(0, pstrlen as int) =~= pstr);
    assert(buf.subrange(pstrlen as int, pstrlen + 8) =~= reserved);
    assert(buf.subrange(pstrlen + 8, pstrlen + 28) =~= info_hash);
    assert(buf.subrange(pstrlen + 28, pstrlen + 48) =~= peer_id);
}

} // verus!
