//! What is known about a remote peer, and the messages exchanged with it.
//!
//! A `Client` is the protocol state of one connection. It turns decisions into
//! bytes to send and received messages into state; the connection itself belongs
//! to the caller.
//!
//! The bitfield has one bit for each piece: bit 7 (the most significant) of byte 0
//! is piece 0, bit 0 is piece 7, and so on. A set bit means that the peer has the
//! piece.

use crate::bencode::{bencode_value_len, value_len};
use crate::bytes::{
    append, copy_range, law_u32_round_trip, law_u32_written_back, overwrite, overwritten, read_u32,
    same_bytes, u32_bytes, u32_value, write_u32,
};
use crate::error::Error;
use crate::handshake::{
    announces_extensions, deserialize_handshake, handshake_bytes, protocol_bytes, protocol_id,
    Handshake,
};
use crate::message::{
    deserialize_message, framed, Message, MESSAGE_BITFIELD, MESSAGE_CANCEL, MESSAGE_CHOKE,
    MESSAGE_EXTENDED, MESSAGE_HAVE, MESSAGE_INTERESTED, MESSAGE_KEEPALIVE, MESSAGE_NOT_INTERESTED,
    MESSAGE_PIECE, MESSAGE_REQUEST, MESSAGE_UNCHOKE,
};
use crate::metadata::{assembled, MetadataDownload, MAX_METADATA_SIZE};
use crate::peer::Peer;
use crate::piece::PieceWork;
use crate::text::same_text;
use vstd::prelude::*;

verus! {

/// How many messages are read while waiting for a particular one.
pub const MAX_MESSAGES: u32 = 100;

/// Asks for a piece of the metadata (BEP 9).
pub const METADATA_MSG_REQUEST: u8 = 0;

/// Carries a piece of the metadata (BEP 9).
pub const METADATA_MSG_DATA: u8 = 1;

/// Declines to send a piece of the metadata (BEP 9).
pub const METADATA_MSG_REJECT: u8 = 2;

/// The extension ID under which peers address metadata messages to this client.
pub const OWN_UT_METADATA_ID: u8 = 1;

/// The protocol state of a connection to a remote peer.
pub struct Client {
    peer: Peer,
    peer_id: Vec<u8>,
    info_hash: Vec<u8>,
    bitfield: Vec<u8>,
    choked: bool,
    supports_extensions: bool,
    peer_ut_metadata_id: u8,
    peer_metadata_size: u32,
}

/// The protocol state of a connection, as a value.
#[verifier::ext_equal]
pub struct ClientView {
    /// The remote peer
    pub peer: Peer,
    /// 20-byte identifier of this client
    pub peer_id: Seq<u8>,
    /// 20-byte hash of the torrent's info dictionary
    pub info_hash: Seq<u8>,
    /// Which pieces the peer has
    pub bitfield: Seq<u8>,
    /// Whether the peer refuses requests
    pub choked: bool,
    /// Whether the peer supports the extension protocol (BEP 10)
    pub supports_extensions: bool,
    /// The peer's ut_metadata extension ID (0 if not supported)
    pub peer_ut_metadata_id: u8,
    /// Size of the torrent metadata that the peer announces
    pub peer_metadata_size: u32,
}

impl View for Client {
    type V = ClientView;

    closed spec fn view(&self) -> ClientView {
        ClientView {
            peer: self.peer,
            peer_id: self.peer_id@,
            info_hash: self.info_hash@,
            bitfield: self.bitfield@,
            choked: self.choked,
            supports_extensions: self.supports_extensions,
            peer_ut_metadata_id: self.peer_ut_metadata_id,
            peer_metadata_size: self.peer_metadata_size,
        }
    }
}

/// The state of a fresh connection to `peer`: choked, with no piece known to be
/// available and no extension known to be supported.
pub open spec fn fresh_client(peer: Peer, peer_id: Seq<u8>, info_hash: Seq<u8>) -> ClientView {
    ClientView {
        peer,
        peer_id,
        info_hash,
        bitfield: Seq::empty(),
        choked: true,
        supports_extensions: false,
        peer_ut_metadata_id: 0,
        peer_metadata_size: 0,
    }
}

/// On a fresh connection the peer refuses requests, no piece is known to be available and
/// no extension to be supported; the connection is to the given peer, about the given
/// torrent.
pub proof fn law_fresh_client(peer: Peer, peer_id: Seq<u8>, info_hash: Seq<u8>, index: nat)
    ensures
        fresh_client(peer, peer_id, info_hash).choked,
        !available(fresh_client(peer, peer_id, info_hash).bitfield, index),
        fresh_client(peer, peer_id, info_hash).bitfield.len() == 0,
        !fresh_client(peer, peer_id, info_hash).supports_extensions,
        fresh_client(peer, peer_id, info_hash).peer_ut_metadata_id == 0,
        fresh_client(peer, peer_id, info_hash).peer_metadata_size == 0,
        fresh_client(peer, peer_id, info_hash).peer == peer,
        fresh_client(peer, peer_id, info_hash).peer_id == peer_id,
        fresh_client(peer, peer_id, info_hash).info_hash == info_hash,
{
}

/// The limits and numbers of the extension protocol.
pub proof fn law_extension_numbers()
    ensures
        MAX_MESSAGES == 100,
        METADATA_MSG_REQUEST == 0,
        METADATA_MSG_DATA == 1,
        METADATA_MSG_REJECT == 2,
        OWN_UT_METADATA_ID == 1,
{
}

/// The content of an extension handshake (BEP 10).
pub struct ExtensionHandshake {
    /// Extension names, none of them twice, with the message IDs given to them
    pub extensions: Vec<(String, u8)>,
    /// Size of the torrent metadata, from a peer that has it
    pub metadata_size: Option<u32>,
}

/// The header of a metadata message (BEP 9).
pub struct MetadataMessage {
    /// Message type: request, data or reject
    pub msg_type: u8,
    /// Metadata piece index
    pub piece: u32,
    /// Total metadata size in bytes (present in data messages)
    pub total_size: Option<u32>,
}

/// What came of a message read while waiting for an extension handshake.
#[derive(Debug, PartialEq, Eq)]
pub enum ExtensionWait {
    /// The message was another one; read the next.
    Waiting,
    /// The message held the handshake, in this bencoded dictionary.
    Dictionary(Vec<u8>),
}

/// What came of a message read while waiting for a piece of metadata.
#[derive(Debug, PartialEq, Eq)]
pub enum MetadataWait {
    /// The message was another one; read the next.
    Waiting,
    /// A metadata message: its bencoded header, and the bytes after it.
    Reply { header: Vec<u8>, data: Vec<u8> },
}

/// Whether bit `7 - k` of `b` is set.
pub open spec fn bit(b: u8, k: nat) -> bool {
    (b >> ((7 - k) as u8)) & 1 != 0
}

/// Whether the bitfield says that piece `index` is there.
pub open spec fn available(bitfield: Seq<u8>, index: nat) -> bool {
    index / 8 < bitfield.len() && bit(bitfield[(index / 8) as int], index % 8)
}

/// The bitfield followed by zero bytes, as far as piece `index` needs.
pub open spec fn padded(bitfield: Seq<u8>, index: nat) -> Seq<u8> {
    if index / 8 < bitfield.len() {
        bitfield
    } else {
        bitfield + Seq::new((index / 8 + 1 - bitfield.len()) as nat, |i: int| 0u8)
    }
}

/// The bitfield with the bit of piece `index` set, grown if need be.
pub open spec fn marked(bitfield: Seq<u8>, index: nat) -> Seq<u8> {
    let at = (index / 8) as int;
    padded(bitfield, index).update(
        at,
        padded(bitfield, index)[at] | (1u8 << ((7 - index % 8) as u8)),
    )
}

/// The value of the bit that stands for a piece within its byte.
pub open spec fn bit_value(index: nat) -> int {
    seq![128int, 64, 32, 16, 8, 4, 2, 1][(index % 8) as int]
}

/// A bitfield holds one bit for each piece: eight to the byte, the most significant bit
/// first. A piece is there just when its bit is one, and beyond the end none is.
pub proof fn law_available(bitfield: Seq<u8>, index: nat)
    ensures
        index >= 8 * bitfield.len() ==> !available(bitfield, index),
        index < 8 * bitfield.len() ==> available(bitfield, index) == (
        bitfield[(index / 8) as int] as int / bit_value(index) % 2 == 1),
{
    if index < 8 * bitfield.len() {
        let b = bitfield[(index / 8) as int];
        assert((b >> 7) & 1 != 0 <==> b / 128 % 2 == 1) by (bit_vector);
        assert((b >> 6) & 1 != 0 <==> b / 64 % 2 == 1) by (bit_vector);
        assert((b >> 5) & 1 != 0 <==> b / 32 % 2 == 1) by (bit_vector);
        assert((b >> 4) & 1 != 0 <==> b / 16 % 2 == 1) by (bit_vector);
        assert((b >> 3) & 1 != 0 <==> b / 8 % 2 == 1) by (bit_vector);
        assert((b >> 2) & 1 != 0 <==> b / 4 % 2 == 1) by (bit_vector);
        assert((b >> 1) & 1 != 0 <==> b / 2 % 2 == 1) by (bit_vector);
        assert((b >> 0) & 1 != 0 <==> b / 1 % 2 == 1) by (bit_vector);
        let k = index % 8;
        assert(k == 0 || k == 1 || k == 2 || k == 3 || k == 4 || k == 5 || k == 6 || k == 7);
    }
}

proof fn lemma_bit_set(b: u8, k: nat, j: nat)
    requires
        k < 8,
        j < 8,
    ensures
        bit(b | (1u8 << ((7 - k) as u8)), j) == (bit(b, j) || j == k),
        !bit(0, j),
{
    let x = (7 - k) as u8;
    let y = (7 - j) as u8;
    assert(((b | (1u8 << x)) >> y) & 1 != 0 <==> ((b >> y) & 1 != 0 || x == y)) by (bit_vector)
        requires
            x < 8,
            y < 8,
    ;
    assert((0u8 >> y) & 1 == 0) by (bit_vector);
}

/// Marking a piece makes it available and changes no other piece; the bitfield
/// grows only as far as the piece needs.
pub proof fn law_marked(bitfield: Seq<u8>, index: nat, other: nat)
    ensures
        available(marked(bitfield, index), other) == (available(bitfield, other) || other == index),
        marked(bitfield, index).len() == if index / 8 < bitfield.len() {
            bitfield.len()
        } else {
            index / 8 + 1
        },
{
    let pad = padded(bitfield, index);
    lemma_bit_set(pad[(index / 8) as int], index % 8, other % 8);
    if other / 8 < pad.len() && other / 8 >= bitfield.len() {
        assert(pad[(other / 8) as int] == 0);
    }
    if other / 8 == index / 8 {
        assert(other == index <==> other % 8 == index % 8);
    }
}

/// The state after a message that may come at any time: a bitfield, the
/// announcement of a piece, or a change of mind about requests.
pub open spec fn noted(client: ClientView, id: u8, payload: Seq<u8>) -> ClientView {
    if id == MESSAGE_BITFIELD {
        ClientView { bitfield: payload, ..client }
    } else if id == MESSAGE_HAVE && payload.len() == 4 {
        ClientView { bitfield: marked(client.bitfield, u32_value(payload) as nat), ..client }
    } else if id == MESSAGE_CHOKE {
        ClientView { choked: true, ..client }
    } else if id == MESSAGE_UNCHOKE {
        ClientView { choked: false, ..client }
    } else {
        client
    }
}

/// After a bitfield message the peer has just the pieces whose bits the payload holds,
/// all of them.
pub proof fn law_bitfield_noted(client: ClientView, payload: Seq<u8>, index: nat)
    ensures
        noted(client, 5, payload).bitfield == payload,
        available(noted(client, 5, payload).bitfield, index) == (index < 8 * payload.len()
            && payload[(index / 8) as int] as int / bit_value(index) % 2 == 1),
{
    law_available(payload, index);
}

/// After any message but a bitfield the peer has the pieces it had, and besides them the
/// one that the message announces, if it announces one.
pub proof fn law_pieces_noted(client: ClientView, id: u8, payload: Seq<u8>, index: nat)
    requires
        id != 5,
    ensures
        available(noted(client, id, payload).bitfield, index) == (available(
            client.bitfield,
            index,
        ) || (id == 4 && payload.len() == 4 && index == payload[0] * 0x100_0000 + payload[1]
            * 0x1_0000 + payload[2] * 0x100 + payload[3])),
{
    if id == 4 && payload.len() == 4 {
        law_marked(client.bitfield, u32_value(payload) as nat, index);
    }
}

/// Only a choke and an unchoke message change whether the peer takes requests, and no
/// message changes who the peer is, what is downloaded, or what extensions there are.
pub proof fn law_choke_noted(client: ClientView, id: u8, payload: Seq<u8>)
    ensures
        noted(client, id, payload).choked == (id == 0 || (id != 1 && client.choked)),
        noted(client, id, payload).peer == client.peer,
        noted(client, id, payload).peer_id == client.peer_id,
        noted(client, id, payload).info_hash == client.info_hash,
        noted(client, id, payload).supports_extensions == client.supports_extensions,
        noted(client, id, payload).peer_ut_metadata_id == client.peer_ut_metadata_id,
        noted(client, id, payload).peer_metadata_size == client.peer_metadata_size,
        id != 4 && id != 5 ==> noted(client, id, payload).bitfield == client.bitfield,
        id == 4 && payload.len() != 4 ==> noted(client, id, payload).bitfield == client.bitfield,
{
}

/// A peer that is sent the announcement of a piece notes that the sender has it.
pub proof fn law_have_noted(client: ClientView, index: u32)
    ensures
        noted(client, MESSAGE_HAVE, u32_bytes(index)) == (ClientView {
            bitfield: marked(client.bitfield, index as nat),
            ..client
        }),
        available(noted(client, MESSAGE_HAVE, u32_bytes(index)).bitfield, index as nat),
{
    law_u32_round_trip(index, Seq::empty());
    assert(u32_bytes(index) + Seq::<u8>::empty() =~= u32_bytes(index));
    law_marked(client.bitfield, index as nat, index as nat);
}

/// Whether a message is an extension handshake.
pub open spec fn is_extension_handshake(id: u8, payload: Seq<u8>) -> bool {
    id == MESSAGE_EXTENDED && payload.len() > 0 && payload[0] == 0
}

/// Whether a message is a metadata message.
pub open spec fn is_metadata_message(id: u8, payload: Seq<u8>) -> bool {
    id == MESSAGE_EXTENDED && payload.len() > 0 && payload[0] == OWN_UT_METADATA_ID
}

/// An extended message with ID 0 in front of a dictionary is an extension handshake, one
/// with ID 1 is a metadata message, and there are no others.
pub proof fn law_extension_messages(id: u8, payload: Seq<u8>, dictionary: Seq<u8>)
    ensures
        is_extension_handshake(20, seq![0u8] + dictionary),
        is_metadata_message(20, seq![1u8] + dictionary),
        (seq![0u8] + dictionary).skip(1) == dictionary,
        is_extension_handshake(id, payload) ==> id == 20 && payload == seq![0u8] + payload.skip(1),
        is_metadata_message(id, payload) ==> id == 20 && payload == seq![1u8] + payload.skip(1),
{
    assert((seq![0u8] + dictionary).skip(1) =~= dictionary);
    if payload.len() > 0 {
        assert(payload =~= seq![payload[0]] + payload.skip(1));
    }
}

/// The ID that the first entry named `name` gives.
pub open spec fn extension_id(extensions: Seq<(String, u8)>, name: Seq<char>) -> Option<u8>
    decreases extensions.len(),
{
    if extensions.len() == 0 {
        None
    } else if extensions[0].0@ == name {
        Some(extensions[0].1)
    } else {
        extension_id(extensions.skip(1), name)
    }
}

/// Whether no name occurs twice.
pub open spec fn distinct_names(extensions: Seq<(String, u8)>) -> bool {
    forall|i: int, j: int|
        0 <= i < j < extensions.len() ==> (#[trigger] extensions[i]).0@ != (
        #[trigger] extensions[j]).0@
}

/// Whether there is an entry with this name and ID.
pub open spec fn has_entry(extensions: Seq<(String, u8)>, name: Seq<char>, id: u8) -> bool {
    exists|i: int|
        0 <= i < extensions.len() && (#[trigger] extensions[i]).0@ == name && extensions[i].1 == id
}

/// When no name occurs twice, the ID found for a name is that of its only entry, and none
/// is found just when there is no such entry.
pub proof fn law_extension_found(extensions: Seq<(String, u8)>, name: Seq<char>, id: u8)
    requires
        distinct_names(extensions),
    ensures
        (extension_id(extensions, name) == Some(id)) == has_entry(extensions, name, id),
    decreases extensions.len(),
{
    if extensions.len() > 0 {
        let rest = extensions.skip(1);
        assert forall|i: int, j: int| 0 <= i < j < rest.len() implies (#[trigger] rest[i]).0@ != (
        #[trigger] rest[j]).0@ by {
            assert(rest[i] == extensions[i + 1] && rest[j] == extensions[j + 1]);
        }
        law_extension_found(rest, name, id);
        if has_entry(rest, name, id) {
            let i = choose|i: int|
                0 <= i < rest.len() && (#[trigger] rest[i]).0@ == name && rest[i].1 == id;
            assert(extensions[i + 1] == rest[i]);
            assert(extensions[0].0@ != extensions[i + 1].0@);
        }
        if has_entry(extensions, name, id) {
            let i = choose|i: int|
                0 <= i < extensions.len() && (#[trigger] extensions[i]).0@ == name
                    && extensions[i].1 == id;
            if i > 0 {
                assert(rest[i - 1] == extensions[i]);
                assert(extensions[0].0@ != extensions[i].0@);
            }
        }
        if extensions[0].0@ == name {
            assert(has_entry(extensions, name, extensions[0].1));
        }
    }
}

/// When no name occurs twice, the ID found for a name does not depend on the order of the
/// entries.
pub proof fn law_extension_order(
    a: Seq<(String, u8)>,
    b: Seq<(String, u8)>,
    name: Seq<char>,
)
    requires
        distinct_names(a),
        distinct_names(b),
        forall|id: u8| has_entry(a, name, id) == has_entry(b, name, id),
    ensures
        extension_id(a, name) == extension_id(b, name),
{
    match extension_id(a, name) {
        Some(id) => {
            law_extension_found(a, name, id);
            law_extension_found(b, name, id);
        },
        None => {
            if let Some(id) = extension_id(b, name) {
                law_extension_found(a, name, id);
                law_extension_found(b, name, id);
            }
        },
    }
}

/// The state after an extension handshake from the peer.
pub open spec fn extended(client: ClientView, handshake: ExtensionHandshake) -> ClientView {
    ClientView {
        peer_ut_metadata_id: match extension_id(handshake.extensions@, "ut_metadata"@) {
            Some(id) => id,
            None => client.peer_ut_metadata_id,
        },
        peer_metadata_size: match handshake.metadata_size {
            Some(size) => size,
            None => client.peer_metadata_size,
        },
        ..client
    }
}

/// After an extension handshake, metadata messages go by the ID that its entry for them
/// gives, whichever it is, and the metadata has the size that it states. What it does not
/// say stays as it was, and so does everything else.
pub proof fn law_extended(client: ClientView, handshake: ExtensionHandshake, id: u8)
    requires
        distinct_names(handshake.extensions@),
    ensures
        has_entry(handshake.extensions@, "ut_metadata"@, id) ==> extended(
            client,
            handshake,
        ).peer_ut_metadata_id == id,
        (forall|other: u8| !has_entry(handshake.extensions@, "ut_metadata"@, other)) ==> extended(
            client,
            handshake,
        ).peer_ut_metadata_id == client.peer_ut_metadata_id,
        handshake.metadata_size matches Some(size) ==> extended(client, handshake).peer_metadata_size
            == size,
        handshake.metadata_size is None ==> extended(client, handshake).peer_metadata_size
            == client.peer_metadata_size,
        extended(client, handshake) == (ClientView {
            peer_ut_metadata_id: extended(client, handshake).peer_ut_metadata_id,
            peer_metadata_size: extended(client, handshake).peer_metadata_size,
            ..client
        }),
{
    let entries = handshake.extensions@;
    law_extension_found(entries, "ut_metadata"@, id);
    if let Some(found) = extension_id(entries, "ut_metadata"@) {
        law_extension_found(entries, "ut_metadata"@, found);
    }
}

/// The payload of a request or of its cancellation.
pub open spec fn block_payload(index: u32, begin: u32, length: u32) -> Seq<u8> {
    u32_bytes(index) + u32_bytes(begin) + u32_bytes(length)
}

/// Where in the piece the block of a piece message begins.
pub open spec fn block_begin(payload: Seq<u8>) -> int {
    u32_value(payload.skip(4))
}

/// The block that a piece message carries.
pub open spec fn block(payload: Seq<u8>) -> Seq<u8> {
    payload.skip(8)
}

/// Whether a message carries a block of the piece that `work` is about.
pub open spec fn carries_block(id: u8, payload: Seq<u8>, work: PieceWork) -> bool {
    &&& id == MESSAGE_PIECE
    &&& payload.len() >= 8
    &&& u32_value(payload) == work.index
    &&& block_begin(payload) + block(payload).len() <= work.length
}

/// Whether `work` can take the block of a message, if it carries one: there is room
/// in the buffer, the byte counter does not overflow, and a request waits for it.
pub open spec fn can_store(id: u8, payload: Seq<u8>, work: PieceWork) -> bool {
    carries_block(id, payload, work) ==> {
        &&& block_begin(payload) + block(payload).len() <= work.data@.len()
        &&& work.downloaded + block(payload).len() <= u32::MAX
        &&& work.requests > 0
    }
}

/// Why a message carries no block of the piece that `work` is about.
pub open spec fn block_error(id: u8, payload: Seq<u8>, work: PieceWork) -> Error {
    if id != MESSAGE_PIECE || payload.len() < 8 {
        Error::InvalidPieceMessage
    } else if u32_value(payload) != work.index {
        Error::InvalidPieceIndex
    } else {
        Error::InvalidBlockOffset
    }
}

/// A request says which piece, where in the piece and how many bytes, each in four bytes.
pub proof fn law_block_payload(index: u32, begin: u32, length: u32)
    ensures
        block_payload(index, begin, length).len() == 12,
        u32_value(block_payload(index, begin, length)) == index,
        u32_value(block_payload(index, begin, length).skip(4)) == begin,
        u32_value(block_payload(index, begin, length).skip(8)) == length,
{
    let p = block_payload(index, begin, length);
    law_u32_round_trip(index, u32_bytes(begin) + u32_bytes(length));
    law_u32_round_trip(begin, u32_bytes(length));
    law_u32_round_trip(length, Seq::empty());
    assert(p =~= u32_bytes(index) + (u32_bytes(begin) + u32_bytes(length)));
    assert(p.skip(4) =~= u32_bytes(begin) + u32_bytes(length));
    assert(p.skip(8) =~= u32_bytes(length) + Seq::<u8>::empty());
}

/// A piece message is the index of the piece, the place in the piece and the block. It is
/// accepted for a piece just when it is of that piece and the block lies within it.
pub proof fn law_block_read(index: u32, begin: u32, content: Seq<u8>, work: PieceWork)
    ensures
        ({
            let payload = u32_bytes(index) + u32_bytes(begin) + content;
            &&& block_begin(payload) == begin
            &&& block(payload) == content
            &&& carries_block(7, payload, work) == (index == work.index && begin + content.len()
                <= work.length)
            &&& !carries_block(7, payload, work) ==> block_error(7, payload, work) == if index
                != work.index {
                Error::InvalidPieceIndex
            } else {
                Error::InvalidBlockOffset
            }
        }),
{
    let payload = u32_bytes(index) + u32_bytes(begin) + content;
    law_u32_round_trip(index, u32_bytes(begin) + content);
    law_u32_round_trip(begin, content);
    assert(payload =~= u32_bytes(index) + (u32_bytes(begin) + content));
    assert(payload.skip(4) =~= u32_bytes(begin) + content);
    assert(payload.skip(8) =~= content);
}

/// A message carries a block only if it is a piece message of at least eight bytes, and
/// such a message is made of an index, a place and a block.
pub proof fn law_block_shape(id: u8, payload: Seq<u8>, work: PieceWork)
    ensures
        id != 7 || payload.len() < 8 ==> !carries_block(id, payload, work) && block_error(
            id,
            payload,
            work,
        ) == Error::InvalidPieceMessage,
        payload.len() >= 8 ==> payload == u32_bytes(u32_value(payload) as u32) + u32_bytes(
            u32_value(payload.skip(4)) as u32,
        ) + payload.skip(8),
{
    if payload.len() >= 8 {
        law_u32_written_back(payload);
        law_u32_written_back(payload.skip(4));
        assert(payload =~= payload.take(4) + payload.skip(4).take(4) + payload.skip(8));
    }
}

/// A piece whose buffer has its size, of which a request waits and whose byte counter is
/// not about to overflow, can take whatever message comes.
pub proof fn law_can_store(id: u8, payload: Seq<u8>, work: PieceWork)
    requires
        work.data@.len() == work.length,
        work.requests > 0,
        work.downloaded + work.length <= u32::MAX,
    ensures
        can_store(id, payload, work),
{
}

/// Where a block can be stored, there is room for it, a request waits for it, and the byte
/// counter does not overflow.
pub proof fn law_stored_within(payload: Seq<u8>, work: PieceWork)
    requires
        carries_block(7, payload, work),
        can_store(7, payload, work),
    ensures
        block_begin(payload) + (payload.len() - 8) <= work.data@.len(),
        work.requests > 0,
        work.downloaded + (payload.len() - 8) <= u32::MAX,
{
}

impl Client {
    /// Creates the state of a fresh connection to `peer`: choked, with no piece
    /// known to be available.
    pub fn new(peer: Peer, peer_id: Vec<u8>, info_hash: Vec<u8>) -> (r: Client)
        ensures
            r@ == fresh_client(peer, peer_id@, info_hash@),
    {
        let bitfield: Vec<u8> = Vec::new();
        Client {
            peer,
            peer_id,
            info_hash,
            bitfield,
            choked: true,
            supports_extensions: false,
            peer_ut_metadata_id: 0,
            peer_metadata_size: 0,
        }
    }

    /// The remote peer.
    pub fn peer(&self) -> (r: Peer)
        ensures
            r == self@.peer,
    {
        self.peer
    }

    /// Whether the peer supports the extension protocol (BEP 10).
    pub fn supports_extensions(&self) -> (r: bool)
        ensures
            r == self@.supports_extensions,
    {
        self.supports_extensions
    }

    /// Whether the peer supports the ut_metadata extension (BEP 9).
    pub fn supports_ut_metadata(&self) -> (r: bool)
        ensures
            r == (self@.peer_ut_metadata_id != 0),
    {
        self.peer_ut_metadata_id != 0
    }

    /// Whether the peer refuses requests.
    pub fn is_choked(&self) -> (r: bool)
        ensures
            r == self@.choked,
    {
        self.choked
    }

    /// Whether the peer has a piece. An index out of bounds is no piece it has.
    pub fn has_piece(&self, index: u32) -> (r: bool)
        ensures
            r == available(self@.bitfield, index as nat),
    {
        let byte_index: usize = (index / 8) as usize;
        let offset: u8 = (index % 8) as u8;
        if byte_index < self.bitfield.len() {
            return (self.bitfield[byte_index] >> (7 - offset)) & 1 != 0;
        }
        false
    }

    /// Marks a piece as available, growing the bitfield if the index exceeds it.
    pub fn set_piece(&mut self, index: u32)
        ensures
            final(self)@ == (ClientView {
                bitfield: marked(old(self)@.bitfield, index as nat),
                ..old(self)@
            }),
    {
        let byte_index: usize = (index / 8) as usize;
        let offset: u8 = (index % 8) as u8;
        if byte_index >= self.bitfield.len() {
            self.bitfield.resize(byte_index + 1, 0);
        }
        assert(self.bitfield@ =~= padded(old(self)@.bitfield, index as nat)) by {
            let before = old(self)@.bitfield;
            let pad = padded(before, index as nat);
            assert forall|i: int| 0 <= i < pad.len() implies self.bitfield@[i] == pad[i] by {
                if i < before.len() && byte_index >= before.len() {
                    assert(self.bitfield@.subrange(0, before.len() as int)[i] == before[i]);
                }
            }
        }
        let b: u8 = self.bitfield[byte_index] | (1u8 << (7 - offset));
        self.bitfield[byte_index] = b;
        assert(self.bitfield@ =~= marked(old(self)@.bitfield, index as nat));
    }

    /// The handshake to open the connection with.
    pub fn handshake_request(&self) -> (r: Vec<u8>)
        ensures
            r@ == handshake_bytes(
                19,
                protocol_id(),
                Seq::new(8, |i: int| 0u8),
                self@.info_hash,
                self@.peer_id,
            ),
    {
        let peer_id = copy_range(&self.peer_id, 0, self.peer_id.len());
        let info_hash = copy_range(&self.info_hash, 0, self.info_hash.len());
        assert(peer_id@ =~= self.peer_id@);
        assert(info_hash@ =~= self.info_hash@);
        let handshake = Handshake::new(peer_id, info_hash);
        match handshake.serialize() {
            Ok(bytes) => bytes,
            Err(_) => Vec::new(),
        }
    }

    /// The length of the protocol string, from the first byte of the peer's
    /// handshake.
    pub fn read_handshake_len(first: u8) -> (r: Result<usize, Error>)
        ensures
            match r {
                Ok(len) => first != 0 && len == first,
                Err(e) => first == 0 && e == Error::InvalidHandshakeLength,
            },
    {
        if first == 0 {
            return Err(Error::InvalidHandshakeLength);
        }
        Ok(first as usize)
    }

    /// Takes in the peer's handshake: the bytes after its length byte.
    ///
    /// The handshake fails if it is incomplete, of another protocol or about another
    /// torrent.
    pub fn handshake_with_peer(&mut self, handshake_buf: &[u8], handshake_len: usize) -> (r: Result<
        (),
        Error,
    >)
        ensures
            ({
                let n = handshake_len as int;
                let complete = handshake_buf@.len() >= n + 48;
                let same_protocol = handshake_buf@.subrange(0, n) == protocol_id();
                let same_torrent = handshake_buf@.subrange(n + 8, n + 28) == old(self)@.info_hash;
                match r {
                    Ok(()) => {
                        &&& complete && same_protocol && same_torrent
                        &&& final(self)@ == (ClientView {
                            supports_extensions: announces_extensions(
                                handshake_buf@.subrange(n, n + 8),
                            ),
                            ..old(self)@
                        })
                    },
                    Err(e) => {
                        &&& final(self)@ == old(self)@
                        &&& !complete ==> e == Error::HandshakeTooShort
                        &&& complete ==> !(same_protocol && same_torrent) && e
                            == Error::InvalidHandshake
                    },
                }
            }),
    {
        let handshake = match deserialize_handshake(handshake_buf, handshake_len) {
            Ok(handshake) => handshake,
            Err(e) => {
                return Err(e);
            },
        };
        if !same_bytes(&handshake.pstr, &protocol_bytes()) || !same_bytes(
            &handshake.info_hash,
            &self.info_hash,
        ) {
            return Err(Error::InvalidHandshake);
        }
        self.supports_extensions = handshake.supports_extensions();
        Ok(())
    }

    /// The extension handshake to send, if the peer supports extensions: it maps
    /// ut_metadata to ID 1 and names no metadata size.
    pub fn send_extension_handshake(&self) -> (r: Option<ExtensionHandshake>)
        ensures
            match r {
                Some(handshake) => {
                    &&& self@.supports_extensions
                    &&& distinct_names(handshake.extensions@)
                    &&& handshake.extensions@.len() == 1
                    &&& handshake.extensions@[0].0@ == "ut_metadata"@
                    &&& handshake.extensions@[0].1 == OWN_UT_METADATA_ID
                    &&& handshake.metadata_size is None
                },
                None => !self@.supports_extensions,
            },
    {
        if !self.supports_extensions {
            return None;
        }
        let mut extensions: Vec<(String, u8)> = Vec::new();
        extensions.push(("ut_metadata".to_owned(), OWN_UT_METADATA_ID));
        Some(ExtensionHandshake { extensions, metadata_size: None })
    }

    /// The message that carries a bencoded extension handshake.
    pub fn extension_handshake_message(dictionary: &[u8]) -> (r: Vec<u8>)
        ensures
            r@ == framed(MESSAGE_EXTENDED, seq![0u8] + dictionary@),
    {
        extended_message(0, dictionary)
    }

    /// Takes in a message while waiting for the peer's extension handshake, after
    /// `seen` other messages. The wait ends with an error after the last message
    /// that it allows.
    pub fn read_extension_handshake(&mut self, message: Message, seen: u32) -> (r: Result<
        ExtensionWait,
        Error,
    >)
        ensures
            final(self)@ == noted(old(self)@, message.id, message.payload@),
            ({
                let found = is_extension_handshake(message.id, message.payload@);
                match r {
                    Ok(ExtensionWait::Dictionary(dictionary)) => found && dictionary@
                        == message.payload@.skip(1),
                    Ok(ExtensionWait::Waiting) => !found && seen + 1 < MAX_MESSAGES,
                    Err(e) => !found && seen + 1 >= MAX_MESSAGES && e
                        == Error::NoExtensionHandshake(MAX_MESSAGES),
                }
            }),
    {
        self.note(&message);
        if message.id == MESSAGE_EXTENDED && message.payload.len() > 0 && message.payload[0] == 0 {
            let dictionary = copy_range(&message.payload, 1, message.payload.len());
            assert(dictionary@ =~= message.payload@.skip(1));
            return Ok(ExtensionWait::Dictionary(dictionary));
        }
        if seen < MAX_MESSAGES - 1 {
            Ok(ExtensionWait::Waiting)
        } else {
            Err(Error::NoExtensionHandshake(MAX_MESSAGES))
        }
    }

    /// Takes in the content of the peer's extension handshake.
    pub fn parse_extension_handshake(&mut self, handshake: &ExtensionHandshake)
        ensures
            final(self)@ == extended(old(self)@, *handshake),
    {
        match find_extension(&handshake.extensions, "ut_metadata") {
            Some(id) => {
                self.peer_ut_metadata_id = id;
            },
            None => {},
        }
        match handshake.metadata_size {
            Some(size) => {
                self.peer_metadata_size = size;
            },
            None => {},
        }
    }

    /// The request for a piece of the metadata, if the peer takes such requests.
    pub fn request_metadata_piece(&self, piece: u32) -> (r: Result<MetadataMessage, Error>)
        ensures
            match r {
                Ok(request) => self@.peer_ut_metadata_id != 0 && request == (MetadataMessage {
                    msg_type: METADATA_MSG_REQUEST,
                    piece,
                    total_size: None,
                }),
                Err(e) => self@.peer_ut_metadata_id == 0 && e == Error::NoMetadataExtension,
            },
    {
        if self.peer_ut_metadata_id == 0 {
            return Err(Error::NoMetadataExtension);
        }
        Ok(MetadataMessage { msg_type: METADATA_MSG_REQUEST, piece, total_size: None })
    }

    /// The message that carries a bencoded metadata request to the peer.
    pub fn metadata_request_message(&self, dictionary: &[u8]) -> (r: Vec<u8>)
        ensures
            r@ == framed(MESSAGE_EXTENDED, seq![self@.peer_ut_metadata_id] + dictionary@),
    {
        extended_message(self.peer_ut_metadata_id, dictionary)
    }

    /// Takes in a message while waiting for a piece of metadata, after `seen` other
    /// messages. Of a metadata message it separates the bencoded header from the
    /// data after it.
    pub fn read_metadata_piece(&mut self, message: Message, seen: u32) -> (r: Result<
        MetadataWait,
        Error,
    >)
        ensures
            final(self)@ == noted(old(self)@, message.id, message.payload@),
            ({
                let found = is_metadata_message(message.id, message.payload@);
                let body = message.payload@.skip(1);
                match r {
                    Ok(MetadataWait::Reply { header, data }) => found && value_len(body) == Some(
                        header@.len() as int,
                    ) && body == header@ + data@,
                    Ok(MetadataWait::Waiting) => !found && seen + 1 < MAX_MESSAGES,
                    Err(e) => {
                        &&& found ==> value_len(body) is None && e == Error::MetadataHeaderNotFound
                        &&& !found ==> seen + 1 >= MAX_MESSAGES && e == Error::NoMetadataReply(
                            MAX_MESSAGES,
                        )
                    },
                }
            }),
    {
        self.note(&message);
        if message.id == MESSAGE_EXTENDED && message.payload.len() > 0 && message.payload[0]
            == OWN_UT_METADATA_ID {
            let len: usize = message.payload.len();
            let body = vstd::slice::slice_subrange(&message.payload, 1, len);
            assert(body@ =~= message.payload@.skip(1));
            return match bencode_value_len(body) {
                Some(end) => {
                    let header = copy_range(body, 0, end);
                    let data = copy_range(body, end, body.len());
                    assert(body@ =~= header@ + data@);
                    Ok(MetadataWait::Reply { header, data })
                },
                None => Err(Error::MetadataHeaderNotFound),
            };
        }
        if seen < MAX_MESSAGES - 1 {
            Ok(MetadataWait::Waiting)
        } else {
            Err(Error::NoMetadataReply(MAX_MESSAGES))
        }
    }

    /// Judges a metadata message by its decoded header: data is accepted with its
    /// piece index, a rejection is an error, and on anything else the wait goes on.
    pub fn accept_metadata(header: &MetadataMessage, data: Vec<u8>, seen: u32) -> (r: Result<
        Option<(u32, Vec<u8>)>,
        Error,
    >)
        ensures
            match r {
                Ok(Some((piece, bytes))) => header.msg_type == METADATA_MSG_DATA && piece
                    == header.piece && bytes == data,
                Ok(None) => header.msg_type != METADATA_MSG_DATA && header.msg_type
                    != METADATA_MSG_REJECT && seen + 1 < MAX_MESSAGES,
                Err(e) => if header.msg_type == METADATA_MSG_REJECT {
                    e == Error::MetadataRejected
                } else {
                    header.msg_type != METADATA_MSG_DATA && seen + 1 >= MAX_MESSAGES && e
                        == Error::NoMetadataReply(MAX_MESSAGES)
                },
            },
    {
        if header.msg_type == METADATA_MSG_REJECT {
            return Err(Error::MetadataRejected);
        }
        if header.msg_type == METADATA_MSG_DATA {
            return Ok(Some((header.piece, data)));
        }
        if seen < MAX_MESSAGES - 1 {
            Ok(None)
        } else {
            Err(Error::NoMetadataReply(MAX_MESSAGES))
        }
    }

    /// Begins the download of the metadata that the peer announced.
    pub fn download_metadata(&self) -> (r: Result<MetadataDownload, Error>)
        ensures
            ({
                let size = self@.peer_metadata_size;
                match r {
                    Ok(download) => {
                        &&& 0 < size <= MAX_METADATA_SIZE
                        &&& download.valid()
                        &&& download.received() == 0
                        &&& download.content() == assembled(size as nat, Seq::empty())
                    },
                    Err(e) => if size == 0 {
                        e == Error::NoMetadata
                    } else {
                        size > MAX_METADATA_SIZE && e == Error::MetadataTooLarge(size)
                    },
                }
            }),
    {
        MetadataDownload::new(self.peer_metadata_size)
    }

    /// The length of the next message, from its 4-byte prefix.
    pub fn read_message_len(prefix: &[u8]) -> (r: usize)
        requires
            prefix@.len() >= 4,
        ensures
            r == u32_value(prefix@),
    {
        read_u32(prefix) as usize
    }

    /// The message whose bytes after the length prefix are `body`. Without any, it
    /// is a keep-alive.
    pub fn read_message(body: &[u8]) -> (r: Message)
        ensures
            if body@.len() == 0 {
                r.id == MESSAGE_KEEPALIVE && r.payload@ == Seq::<u8>::empty()
            } else {
                r.id == body@[0] && r.payload@ == body@.skip(1)
            },
    {
        if body.len() == 0 {
            return Message::new(MESSAGE_KEEPALIVE);
        }
        match deserialize_message(body, body.len()) {
            Ok(message) => {
                assert(message.payload@ =~= body@.skip(1));
                message
            },
            Err(_) => Message::new(MESSAGE_KEEPALIVE),
        }
    }

    /// Takes in that the peer refuses requests.
    pub fn read_choke(&mut self)
        ensures
            final(self)@ == (ClientView { choked: true, ..old(self)@ }),
    {
        self.choked = true;
    }

    /// The message that lets the peer make requests.
    pub fn send_unchoke(&self) -> (r: Vec<u8>)
        ensures
            r@ == framed(MESSAGE_UNCHOKE, Seq::empty()),
    {
        encode(Message::new(MESSAGE_UNCHOKE))
    }

    /// Takes in that the peer accepts requests.
    pub fn read_unchoke(&mut self)
        ensures
            final(self)@ == (ClientView { choked: false, ..old(self)@ }),
    {
        self.choked = false;
    }

    /// The message that says that this client wants pieces from the peer.
    pub fn send_interested(&self) -> (r: Vec<u8>)
        ensures
            r@ == framed(MESSAGE_INTERESTED, Seq::empty()),
    {
        encode(Message::new(MESSAGE_INTERESTED))
    }

    /// The message that says that this client wants no pieces from the peer.
    pub fn send_not_interested(&self) -> (r: Vec<u8>)
        ensures
            r@ == framed(MESSAGE_NOT_INTERESTED, Seq::empty()),
    {
        encode(Message::new(MESSAGE_NOT_INTERESTED))
    }

    /// The message that announces that this client has a piece.
    pub fn send_have(&self, index: u32) -> (r: Vec<u8>)
        ensures
            r@ == framed(MESSAGE_HAVE, u32_bytes(index)),
    {
        encode(Message::new_with_payload(MESSAGE_HAVE, write_u32(index)))
    }

    /// Takes in that the peer has a piece. The message must carry the four bytes of
    /// the piece index, and nothing else.
    pub fn read_have(&mut self, message: Message) -> (r: Result<(), Error>)
        ensures
            ({
                let valid = message.id == MESSAGE_HAVE && message.payload@.len() == 4;
                match r {
                    Ok(()) => valid && final(self)@ == noted(
                        old(self)@,
                        message.id,
                        message.payload@,
                    ),
                    Err(e) => !valid && e == Error::InvalidHaveMessage && final(self)@
                        == old(self)@,
                }
            }),
    {
        self.take_have(&message)
    }

    /// `read_have`, on a message that stays with the caller.
    fn take_have(&mut self, message: &Message) -> (r: Result<(), Error>)
        ensures
            ({
                let valid = message.id == MESSAGE_HAVE && message.payload@.len() == 4;
                match r {
                    Ok(()) => valid && final(self)@ == noted(
                        old(self)@,
                        message.id,
                        message.payload@,
                    ),
                    Err(e) => !valid && e == Error::InvalidHaveMessage && final(self)@
                        == old(self)@,
                }
            }),
    {
        if message.id != MESSAGE_HAVE || message.payload.len() != 4 {
            return Err(Error::InvalidHaveMessage);
        }
        let index: u32 = read_u32(&message.payload);
        self.set_piece(index);
        Ok(())
    }

    /// Takes in a message that may come at any time, if it is one.
    fn note(&mut self, message: &Message)
        ensures
            final(self)@ == noted(old(self)@, message.id, message.payload@),
    {
        if message.id == MESSAGE_BITFIELD {
            self.bitfield = copy_range(&message.payload, 0, message.payload.len());
            assert(self.bitfield@ =~= message.payload@);
        } else if message.id == MESSAGE_HAVE {
            let _ = self.take_have(message);
        } else if message.id == MESSAGE_CHOKE {
            self.read_choke();
        } else if message.id == MESSAGE_UNCHOKE {
            self.read_unchoke();
        }
    }

    /// Takes in the message that is to be the peer's bitfield. Any other message is an
    /// error, though what it says of pieces and requests is noted.
    pub fn read_bitfield(&mut self, message: Message) -> (r: Result<(), Error>)
        ensures
            final(self)@ == noted(old(self)@, message.id, message.payload@),
            match r {
                Ok(()) => message.id == MESSAGE_BITFIELD,
                Err(e) => message.id != MESSAGE_BITFIELD && e == Error::NoBitfield,
            },
    {
        self.note(&message);
        if message.id != MESSAGE_BITFIELD {
            return Err(Error::NoBitfield);
        }
        Ok(())
    }

    /// The message that requests a block of a piece.
    pub fn send_request(&self, index: u32, begin: u32, length: u32) -> (r: Vec<u8>)
        ensures
            r@ == framed(MESSAGE_REQUEST, block_payload(index, begin, length)),
    {
        encode(Message::new_with_payload(MESSAGE_REQUEST, encode_block(index, begin, length)))
    }

    /// The message that cancels the request for a block.
    pub fn send_cancel(&self, index: u32, begin: u32, length: u32) -> (r: Vec<u8>)
        ensures
            r@ == framed(MESSAGE_CANCEL, block_payload(index, begin, length)),
    {
        encode(Message::new_with_payload(MESSAGE_CANCEL, encode_block(index, begin, length)))
    }

    /// Takes in a block of a piece: copies it to its place in the piece and counts
    /// it.
    ///
    /// The message is refused if it is too short, about another piece, or reaches
    /// beyond the end of the piece.
    pub fn read_piece(&self, message: Message, piece_work: &mut PieceWork) -> (r: Result<
        (),
        Error,
    >)
        requires
            can_store(message.id, message.payload@, *old(piece_work)),
        ensures
            ({
                let work = *old(piece_work);
                let after = *final(piece_work);
                let payload = message.payload@;
                match r {
                    Ok(()) => {
                        &&& carries_block(message.id, payload, work)
                        &&& after.index == work.index
                        &&& after.hash == work.hash
                        &&& after.length == work.length
                        &&& after.data@ == overwritten(
                            work.data@,
                            block_begin(payload),
                            block(payload),
                        )
                        &&& after.requests == work.requests - 1
                        &&& after.requested == work.requested
                        &&& after.downloaded == work.downloaded + block(payload).len()
                    },
                    Err(e) => {
                        &&& !carries_block(message.id, payload, work)
                        &&& e == block_error(message.id, payload, work)
                        &&& after == work
                    },
                }
            }),
    {
        let ghost payload = message.payload@;
        if message.id != MESSAGE_PIECE || message.payload.len() < 8 {
            return Err(Error::InvalidPieceMessage);
        }
        let index: u32 = read_u32(&message.payload);
        if index != piece_work.index {
            return Err(Error::InvalidPieceIndex);
        }
        let len: usize = message.payload.len();
        let rest = vstd::slice::slice_subrange(&message.payload, 4, len);
        assert(rest@ =~= payload.skip(4));
        let begin: u32 = read_u32(rest);
        let block_bytes = vstd::slice::slice_subrange(&message.payload, 8, len);
        assert(block_bytes@ =~= block(payload));
        if begin > piece_work.length || block_bytes.len() > (piece_work.length - begin) as usize {
            return Err(Error::InvalidBlockOffset);
        }
        overwrite(&mut piece_work.data, begin as usize, block_bytes);
        piece_work.downloaded = piece_work.downloaded + block_bytes.len() as u32;
        piece_work.requests = piece_work.requests - 1;
        Ok(())
    }

    /// Takes in that the connection was made anew: the peer refuses requests until
    /// it says otherwise.
    pub fn reconnect(&mut self)
        ensures
            final(self)@ == (ClientView { choked: true, ..old(self)@ }),
    {
        self.choked = true;
    }
}

/// Whether `work` can take the block of a message, if it carries one.
pub fn can_store_block(message: &Message, work: &PieceWork) -> (r: bool)
    ensures
        r == can_store(message.id, message.payload@, *work),
{
    let len: usize = message.payload.len();
    if message.id != MESSAGE_PIECE || len < 8 || read_u32(&message.payload) != work.index {
        return true;
    }
    let rest = vstd::slice::slice_subrange(&message.payload, 4, len);
    assert(rest@ =~= message.payload@.skip(4));
    let begin: u32 = read_u32(rest);
    let size: usize = len - 8;
    if begin > work.length || size > (work.length - begin) as usize {
        return true;
    }
    let end: usize = begin as usize + size;
    end <= work.data.len() && size <= (u32::MAX - work.downloaded) as usize && work.requests > 0
}

/// The ID that the first entry named `name` gives.
fn find_extension(extensions: &Vec<(String, u8)>, name: &str) -> (r: Option<u8>)
    ensures
        r == extension_id(extensions@, name@),
{
    let mut i: usize = 0;
    assert(extensions@.skip(0) =~= extensions@);
    while i < extensions.len()
        invariant
            i <= extensions@.len(),
            extension_id(extensions@, name@) == extension_id(extensions@.skip(i as int), name@),
        decreases extensions@.len() - i,
    {
        if same_text(extensions[i].0.as_str(), name) {
            return Some(extensions[i].1);
        }
        assert(extensions@.skip(i as int).skip(1) =~= extensions@.skip(i + 1));
        i += 1;
    }
    None
}

/// The bytes that carry a message.
fn encode(message: Message) -> (r: Vec<u8>)
    ensures
        r@ == framed(message.id, message.payload@),
{
    match message.serialize() {
        Ok(bytes) => bytes,
        Err(_) => Vec::new(),
    }
}

/// The bytes of an extension message.
fn extended_message(id: u8, dictionary: &[u8]) -> (r: Vec<u8>)
    ensures
        r@ == framed(MESSAGE_EXTENDED, seq![id] + dictionary@),
{
    let mut payload: Vec<u8> = Vec::new();
    payload.push(id);
    append(&mut payload, dictionary);
    assert(payload@ =~= seq![id] + dictionary@);
    encode(Message::new_with_payload(MESSAGE_EXTENDED, payload))
}

/// The payload of a request or of its cancellation.
fn encode_block(index: u32, begin: u32, length: u32) -> (r: Vec<u8>)
    ensures
        r@ == block_payload(index, begin, length),
{
    let mut payload = write_u32(index);
    append(&mut payload, &write_u32(begin));
    append(&mut payload, &write_u32(length));
    payload
}

} // verus!
