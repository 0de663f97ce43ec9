//! Messages of the peer wire protocol.
//!
//! Every message is framed as `<length prefix><message ID><payload>`: four bytes
//! of length (of ID and payload together, big-endian), one byte of ID, then the
//! payload. A length of zero is a keep-alive message, without ID or payload.

use crate::bytes::{append, copy_range, u32_bytes, u32_value, write_u32};
use crate::error::Error;
use vstd::prelude::*;

verus! {

pub const MESSAGE_CHOKE: u8 = 0;

pub const MESSAGE_UNCHOKE: u8 = 1;

pub const MESSAGE_INTERESTED: u8 = 2;

pub const MESSAGE_NOT_INTERESTED: u8 = 3;

pub const MESSAGE_HAVE: u8 = 4;

pub const MESSAGE_BITFIELD: u8 = 5;

pub const MESSAGE_REQUEST: u8 = 6;

pub const MESSAGE_PIECE: u8 = 7;

pub const MESSAGE_CANCEL: u8 = 8;

/// Carries the messages of protocol extensions (BEP 10).
pub const MESSAGE_EXTENDED: u8 = 20;

/// Stands for a keep-alive message, which has no ID of its own.
pub const MESSAGE_KEEPALIVE: u8 = 255;

/// The IDs are those of the peer wire protocol.
pub proof fn law_message_ids()
    ensures
        MESSAGE_CHOKE == 0,
        MESSAGE_UNCHOKE == 1,
        MESSAGE_INTERESTED == 2,
        MESSAGE_NOT_INTERESTED == 3,
        MESSAGE_HAVE == 4,
        MESSAGE_BITFIELD == 5,
        MESSAGE_REQUEST == 6,
        MESSAGE_PIECE == 7,
        MESSAGE_CANCEL == 8,
        MESSAGE_EXTENDED == 20,
        MESSAGE_KEEPALIVE == 255,
{
}

/// A message from or to a peer.
#[derive(Debug)]
pub struct Message {
    /// Message type identifier
    pub id: u8,
    /// Message payload data
    pub payload: Vec<u8>,
}

impl Default for Message {
    fn default() -> (r: Self)
        ensures
            r.id == 0,
            r.payload@ == Seq::<u8>::empty(),
    {
        Message { id: 0, payload: Vec::new() }
    }
}

/// The length prefix of a message whose payload has `payload_len` bytes. The
/// prefix has 32 bits: a longer message has its length reduced to them.
pub open spec fn length_prefix(payload_len: nat) -> u32 {
    ((1 + payload_len) % 0x1_0000_0000) as u32
}

/// The bytes that carry the message with this ID and payload.
pub open spec fn framed(id: u8, payload: Seq<u8>) -> Seq<u8> {
    u32_bytes(length_prefix(payload.len())) + seq![id] + payload
}

impl Message {
    /// Builds a message without a payload.
    pub fn new(id: u8) -> (r: Self)
        ensures
            r.id == id,
            r.payload@ == Seq::<u8>::empty(),
    {
        Message { id, payload: Vec::new() }
    }

    /// Builds a message with a payload.
    pub fn new_with_payload(id: u8, payload: Vec<u8>) -> (r: Self)
        ensures
            r.id == id,
            r.payload == payload,
    {
        Message { id, payload }
    }

    /// The bytes that carry the message.
    pub fn serialize(&self) -> (r: Result<Vec<u8>, Error>)
        ensures
            r matches Ok(bytes) && bytes@ == framed(self.id, self.payload@),
    {
        let payload_len: u64 = self.payload.len() as u64;
        let prefix: u32 = ((payload_len % 0x1_0000_0000 + 1) % 0x1_0000_0000) as u32;
        assert(prefix == length_prefix(self.payload@.len()));
        let mut serialized: Vec<u8> = write_u32(prefix);
        serialized.push(self.id);
        append(&mut serialized, &self.payload);
        assert(serialized@ =~= framed(self.id, self.payload@));
        Ok(serialized)
    }
}

/// Reads a message off its ID and payload, which take up the first `message_len`
/// bytes of the buffer.
pub fn deserialize_message(message_buf: &[u8], message_len: usize) -> (r: Result<Message, Error>)
    requires
        1 <= message_len <= message_buf@.len(),
    ensures
        r matches Ok(message) && message.id == message_buf@[0] && message.payload@
            == message_buf@.subrange(1, message_len as int),
{
    let id: u8 = message_buf[0];
    let payload = copy_range(message_buf, 1, message_len);
    Ok(Message::new_with_payload(id, payload))
}

/// A message can be read back from its bytes: the prefix counts the bytes after
/// it, the first of these is the ID and the others are the payload.
pub proof fn law_message_round_trip(id: u8, payload: Seq<u8>)
    requires
        payload.len() < 0xffff_ffff,
    ensures
        ({
            let bytes = framed(id, payload);
            let body = bytes.skip(4);
            &&& bytes.len() == 4 + u32_value(bytes)
            &&& body.len() >= 1
            &&& body[0] == id
            &&& body.subrange(1, u32_value(bytes)) == payload
        }),
{
    let n = length_prefix(payload.len());
    crate::bytes::law_u32_round_trip(n, seq![id] + payload);
    let bytes = framed(id, payload);
    assert(bytes =~= u32_bytes(n) + (seq![id] + payload));
    assert(bytes.skip(4) =~= seq![id] + payload);
    assert((seq![id] + payload).subrange(1, 1 + payload.len() as int) =~= payload);
}

} // verus!
