//! The protocol state of a connection.

use xerus::client::{
    can_store_block, Client, ExtensionHandshake, ExtensionWait, MetadataMessage, MetadataWait,
    MAX_MESSAGES,
};
use xerus::error::Error;
use xerus::handshake::Handshake;
use xerus::message::{
    Message, MESSAGE_BITFIELD, MESSAGE_CHOKE, MESSAGE_EXTENDED, MESSAGE_HAVE, MESSAGE_KEEPALIVE,
    MESSAGE_PIECE, MESSAGE_UNCHOKE,
};
use xerus::metadata::MetadataDownload;
use xerus::peer::Peer;
use xerus::piece::PieceWork;

fn client() -> Client {
    Client::new(Peer::new(), vec![1; 20], vec![2; 20])
}

fn have(index: u32) -> Message {
    Message::new_with_payload(MESSAGE_HAVE, index.to_be_bytes().to_vec())
}

fn piece(index: u32, begin: u32, block: &[u8]) -> Message {
    let mut payload = index.to_be_bytes().to_vec();
    payload.extend_from_slice(&begin.to_be_bytes());
    payload.extend_from_slice(block);
    Message::new_with_payload(MESSAGE_PIECE, payload)
}

fn handshake_of(info_hash: Vec<u8>, extensions: bool) -> Vec<u8> {
    let mut handshake = Handshake::new(vec![3; 20], info_hash);
    if extensions {
        handshake.reserved[5] = 0x10;
    }
    handshake.serialize().unwrap()[1..].to_vec()
}

#[test]
fn fresh_client_is_choked_and_knows_no_piece() {
    let client = client();
    assert!(client.is_choked());
    assert!(!client.supports_extensions());
    assert!(!client.supports_ut_metadata());
    assert!(!client.has_piece(0));
    assert!(!client.has_piece(u32::MAX));
    assert_eq!(client.peer(), Peer::new());
}

#[test]
fn marking_a_piece_changes_no_other() {
    let mut client = client();
    client.set_piece(100);
    client.set_piece(3);
    for index in 0..200 {
        assert_eq!(client.has_piece(index), index == 100 || index == 3);
    }
    client.set_piece(3);
    assert!(client.has_piece(3));
}

#[test]
fn bitfield_is_read_from_the_most_significant_bit() {
    let mut client = client();
    let message = Message::new_with_payload(MESSAGE_BITFIELD, vec![0b1000_0001, 0b0100_0000]);
    assert_eq!(client.read_bitfield(message), Ok(()));
    let available: Vec<u32> = (0..20).filter(|&i| client.has_piece(i)).collect();
    assert_eq!(available, vec![0, 7, 9]);
}

#[test]
fn any_other_message_than_the_bitfield_is_an_error() {
    let mut client = client();
    assert_eq!(client.read_bitfield(have(5)), Err(Error::NoBitfield));
    assert!(client.has_piece(5));
    let unchoke = Message::new(MESSAGE_UNCHOKE);
    assert_eq!(client.read_bitfield(unchoke), Err(Error::NoBitfield));
    assert!(!client.is_choked());
    let choke = Message::new(MESSAGE_CHOKE);
    assert_eq!(client.read_bitfield(choke), Err(Error::NoBitfield));
    assert!(client.is_choked());
    let extended = Message::new_with_payload(MESSAGE_EXTENDED, vec![0]);
    assert_eq!(client.read_bitfield(extended), Err(Error::NoBitfield));
    let keep_alive = Message::new(MESSAGE_KEEPALIVE);
    assert_eq!(client.read_bitfield(keep_alive), Err(Error::NoBitfield));
}

#[test]
fn own_handshake() {
    let bytes = client().handshake_request();
    assert_eq!(bytes, Handshake::new(vec![1; 20], vec![2; 20]).serialize().unwrap());
}

#[test]
fn handshake_length_zero_is_invalid() {
    assert_eq!(Client::read_handshake_len(0), Err(Error::InvalidHandshakeLength));
    assert_eq!(Client::read_handshake_len(19), Ok(19));
}

#[test]
fn handshake_with_another_torrent_is_invalid() {
    let mut client = client();
    assert_eq!(
        client.handshake_with_peer(&handshake_of(vec![9; 20], true), 19),
        Err(Error::InvalidHandshake)
    );
    assert!(!client.supports_extensions());
    assert_eq!(client.handshake_with_peer(&[0; 30], 19), Err(Error::HandshakeTooShort));
    assert_eq!(client.handshake_with_peer(&handshake_of(vec![2; 20], true), 19), Ok(()));
    assert!(client.supports_extensions());
    assert_eq!(client.handshake_with_peer(&handshake_of(vec![2; 20], false), 19), Ok(()));
    assert!(!client.supports_extensions());
}

#[test]
fn extension_handshake_is_sent_only_to_peers_that_support_it() {
    let mut client = client();
    assert!(client.send_extension_handshake().is_none());
    client.handshake_with_peer(&handshake_of(vec![2; 20], true), 19).unwrap();
    let handshake = client.send_extension_handshake().unwrap();
    assert_eq!(handshake.extensions, vec![("ut_metadata".to_string(), 1)]);
    assert_eq!(handshake.metadata_size, None);
    assert_eq!(
        Client::extension_handshake_message(b"de"),
        vec![0, 0, 0, 4, 20, 0, b'd', b'e']
    );
}

#[test]
fn extension_handshake_is_found_among_other_messages() {
    let mut client = client();
    let other = Message::new_with_payload(MESSAGE_EXTENDED, vec![3, 1]);
    assert_eq!(client.read_extension_handshake(other, 0), Ok(ExtensionWait::Waiting));
    let empty = Message::new(MESSAGE_EXTENDED);
    assert_eq!(client.read_extension_handshake(empty, 1), Ok(ExtensionWait::Waiting));
    assert_eq!(client.read_extension_handshake(have(8), 2), Ok(ExtensionWait::Waiting));
    assert!(client.has_piece(8));
    let found = Message::new_with_payload(MESSAGE_EXTENDED, b"\0d1:mdee".to_vec());
    assert_eq!(
        client.read_extension_handshake(found, 99),
        Ok(ExtensionWait::Dictionary(b"d1:mdee".to_vec()))
    );
    assert_eq!(
        client.read_extension_handshake(have(9), 99),
        Err(Error::NoExtensionHandshake(MAX_MESSAGES))
    );
    assert!(client.has_piece(9));
}

#[test]
fn extension_handshake_tells_id_and_size() {
    let mut client = client();
    client.parse_extension_handshake(&ExtensionHandshake {
        extensions: vec![("ut_pex".to_string(), 4), ("ut_metadata".to_string(), 3)],
        metadata_size: Some(20_000),
    });
    assert!(client.supports_ut_metadata());
    assert_eq!(
        client.metadata_request_message(b"x"),
        vec![0, 0, 0, 3, 20, 3, b'x']
    );
    let download = client.download_metadata().unwrap();
    assert_eq!(download.into_metadata().len(), 20_000);
    client.parse_extension_handshake(&ExtensionHandshake {
        extensions: vec![],
        metadata_size: None,
    });
    assert!(client.supports_ut_metadata());
}

#[test]
fn metadata_is_requested_only_with_the_extension() {
    let mut client = client();
    assert_eq!(
        client.request_metadata_piece(0).err(),
        Some(Error::NoMetadataExtension)
    );
    client.parse_extension_handshake(&ExtensionHandshake {
        extensions: vec![("ut_metadata".to_string(), 2)],
        metadata_size: None,
    });
    let request = client.request_metadata_piece(7).unwrap();
    assert_eq!((request.msg_type, request.piece, request.total_size), (0, 7, None));
}

#[test]
fn metadata_reply_is_split_behind_its_header() {
    let mut client = client();
    let reply = Message::new_with_payload(
        MESSAGE_EXTENDED,
        b"\x01d8:msg_typei1e5:piecei0eeDATA".to_vec(),
    );
    assert_eq!(
        client.read_metadata_piece(reply, 99),
        Ok(MetadataWait::Reply {
            header: b"d8:msg_typei1e5:piecei0ee".to_vec(),
            data: b"DATA".to_vec(),
        })
    );
    let broken = Message::new_with_payload(MESSAGE_EXTENDED, b"\x01d8:msg".to_vec());
    assert_eq!(
        client.read_metadata_piece(broken, 0),
        Err(Error::MetadataHeaderNotFound)
    );
    let other = Message::new_with_payload(MESSAGE_EXTENDED, b"\x00de".to_vec());
    assert_eq!(client.read_metadata_piece(other, 0), Ok(MetadataWait::Waiting));
    assert_eq!(
        client.read_metadata_piece(Message::new(MESSAGE_UNCHOKE), 99),
        Err(Error::NoMetadataReply(100))
    );
    assert!(!client.is_choked());
}

#[test]
fn metadata_reply_is_judged_by_its_type() {
    let header = |msg_type| MetadataMessage { msg_type, piece: 4, total_size: None };
    assert_eq!(
        Client::accept_metadata(&header(1), vec![1, 2], 99),
        Ok(Some((4, vec![1, 2])))
    );
    assert_eq!(
        Client::accept_metadata(&header(2), vec![], 0),
        Err(Error::MetadataRejected)
    );
    assert_eq!(Client::accept_metadata(&header(0), vec![], 98), Ok(None));
    assert_eq!(
        Client::accept_metadata(&header(0), vec![], 99),
        Err(Error::NoMetadataReply(100))
    );
}

#[test]
fn metadata_size_is_checked() {
    assert_eq!(client().download_metadata().err(), Some(Error::NoMetadata));
    assert_eq!(MetadataDownload::new(0).err(), Some(Error::NoMetadata));
    assert!(MetadataDownload::new(16 * 1024 * 1024).is_ok());
    assert_eq!(
        MetadataDownload::new(16 * 1024 * 1024 + 1).err(),
        Some(Error::MetadataTooLarge(16_777_217))
    );
}

#[test]
fn metadata_is_assembled_from_its_pieces() {
    let metadata: Vec<u8> = (0..40_000u32).map(|i| (i % 251) as u8).collect();
    let mut download = MetadataDownload::new(40_000).unwrap();
    for (i, chunk) in metadata.chunks(16384).enumerate() {
        assert_eq!(download.next_piece(), Some(i as u32));
        assert_eq!(download.receive(i as u32, chunk), Ok(()));
    }
    assert_eq!(download.next_piece(), None);
    assert_eq!(download.into_metadata(), metadata);
}

#[test]
fn metadata_pieces_of_wrong_index_or_size() {
    let mut download = MetadataDownload::new(16_390).unwrap();
    assert_eq!(download.receive(1, &[1]), Err(Error::WrongMetadataPiece));
    assert_eq!(download.next_piece(), Some(0));
    assert_eq!(download.receive(0, &[1; 16_400]), Ok(()));
    assert_eq!(download.receive(1, &[2; 100]), Ok(()));
    let metadata = download.into_metadata();
    assert_eq!(metadata.len(), 16_390);
    assert_eq!(&metadata[16_383..], &[1, 2, 2, 2, 2, 2, 2]);
}

#[test]
fn message_length_and_body() {
    assert_eq!(Client::read_message_len(&[0, 0, 1, 2]), 258);
    let message = Client::read_message(&[4, 1, 2, 3]);
    assert_eq!((message.id, message.payload), (4, vec![1, 2, 3]));
    let keep_alive = Client::read_message(&[]);
    assert_eq!((keep_alive.id, keep_alive.payload), (MESSAGE_KEEPALIVE, vec![]));
}

#[test]
fn messages_to_the_peer() {
    let client = client();
    assert_eq!(client.send_unchoke(), vec![0, 0, 0, 1, 1]);
    assert_eq!(client.send_interested(), vec![0, 0, 0, 1, 2]);
    assert_eq!(client.send_not_interested(), vec![0, 0, 0, 1, 3]);
    assert_eq!(client.send_have(258), vec![0, 0, 0, 5, 4, 0, 0, 1, 2]);
    assert_eq!(
        client.send_request(1, 2, 16384),
        vec![0, 0, 0, 13, 6, 0, 0, 0, 1, 0, 0, 0, 2, 0, 0, 0x40, 0]
    );
    assert_eq!(
        client.send_cancel(1, 2, 16384),
        vec![0, 0, 0, 13, 8, 0, 0, 0, 1, 0, 0, 0, 2, 0, 0, 0x40, 0]
    );
}

#[test]
fn choke_state_follows_the_peer() {
    let mut client = client();
    client.read_unchoke();
    assert!(!client.is_choked());
    client.read_choke();
    assert!(client.is_choked());
    client.read_unchoke();
    client.reconnect();
    assert!(client.is_choked());
}

#[test]
fn have_message_must_hold_an_index() {
    let mut client = client();
    assert_eq!(client.read_have(have(12)), Ok(()));
    assert!(client.has_piece(12));
    let long = Message::new_with_payload(MESSAGE_HAVE, vec![0; 5]);
    assert_eq!(client.read_have(long), Err(Error::InvalidHaveMessage));
    let other = Message::new_with_payload(MESSAGE_PIECE, vec![0; 4]);
    assert_eq!(client.read_have(other), Err(Error::InvalidHaveMessage));
    assert!(!client.has_piece(0));
}

#[test]
fn block_is_copied_to_its_place() {
    let client = client();
    let mut work = PieceWork::new(3, vec![0; 20], 8);
    work.requests = 2;
    let message = piece(3, 2, &[7, 8, 9]);
    assert!(can_store_block(&message, &work));
    assert_eq!(client.read_piece(message, &mut work), Ok(()));
    assert_eq!(work.data, vec![0, 0, 7, 8, 9, 0, 0, 0]);
    assert_eq!((work.requests, work.requested, work.downloaded), (1, 0, 3));
}

#[test]
fn blocks_that_are_refused() {
    let client = client();
    let mut work = PieceWork::new(3, vec![0; 20], 8);
    work.requests = 1;
    let short = Message::new_with_payload(MESSAGE_PIECE, vec![0; 7]);
    assert_eq!(client.read_piece(short, &mut work), Err(Error::InvalidPieceMessage));
    assert_eq!(client.read_piece(have(3), &mut work), Err(Error::InvalidPieceMessage));
    assert_eq!(
        client.read_piece(piece(4, 0, &[1]), &mut work),
        Err(Error::InvalidPieceIndex)
    );
    assert_eq!(
        client.read_piece(piece(3, 6, &[1, 2, 3]), &mut work),
        Err(Error::InvalidBlockOffset)
    );
    assert_eq!(
        client.read_piece(piece(3, u32::MAX, &[1, 2, 3]), &mut work),
        Err(Error::InvalidBlockOffset)
    );
    assert_eq!(work.data, vec![0; 8]);
    assert_eq!((work.requests, work.downloaded), (1, 0));
}

#[test]
fn block_that_was_not_requested_cannot_be_stored() {
    let work = PieceWork::new(3, vec![0; 20], 8);
    assert!(!can_store_block(&piece(3, 0, &[1]), &work));
    assert!(can_store_block(&piece(4, 0, &[1]), &work));
    assert!(can_store_block(&have(3), &work));
}

#[test]
fn announced_piece_is_noted_by_the_other_side() {
    let bytes = client().send_have(77);
    let message = Client::read_message(&bytes[4..]);
    assert_eq!(Client::read_message_len(&bytes), bytes.len() - 4);
    let mut other = client();
    assert_eq!(other.read_have(message), Ok(()));
    assert!(other.has_piece(77));
    assert!(!other.has_piece(76));
}

#[test]
fn handshake_of_another_protocol_is_invalid() {
    let mut client = client();
    let mut buf = b"xyz".to_vec();
    buf.extend_from_slice(&[0xff; 8]);
    buf.extend_from_slice(&[2; 20]);
    buf.extend_from_slice(&[0x33; 20]);
    assert_eq!(client.handshake_with_peer(&buf, 3), Err(Error::InvalidHandshake));
    assert!(!client.supports_extensions());
    let mut buf = handshake_of(vec![2; 20], true);
    buf[0] = b'b';
    assert_eq!(client.handshake_with_peer(&buf, 19), Err(Error::InvalidHandshake));
    assert!(!client.supports_extensions());
}

#[test]
fn order_of_extensions_does_not_matter() {
    let entry = |name: &str, id| (name.to_string(), id);
    let entries = vec![entry("ut_pex", 4), entry("ut_metadata", 3), entry("lt_donthave", 7)];
    for turn in 0..3 {
        let mut extensions = entries.clone();
        extensions.rotate_left(turn);
        let mut client = client();
        client.parse_extension_handshake(&ExtensionHandshake { extensions, metadata_size: None });
        assert_eq!(client.metadata_request_message(b""), vec![0, 0, 0, 2, 20, 3]);
    }
}

#[test]
fn extensions_without_ut_metadata() {
    let mut client = client();
    client.parse_extension_handshake(&ExtensionHandshake {
        extensions: vec![("ut_pex".to_string(), 4)],
        metadata_size: Some(5),
    });
    assert!(!client.supports_ut_metadata());
}
