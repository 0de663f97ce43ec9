//! Handshakes, messages and bencoded values on the wire.

use xerus::bencode::bencode_value_len;
use xerus::error::Error;
use xerus::handshake::{deserialize_handshake, Handshake};
use xerus::message::{deserialize_message, Message, MESSAGE_HAVE, MESSAGE_PIECE};
use xerus::peer::{parse_peers, Ipv4Addr, Peer};
use xerus::piece::{PieceResult, PieceWork};

#[test]
fn handshake_has_the_documented_layout() {
    let handshake = Handshake::new(vec![7; 20], vec![9; 20]);
    let bytes = handshake.serialize().unwrap();
    assert_eq!(bytes.len(), 68);
    assert_eq!(bytes[0], 19);
    assert_eq!(&bytes[1..20], b"BitTorrent protocol");
    assert_eq!(&bytes[20..28], &[0u8; 8]);
    assert_eq!(&bytes[28..48], &[9u8; 20]);
    assert_eq!(&bytes[48..68], &[7u8; 20]);
}

#[test]
fn handshake_reads_back() {
    let mut handshake = Handshake::new((0..20).collect(), (20..40).collect());
    handshake.reserved[5] = 0x10;
    let bytes = handshake.serialize().unwrap();
    let read = deserialize_handshake(&bytes[1..], bytes[0] as usize).unwrap();
    assert_eq!(read.pstrlen, 19);
    assert_eq!(read.pstr, handshake.pstr);
    assert_eq!(read.reserved, handshake.reserved);
    assert_eq!(read.info_hash, handshake.info_hash);
    assert_eq!(read.peer_id, handshake.peer_id);
    assert!(read.supports_extensions());
}

#[test]
fn handshake_without_the_extension_bit() {
    let mut handshake = Handshake::new(vec![0; 20], vec![0; 20]);
    assert!(!handshake.supports_extensions());
    handshake.reserved[5] = 0xef;
    assert!(!handshake.supports_extensions());
    handshake.reserved = vec![0xff; 5];
    assert!(!handshake.supports_extensions());
}

#[test]
fn handshake_too_short() {
    let buf = vec![1u8; 66];
    assert_eq!(deserialize_handshake(&buf, 19).err(), Some(Error::HandshakeTooShort));
    assert!(deserialize_handshake(&buf, 18).is_ok());
    assert_eq!(
        deserialize_handshake(&buf, usize::MAX).err(),
        Some(Error::HandshakeTooShort)
    );
}

#[test]
fn message_is_framed_with_its_length() {
    let message = Message::new_with_payload(MESSAGE_HAVE, vec![0, 0, 1, 2]);
    assert_eq!(message.serialize().unwrap(), vec![0, 0, 0, 5, 4, 0, 0, 1, 2]);
    assert_eq!(Message::new(1).serialize().unwrap(), vec![0, 0, 0, 1, 1]);
}

#[test]
fn message_reads_back() {
    let payload: Vec<u8> = (0..=255).cycle().take(70_000).collect();
    let message = Message::new_with_payload(MESSAGE_PIECE, payload.clone());
    let bytes = message.serialize().unwrap();
    assert_eq!(&bytes[..4], &70_001u32.to_be_bytes());
    let read = deserialize_message(&bytes[4..], 70_001).unwrap();
    assert_eq!(read.id, MESSAGE_PIECE);
    assert_eq!(read.payload, payload);
}

#[test]
fn message_default_is_empty() {
    let message = Message::default();
    assert_eq!(message.id, 0);
    assert!(message.payload.is_empty());
}

#[test]
fn value_len_of_containers() {
    assert_eq!(bencode_value_len(b"d1:ad2:idi5eee"), Some(14));
    assert_eq!(bencode_value_len(b"d8:msg_typei1e5:piecei0eeDATA"), Some(25));
    assert_eq!(bencode_value_len(b"le"), Some(2));
    assert_eq!(bencode_value_len(b"lld1:ai-3eee4:spame"), Some(19));
}

#[test]
fn value_len_of_scalars() {
    assert_eq!(bencode_value_len(b"i42exyz"), Some(4));
    assert_eq!(bencode_value_len(b"4:spamxyz"), Some(6));
    assert_eq!(bencode_value_len(b"0:"), Some(2));
}

#[test]
fn value_len_of_what_is_no_value() {
    assert_eq!(bencode_value_len(b""), None);
    assert_eq!(bencode_value_len(b"x"), None);
    assert_eq!(bencode_value_len(b"d1:a"), None);
    assert_eq!(bencode_value_len(b"i42"), None);
    assert_eq!(bencode_value_len(b"9:spam"), None);
    assert_eq!(bencode_value_len(b"d3x:abce"), None);
    assert_eq!(bencode_value_len(b"d99999999999999999999999:ae"), None);
    assert_eq!(bencode_value_len(b"dqe"), None);
}

#[test]
fn compact_list_of_two_peers() {
    let peer_data = vec![192, 168, 1, 1, 0, 80, 192, 168, 1, 2, 0x1a, 0xe1];
    let peers = parse_peers(peer_data).unwrap();
    assert_eq!(
        peers,
        vec![
            Peer { id: 0, ip: Ipv4Addr::new(192, 168, 1, 1), port: 80 },
            Peer { id: 1, ip: Ipv4Addr::new(192, 168, 1, 2), port: 6881 },
        ]
    );
}

#[test]
fn compact_list_of_odd_size() {
    assert_eq!(parse_peers(vec![1, 2, 3, 4, 5]), Err(Error::InvalidPeerList));
    assert_eq!(parse_peers(vec![]), Ok(vec![]));
}

#[test]
fn placeholder_peer() {
    assert_eq!(
        Peer::new(),
        Peer { id: 0, ip: Ipv4Addr { a: 1, b: 1, c: 1, d: 1 }, port: 0 }
    );
}

#[test]
fn new_pieces() {
    let work = PieceWork::new(3, vec![5; 20], 10);
    assert_eq!((work.index, work.length), (3, 10));
    assert_eq!(work.hash, vec![5; 20]);
    assert_eq!(work.data, vec![0; 10]);
    assert_eq!((work.requests, work.requested, work.downloaded), (0, 0, 0));
    let result = PieceResult::new(4, 2, vec![8, 9]);
    assert_eq!((result.index, result.length, result.data), (4, 2, vec![8, 9]));
    assert!(PieceWork::default().data.is_empty());
    assert!(PieceResult::default().data.is_empty());
}

#[test]
fn value_len_away_from_a_value_boundary() {
    assert_eq!(bencode_value_len(b"edde"), Some(4));
    assert_eq!(bencode_value_len(b"ede"), None);
    assert_eq!(bencode_value_len(b"e"), None);
}
