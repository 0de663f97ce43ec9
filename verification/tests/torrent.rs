//! Torrents, their pieces and their files.

use xerus::error::Error;
use xerus::output::{
    classify_input, is_yes, output_name, sanitize_filename, sanitize_path, FileCursor, Input,
};
use xerus::peer::{Ipv4Addr, Peer};
use xerus::piece::PieceResult;
use xerus::text::{is_white_space, trim};
use xerus::torrent::{BencodeFile, BencodeInfo, BencodeTorrent, FileInfo, Torrent};

fn strings(names: &[&str]) -> Vec<String> {
    names.iter().map(|name| name.to_string()).collect()
}

fn single_file(pieces: usize, piece_length: u32, length: u64) -> BencodeInfo {
    BencodeInfo {
        pieces: (0..pieces * 20).map(|i| (i / 20) as u8).collect(),
        piece_length,
        length: Some(length),
        files: None,
        name: "file.iso".to_string(),
    }
}

fn multi_file(lengths: &[u64]) -> BencodeInfo {
    let files = lengths
        .iter()
        .map(|&length| BencodeFile { length, path: strings(&["dir", "name"]) })
        .collect();
    BencodeInfo {
        pieces: vec![],
        piece_length: 1,
        length: None,
        files: Some(files),
        name: "dir".to_string(),
    }
}

fn torrent_file(info: BencodeInfo) -> BencodeTorrent {
    BencodeTorrent {
        announce: "http://t.example/announce".to_string(),
        announce_list: vec![],
        info,
    }
}

fn opened(info: BencodeInfo) -> Torrent {
    let mut torrent = Torrent::new();
    torrent.open_torrent(torrent_file(info), vec![7; 20]).unwrap();
    torrent
}

fn magnet_link(rest: &str) -> String {
    format!("magnet:?xt=urn:btih:{}&tr=t{}", "07".repeat(20), rest)
}

#[test]
fn new_torrent_is_empty() {
    let torrent = Torrent::new();
    assert_eq!(torrent.name(), "");
    assert!(!torrent.is_multi_file());
    assert!(torrent.files().is_empty());
    assert!(torrent.tiers().is_empty());
    assert!(torrent.info_hash().is_empty());
    assert!(torrent.peer_id().is_empty());
    assert!(torrent.peers().is_empty());
    assert_eq!(torrent.length(), 0);
    assert_eq!(torrent.pieces_count(), 0);
}

#[test]
fn total_length_of_files() {
    assert_eq!(single_file(1, 1, 5).total_length(), Ok(5));
    assert_eq!(multi_file(&[1, 2, 3]).total_length(), Ok(6));
    let mut neither = single_file(1, 1, 5);
    neither.length = None;
    assert_eq!(neither.total_length(), Err(Error::NeitherLengthNorFiles));
    let mut both = multi_file(&[1, 2]);
    both.length = Some(9);
    assert_eq!(both.total_length(), Ok(9));
}

#[test]
fn total_length_that_overflows_is_not_readable() {
    let mut info = multi_file(&[u64::MAX, 1]);
    assert!(!info.is_readable());
    info.pieces = vec![0; 3];
    assert!(info.is_readable());
    assert!(multi_file(&[u64::MAX]).is_readable());
    let mut file = torrent_file(multi_file(&[u64::MAX, 1]));
    assert!(!file.is_readable());
    file.announce = String::new();
    assert!(file.is_readable());
}

#[test]
fn file_list_of_a_torrent() {
    assert!(single_file(1, 1, 5).file_list().is_empty());
    let list = multi_file(&[4, 5]).file_list();
    assert_eq!(list.len(), 2);
    assert_eq!((list[1].length, &list[1].path), (5, &strings(&["dir", "name"])));
    assert!(FileInfo::default().path.is_empty());
}

#[test]
fn hashes_partition_the_pieces_string() {
    let info = single_file(3, 1, 3);
    let hashes = info.split_pieces_hashes().unwrap();
    assert_eq!(hashes, vec![vec![0; 20], vec![1; 20], vec![2; 20]]);
    assert_eq!(hashes.concat(), info.pieces);
    let mut odd = single_file(1, 1, 1);
    odd.pieces.push(0);
    assert_eq!(odd.split_pieces_hashes(), Err(Error::InvalidPiecesHashes));
}

#[test]
fn peer_ids_are_random() {
    let ids: Vec<Vec<u8>> = (0..4).map(|_| Torrent::generate_peer_id()).collect();
    assert!(ids.iter().all(|id| id.len() == 20));
    assert!(ids.iter().any(|id| *id != ids[0]));
}

#[test]
fn opening_a_torrent_file() {
    let mut torrent = Torrent::new();
    let peer_id = torrent
        .open_torrent(torrent_file(single_file(2, 4, 7)), vec![7; 20])
        .unwrap();
    assert_eq!(peer_id.len(), 20);
    assert_eq!(torrent.name(), "file.iso");
    assert_eq!(torrent.length(), 7);
    assert_eq!(torrent.pieces_count(), 2);
    assert_eq!(torrent.info_hash(), &[7; 20]);
    assert_eq!(torrent.tiers(), vec![strings(&["http://t.example/announce"])]);
    assert!(torrent.peer_id().is_empty());
    assert!(!torrent.is_multi_file());
}

#[test]
fn opening_a_torrent_with_an_announce_list() {
    let mut file = torrent_file(multi_file(&[1, 2]));
    let first: Vec<String> = (0..20).map(|i| format!("udp://t{:02}.example", i)).collect();
    file.announce_list = vec![first.clone(), strings(&["c"])];
    let mut torrent = Torrent::new();
    torrent.open_torrent(file, vec![7; 20]).unwrap();
    let mut tiers = torrent.tiers();
    assert_ne!(tiers[0], first);
    tiers[0].sort();
    assert_eq!(tiers, vec![first, strings(&["c"])]);
    assert!(torrent.is_multi_file());
    assert_eq!(torrent.files().len(), 2);
}

#[test]
fn opening_a_torrent_without_a_tracker() {
    let mut file = torrent_file(single_file(1, 1, 1));
    file.announce = String::new();
    let mut torrent = Torrent::new();
    assert_eq!(torrent.open_torrent(file, vec![7; 20]), Err(Error::NoAnnounce));
    assert!(torrent.info_hash().is_empty());
}

#[test]
fn opening_an_invalid_torrent_keeps_what_was_read() {
    let mut info = single_file(1, 4, 4);
    info.length = None;
    let mut torrent = Torrent::new();
    assert_eq!(
        torrent.open_torrent(torrent_file(info), vec![7; 20]),
        Err(Error::NeitherLengthNorFiles)
    );
    assert_eq!(torrent.pieces_count(), 1);
    assert_eq!(torrent.name(), "");
    let mut info = single_file(1, 4, 4);
    info.pieces.pop();
    let mut torrent = Torrent::new();
    assert_eq!(
        torrent.open_torrent(torrent_file(info), vec![7; 20]),
        Err(Error::InvalidPiecesHashes)
    );
    assert_eq!(torrent.info_hash(), &[7; 20]);
    assert_eq!(torrent.pieces_count(), 0);
}

#[test]
fn opening_a_magnet_link() {
    let mut torrent = Torrent::new();
    assert_eq!(torrent.open_magnet("?"), Err(Error::InvalidMagnetLink));
    assert_eq!(torrent.open_magnet("magnet:?tr=t"), Err(Error::MissingInfoHash));
    assert!(torrent.tiers().is_empty());
    assert_eq!(
        torrent.open_magnet("magnet:?xt=urn:btih:0707&tr=t"),
        Err(Error::InvalidInfoHash)
    );
    assert!(torrent.info_hash().is_empty());
    let peer_id = torrent.open_magnet(&magnet_link("")).unwrap();
    assert_eq!(peer_id.len(), 20);
    assert_eq!(torrent.info_hash(), &[7; 20]);
    assert_eq!(torrent.tiers(), vec![strings(&["t"])]);
    let peers = vec![Peer { id: 0, ip: Ipv4Addr::new(1, 2, 3, 4), port: 5 }];
    torrent.set_peers(peers.clone(), peer_id.clone());
    assert_eq!(torrent.peers(), &peers[..]);
    assert_eq!(torrent.peer_id(), &peer_id[..]);
    assert_eq!(
        torrent.load_metadata(single_file(2, 4, 7), &[8; 20]),
        Err(Error::MetadataHashMismatch)
    );
    assert_eq!(torrent.pieces_count(), 0);
    assert_eq!(torrent.load_metadata(single_file(2, 4, 7), &[7; 20]), Ok(()));
    assert_eq!(torrent.pieces_count(), 2);
    assert_eq!(torrent.name(), "file.iso");
    let mut invalid = single_file(2, 4, 7);
    invalid.pieces.pop();
    assert_eq!(
        torrent.load_metadata(invalid, &[7; 20]),
        Err(Error::InvalidPiecesHashes)
    );
}

#[test]
fn name_of_a_magnet_link_has_precedence() {
    let mut torrent = Torrent::new();
    torrent.open_magnet(&magnet_link("&dn=mine")).unwrap();
    torrent.load_metadata(single_file(1, 4, 4), &[7; 20]).unwrap();
    assert_eq!(torrent.name(), "mine");
}

#[test]
fn peers_from_a_compact_list() {
    let peers = Torrent::new()
        .build_peers(vec![192, 168, 1, 1, 0, 80, 192, 168, 1, 2, 0, 80])
        .unwrap();
    assert_eq!(peers.len(), 2);
    assert_eq!(peers[1].ip, Ipv4Addr::new(192, 168, 1, 2));
    assert_eq!(Torrent::new().build_peers(vec![1]), Err(Error::InvalidPeerList));
}

#[test]
fn pieces_tile_the_data() {
    let torrent = opened(single_file(3, 4, 10));
    assert!(torrent.has_pieces_within());
    assert_eq!(torrent.get_piece_offset(2), 8);
    assert_eq!(torrent.get_piece_length(0), 4);
    assert_eq!(torrent.get_piece_length(1), 4);
    assert_eq!(torrent.get_piece_length(2), 2);
    assert!(!opened(single_file(4, 4, 10)).has_pieces_within());
    assert!(opened(single_file(3, 4, 8)).has_pieces_within());
}

#[test]
fn download_begins_with_the_work_for_all_pieces() {
    let (works, assembly) = opened(single_file(3, 4, 10)).download();
    let lengths: Vec<(u32, u32)> = works.iter().map(|work| (work.index, work.length)).collect();
    assert_eq!(lengths, vec![(0, 4), (1, 4), (2, 2)]);
    assert_eq!(works[2].hash, vec![2; 20]);
    assert_eq!(works[2].data, vec![0, 0]);
    assert_eq!(assembly.size(), 10);
    assert!(!assembly.is_complete());
}

#[test]
fn pieces_make_up_the_data_in_any_order() {
    let torrent = opened(single_file(3, 4, 10));
    let content: Vec<u8> = (1..=10).collect();
    let (_, mut assembly) = torrent.download();
    for index in [2usize, 0, 1] {
        assert!(!assembly.is_complete());
        let end = std::cmp::min(4 * index + 4, 10);
        let data = content[4 * index..end].to_vec();
        let result = PieceResult::new(index as u32, data.len() as u32, data);
        assert!(torrent.can_receive(&assembly, &result));
        torrent.receive_piece(&mut assembly, &result);
    }
    assert!(assembly.is_complete());
    assert_eq!(assembly.into_data(), content);
}

#[test]
fn pieces_that_do_not_fit() {
    let torrent = opened(single_file(3, 4, 10));
    let (_, assembly) = torrent.download();
    let beyond = PieceResult::new(2, 4, vec![0; 4]);
    assert!(!torrent.can_receive(&assembly, &beyond));
    let wrong_length = PieceResult::new(0, 4, vec![0; 3]);
    assert!(!torrent.can_receive(&assembly, &wrong_length));
    let far = PieceResult::new(u32::MAX, 0, vec![]);
    assert!(!torrent.can_receive(&assembly, &far));
}

#[test]
fn one_worker_for_each_peer() {
    let mut torrent = opened(single_file(1, 4, 4));
    let peers: Vec<Peer> = (0..3)
        .map(|i| Peer { id: i, ip: Ipv4Addr::new(10, 0, 0, i as u8), port: 1 })
        .collect();
    torrent.set_peers(peers.clone(), vec![9; 20]);
    let workers = torrent.workers();
    assert_eq!(workers.len(), 3);
    for (worker, peer) in workers.iter().zip(peers) {
        let client = worker.client();
        assert_eq!(client.peer(), peer);
        assert_eq!(&client.handshake_request()[28..48], &[7; 20]);
        assert_eq!(&client.handshake_request()[48..68], &[9; 20]);
    }
}

#[test]
fn filenames_are_sanitized() {
    assert_eq!(sanitize_filename("a/b\\c"), "a_b_c");
    assert_eq!(sanitize_filename("../x"), ".._x");
    assert_eq!(sanitize_filename(".."), "download");
    assert_eq!(sanitize_filename("..."), "...");
    assert_eq!(sanitize_filename("plain name.txt"), "plain name.txt");
    assert_eq!(sanitize_filename(""), "download");
    assert_eq!(sanitize_filename(" \t\u{3000}"), "download");
    assert_eq!(sanitize_filename("/"), "_");
    assert_eq!(sanitize_filename(&sanitize_filename("a/ b")), sanitize_filename("a/ b"));
}

#[test]
fn paths_are_sanitized_by_component() {
    assert_eq!(
        sanitize_path(&strings(&["a/b", "", "..", "c"])),
        strings(&["a_b", "download", "download", "c"])
    );
}

#[test]
fn output_name_of_the_user_has_precedence() {
    assert_eq!(output_name(Some("x/y"), "name"), "x/y");
    assert_eq!(output_name(None, "x/y"), "x_y");
    assert_eq!(output_name(None, ".."), "download");
}

#[test]
fn inputs_are_told_apart() {
    let link = " MagNet:?xt=urn:btih:00 ";
    assert_eq!(classify_input(link), Input::Magnet(link.to_string()));
    assert_eq!(classify_input(" a.torrent\n"), Input::File("a.torrent".to_string()));
    assert_eq!(classify_input("magnet"), Input::File("magnet".to_string()));
}

#[test]
fn answers() {
    for yes in ["y", "Y", "yes", " YeS \n"] {
        assert!(is_yes(yes));
    }
    for no in ["", "n", "ye", "yess", "y e s", "\u{212a}"] {
        assert!(!is_yes(no));
    }
}

#[test]
fn no_other_character_lowers_to_a_letter_that_matters() {
    let letters = "magnet:yes";
    for c in '\u{80}'..=char::MAX {
        assert!(!c.to_lowercase().any(|l| letters.contains(l)));
    }
}

#[test]
fn white_space_is_that_of_unicode() {
    for c in '\0'..=char::MAX {
        assert_eq!(is_white_space(c), c.is_whitespace());
    }
}

#[test]
fn trimming() {
    for s in ["", " ", " a b ", "\u{a0}x\u{2003}", "x"] {
        assert_eq!(trim(s), s.trim());
    }
}

#[test]
fn files_share_out_the_data() {
    let data: Vec<u8> = (0..10).collect();
    let mut cursor = FileCursor::new(&data);
    let mut written = Vec::new();
    for length in [3, 0, 5] {
        assert!(cursor.can_advance(length));
        let (start, end) = cursor.next_range(length).unwrap();
        written.extend_from_slice(&data[start..end]);
    }
    assert_eq!(written, data[..8]);
    assert!(!cursor.can_advance(u64::MAX));
    assert_eq!(
        cursor.next_range(3),
        Err(Error::FileBeyondData { offset: 8, length: 3, available: 10 })
    );
    assert_eq!(cursor.next_range(2), Ok((8, 10)));
}

#[test]
fn error_sentences() {
    assert_eq!(Error::NoBitfield.message(), "no bitfield received from peer");
    assert_eq!(
        Error::NoMetadataReply(100).message(),
        "no metadata response after 100 messages"
    );
    assert_eq!(
        Error::MetadataTooLarge(16_777_217).message(),
        "metadata too large (16777217 bytes)"
    );
    assert_eq!(
        Error::UdpConnectAction(3).message(),
        "UDP tracker connect failed: action 3"
    );
    assert_eq!(
        Error::FileBeyondData { offset: 0, length: 12, available: 9 }.message(),
        "file extends beyond downloaded data (offset 0 + length 12 > 9)"
    );
    assert_eq!(
        Error::UdpTrackerMessage(vec![b'a', 0xff, b'b']).message(),
        "UDP tracker error: a\u{fffd}b"
    );
    assert_eq!(Error::NoPeers.message(), "no peers from any tracker");
}

#[test]
fn sanitized_names_stay_in_their_directory() {
    for name in ["..", "../..", "..\\", "/etc/passwd", ".", "a/../b"] {
        let safe = sanitize_filename(name);
        assert!(!safe.contains('/') && !safe.contains('\\'));
        assert_ne!(safe, "..");
    }
}

#[test]
fn files_use_up_the_data() {
    let torrent = opened(multi_file(&[3, 4, 5]));
    assert_eq!(torrent.length(), 12);
    let data: Vec<u8> = (0..12).collect();
    let mut cursor = FileCursor::new(&data);
    let mut written = Vec::new();
    for file in torrent.files() {
        let (start, end) = cursor.next_range(file.length).unwrap();
        written.extend_from_slice(&data[start..end]);
    }
    assert_eq!(written, data);
}

#[test]
fn each_piece_stands_as_it_was_delivered() {
    let torrent = opened(single_file(3, 4, 10));
    let (_, mut assembly) = torrent.download();
    for (index, data) in [(1, vec![5, 6, 7, 8]), (2, vec![9, 1]), (0, vec![1, 2, 3, 4])] {
        let result = PieceResult::new(index, data.len() as u32, data);
        torrent.receive_piece(&mut assembly, &result);
    }
    assert_eq!(assembly.into_data(), vec![1, 2, 3, 4, 5, 6, 7, 8, 9, 1]);
}

#[test]
fn data_of_verified_pieces_have_the_hashes_of_the_torrent() {
    let digest = |data: &[u8]| vec![data.iter().fold(0u8, |sum, &byte| sum.wrapping_add(byte)); 20];
    let content: Vec<u8> = (1..=10).collect();
    let mut info = single_file(3, 4, 10);
    info.pieces = content.chunks(4).flat_map(|chunk| digest(chunk)).collect();
    let hashes = info.split_pieces_hashes().unwrap();
    let torrent = opened(info);
    let (works, mut assembly) = torrent.download();
    for work in works.iter().rev() {
        let begin = torrent.get_piece_offset(work.index) as usize;
        let data = content[begin..begin + work.length as usize].to_vec();
        assert_eq!(digest(&data), work.hash);
        torrent.receive_piece(&mut assembly, &PieceResult::new(work.index, work.length, data));
    }
    let data = assembly.into_data();
    for (chunk, hash) in data.chunks(4).zip(hashes) {
        assert_eq!(digest(chunk), hash);
    }
}
