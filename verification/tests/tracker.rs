//! Trackers over HTTP and UDP, and the search for peers.

use xerus::error::Error;
use xerus::peer::{Ipv4Addr, Peer};
use xerus::tracker::{
    append_announce_query, build_tracker_url, check_http_response, is_cut_error_response,
    parse_announce_response, parse_connect_response, percent_encode_binary, query_single_tracker,
    query_udp_tracker, request_peers, udp_tracker_address, Announce, PeerSearch, TrackerQuery,
    UdpAction, UdpEvent, UdpExchange, MAX_HTTP_RESPONSE_SIZE,
};
use xerus::uri::UrlParts;

fn peer(n: u16) -> Peer {
    Peer { id: 0, ip: Ipv4Addr::new(10, 0, (n >> 8) as u8, n as u8), port: 6881 }
}

fn tiers(names: &[&[&str]]) -> Vec<Vec<String>> {
    names
        .iter()
        .map(|tier| tier.iter().map(|url| url.to_string()).collect())
        .collect()
}

fn announce() -> Announce {
    Announce { info_hash: vec![0xaa; 20], peer_id: vec![0xbb; 20], port: 6881, length: 0 }
}

const EXCHANGE: UdpExchange = UdpExchange { transaction_id: 0x01020304, key: 0x0a0b0c0d };

#[test]
fn percent_encoding_uses_capital_digits() {
    assert_eq!(percent_encode_binary(&[]), "");
    assert_eq!(percent_encode_binary(&[0x00, 0x1f, 0xab, 0xff]), "%00%1F%AB%FF");
}

#[test]
fn percent_encoding_tells_all_bytes_apart() {
    for a in 0..=255u8 {
        assert_eq!(percent_encode_binary(&[a]), format!("%{:02X}", a));
    }
}

#[test]
fn tracker_url_has_all_parameters() {
    assert_eq!(
        build_tracker_url(&[1, 2], "http://tracker.example/announce", &[0xfe], 6881, 1000),
        Ok("http://tracker.example/announce?info_hash=%01%02&peer_id=%FE&port=6881\
            &uploaded=0&downloaded=0&left=1000&compact=1&event=started"
            .to_string())
    );
}

#[test]
fn tracker_url_is_normalized() {
    let url = build_tracker_url(&[], "HTTP://Tracker.EXAMPLE:80", &[], 1, 0).unwrap();
    assert!(url.starts_with("http://tracker.example/?info_hash=&peer_id=&port=1&"));
}

#[test]
fn tracker_url_with_a_query_of_its_own() {
    let url = append_announce_query("http://t.example/a?key=1", &[9], &[8], 65535, u64::MAX);
    assert_eq!(
        url,
        "http://t.example/a?key=1&info_hash=%09&peer_id=%08&port=65535&uploaded=0\
         &downloaded=0&left=18446744073709551615&compact=1&event=started"
    );
}

#[test]
fn tracker_url_that_does_not_parse() {
    assert_eq!(
        build_tracker_url(&[], "http://", &[], 1, 0),
        Err(Error::InvalidTrackerUrl)
    );
}

#[test]
fn tracker_protocols() {
    assert_eq!(
        query_single_tracker("udp://t.example:80", &[], &[], 1, 0),
        Ok(TrackerQuery::Udp)
    );
    assert!(matches!(
        query_single_tracker("https://t.example/a", &[], &[], 1, 0),
        Ok(TrackerQuery::Http(url)) if url.starts_with("https://t.example/a?info_hash=")
    ));
    assert_eq!(
        query_single_tracker("https://", &[], &[], 1, 0),
        Err(Error::InvalidTrackerUrl)
    );
    assert_eq!(
        query_single_tracker("wss://t.example", &[], &[], 1, 0),
        Err(Error::UnsupportedTrackerProtocol)
    );
    assert_eq!(
        query_single_tracker("", &[], &[], 1, 0),
        Err(Error::UnsupportedTrackerProtocol)
    );
}

#[test]
fn http_response_size() {
    assert_eq!(check_http_response(&vec![0; MAX_HTTP_RESPONSE_SIZE]), Ok(()));
    assert_eq!(
        check_http_response(&vec![0; MAX_HTTP_RESPONSE_SIZE + 1]),
        Err(Error::HttpReplyTooLarge)
    );
}

#[test]
fn udp_exchange_opens_a_socket() {
    let open = |url: &str| query_udp_tracker(url, &announce(), &EXCHANGE, UdpEvent::Begin);
    assert_eq!(
        open("udp://tracker.example:1337/announce"),
        Ok(UdpAction::Open { host: "tracker.example".to_string(), port: 1337 })
    );
    assert_eq!(
        open("udp://tracker.example/announce"),
        Ok(UdpAction::Open { host: "tracker.example".to_string(), port: 6969 })
    );
    assert_eq!(open("udp://:80"), Err(Error::InvalidUdpTrackerUrl));
    assert_eq!(open("udp:path"), Err(Error::NoUdpTrackerHost));
}

#[test]
fn udp_address_from_url_parts() {
    let mut url = UrlParts {
        scheme: "udp".to_string(),
        host: Some("a.example".to_string()),
        port: None,
        text: String::new(),
        query: vec![],
    };
    assert_eq!(udp_tracker_address(&url), Ok(("a.example".to_string(), 6969)));
    url.port = Some(80);
    assert_eq!(udp_tracker_address(&url), Ok(("a.example".to_string(), 80)));
    url.host = None;
    assert_eq!(udp_tracker_address(&url), Err(Error::NoUdpTrackerHost));
}

#[test]
fn udp_connect_request_bytes() {
    let action = query_udp_tracker("", &announce(), &EXCHANGE, UdpEvent::Ready);
    assert_eq!(
        action,
        Ok(UdpAction::SendConnect(vec![
            0, 0, 0x04, 0x17, 0x27, 0x10, 0x19, 0x80, 0, 0, 0, 0, 1, 2, 3, 4
        ]))
    );
}

#[test]
fn udp_announce_request_bytes() {
    let mut response = vec![0, 0, 0, 0, 1, 2, 3, 4];
    response.extend_from_slice(&0x1122334455667788u64.to_be_bytes());
    let action = query_udp_tracker(
        "",
        &announce(),
        &EXCHANGE,
        UdpEvent::ConnectResponse(response),
    );
    let mut expected = 0x1122334455667788u64.to_be_bytes().to_vec();
    expected.extend_from_slice(&[0, 0, 0, 1, 1, 2, 3, 4]);
    expected.extend_from_slice(&[0xaa; 20]);
    expected.extend_from_slice(&[0xbb; 20]);
    expected.extend_from_slice(&0u64.to_be_bytes());
    expected.extend_from_slice(&(1024u64 * 1024 * 1024).to_be_bytes());
    expected.extend_from_slice(&[0; 16]);
    expected.extend_from_slice(&[0x0a, 0x0b, 0x0c, 0x0d]);
    expected.extend_from_slice(&(-1i32).to_be_bytes());
    expected.extend_from_slice(&6881u16.to_be_bytes());
    assert_eq!(expected.len(), 98);
    assert_eq!(action, Ok(UdpAction::SendAnnounce(expected)));
}

#[test]
fn udp_announce_request_with_a_known_length() {
    let mut announce = announce();
    announce.length = 77;
    let response = UdpEvent::ConnectResponse(vec![0, 0, 0, 0, 1, 2, 3, 4, 0, 0, 0, 0, 0, 0, 0, 0]);
    match query_udp_tracker("", &announce, &EXCHANGE, response) {
        Ok(UdpAction::SendAnnounce(request)) => {
            assert_eq!(&request[64..72], &77u64.to_be_bytes());
        }
        _ => panic!("no request"),
    }
}

#[test]
fn udp_connect_response_errors() {
    let mut response = vec![0; 16];
    response[3] = 3;
    assert_eq!(
        parse_connect_response(&response, 5),
        Err(Error::UdpConnectAction(3))
    );
    response[3] = 0;
    assert_eq!(
        parse_connect_response(&response, 5),
        Err(Error::UdpTransactionMismatch)
    );
    response[7] = 5;
    response[15] = 9;
    assert_eq!(parse_connect_response(&response, 5), Ok(9));
}

#[test]
fn udp_announce_response_names_peers() {
    let mut response = vec![0, 0, 0, 1];
    response.extend_from_slice(&[0; 16]);
    response.extend_from_slice(&[1, 2, 3, 4, 0, 80]);
    let event = UdpEvent::AnnounceResponse(response);
    assert_eq!(
        query_udp_tracker("", &announce(), &EXCHANGE, event),
        Ok(UdpAction::Finish(vec![Peer {
            id: 0,
            ip: Ipv4Addr::new(1, 2, 3, 4),
            port: 80
        }]))
    );
}

#[test]
fn udp_announce_response_errors() {
    assert_eq!(parse_announce_response(&[0, 0, 0]), Err(Error::UdpReplyTooShort));
    assert_eq!(
        parse_announce_response(&[0, 0, 0, 2]),
        Err(Error::UdpAnnounceAction(2))
    );
    assert_eq!(
        parse_announce_response(&[0, 0, 0, 1, 9, 9]),
        Err(Error::UdpReplyTooShort)
    );
    let mut odd = vec![0; 21];
    odd[3] = 1;
    assert_eq!(parse_announce_response(&odd), Err(Error::InvalidPeerList));
    let error = [0, 0, 0, 3, 1, 2, 3, 4, b'n', b'o'];
    let error = parse_announce_response(&error).unwrap_err();
    assert_eq!(error, Error::UdpTrackerMessage(b"no".to_vec()));
    assert_eq!(error.message(), "UDP tracker error: no");
    assert!(is_cut_error_response(&[0, 0, 0, 3, 1]));
    assert!(!is_cut_error_response(&[0, 0, 0, 3, 1, 2, 3, 4]));
    assert!(!is_cut_error_response(&[0, 0, 0]));
}

#[test]
fn udp_exchanges_differ() {
    let ids: Vec<u32> = (0..8).map(|_| UdpExchange::new().transaction_id).collect();
    assert!(ids.iter().any(|&id| id != ids[0]));
}

#[test]
fn search_asks_all_trackers_in_order() {
    let mut search = request_peers(tiers(&[&[], &["a", "b"], &[], &["c"], &[]]));
    let mut asked = Vec::new();
    while let Some(url) = search.next_tracker() {
        asked.push(url.to_string());
        search.receive(&[]);
    }
    assert_eq!(asked, vec!["a", "b", "c"]);
    assert_eq!(search.finish(), Err(Error::NoPeers));
}

#[test]
fn search_without_trackers() {
    assert_eq!(request_peers(vec![]).next_tracker(), None);
    assert_eq!(request_peers(tiers(&[&[], &[]])).next_tracker(), None);
}

#[test]
fn search_collects_distinct_peers_and_numbers_them() {
    let mut search = request_peers(tiers(&[&["a"], &["b"]]));
    search.receive(&[peer(1), peer(2), peer(1)]);
    let mut other_port = peer(2);
    other_port.port = 1;
    search.receive(&[peer(2), other_port, peer(3)]);
    let found = search.finish().unwrap();
    let expected = [peer(1), peer(2), other_port, peer(3)];
    assert_eq!(found.len(), 4);
    for (i, found) in found.iter().enumerate() {
        assert_eq!(found.id, i as u32);
        assert_eq!((found.ip, found.port), (expected[i].ip, expected[i].port));
    }
}

#[test]
fn search_accepts_no_more_than_a_hundred_peers() {
    let mut search: PeerSearch = request_peers(tiers(&[&["a", "b", "c"], &["d", "e"]]));
    search.receive(&(0..60).map(peer).collect::<Vec<Peer>>());
    assert_eq!(search.next_tracker(), Some("b"));
    search.receive(&(50..120).map(peer).collect::<Vec<Peer>>());
    assert_eq!(search.next_tracker(), Some("d"));
    search.receive(&(200..210).map(peer).collect::<Vec<Peer>>());
    assert_eq!(search.next_tracker(), None);
    let found = search.finish().unwrap();
    assert_eq!(found.len(), 100);
    assert_eq!(found[99].ip, peer(99).ip);
    assert_eq!(found[99].id, 99);
}
