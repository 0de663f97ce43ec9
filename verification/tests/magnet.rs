//! Magnet links, and the fetching of metadata.

use xerus::client::{Client, ExtensionHandshake};
use xerus::error::Error;
use xerus::handshake::Handshake;
use xerus::magnet::{
    fetch_metadata_from_peers, magnet_from_url, next_fetch_step, parse_magnet, FetchStep,
};
use xerus::peer::{Ipv4Addr, Peer};
use xerus::uri::UrlParts;

fn peers(n: u8) -> Vec<Peer> {
    (0..n)
        .map(|i| Peer { id: i as u32, ip: Ipv4Addr::new(10, 0, 0, i), port: 1000 + i as u16 })
        .collect()
}

fn client(extensions: bool, metadata: bool) -> Client {
    let mut client = Client::new(peers(1)[0], vec![1; 20], vec![2; 20]);
    let mut handshake = Handshake::new(vec![3; 20], vec![2; 20]);
    handshake.reserved[5] = if extensions { 0x10 } else { 0 };
    client
        .handshake_with_peer(&handshake.serialize().unwrap()[1..], 19)
        .unwrap();
    if metadata {
        client.parse_extension_handshake(&ExtensionHandshake {
            extensions: vec![("ut_metadata".to_string(), 1)],
            metadata_size: None,
        });
    }
    client
}

#[test]
fn magnet_link_with_all_parameters() {
    let uri = "magnet:?xt=urn:btih:c12fe1c06bba254a9dc9f519b335aa7c1367a88A\
               &dn=Some+name%20here&tr=udp%3A%2F%2Fa.example%3A80&x=y&tr=http%3A%2F%2Fb.example";
    let info = parse_magnet(uri).unwrap_or_else(|e| panic!("{}", e.message()));
    assert_eq!(
        info.info_hash,
        vec![
            0xc1, 0x2f, 0xe1, 0xc0, 0x6b, 0xba, 0x25, 0x4a, 0x9d, 0xc9, 0xf5, 0x19, 0xb3, 0x35,
            0xaa, 0x7c, 0x13, 0x67, 0xa8, 0x8a
        ]
    );
    assert_eq!(info.name, "Some name here");
    assert_eq!(
        info.tiers,
        vec![vec!["udp://a.example:80".to_string()], vec!["http://b.example".to_string()]]
    );
}

#[test]
fn magnet_link_errors() {
    let error = |uri: &str| parse_magnet(uri).err();
    assert_eq!(error("no url"), Some(Error::InvalidMagnetLink));
    assert_eq!(error("http://a.example/?xt=urn:btih:00"), Some(Error::NotMagnetLink));
    assert_eq!(error("magnet:?xt=urn:btih:0&tr=a"), Some(Error::InvalidInfoHash));
    assert_eq!(error("magnet:?xt=urn:btih:zz&tr=a"), Some(Error::InvalidInfoHash));
    assert_eq!(error("magnet:?xt=urn:btih:%C3%A9&tr=a"), Some(Error::InvalidInfoHash));
    assert_eq!(error("magnet:?tr=a"), Some(Error::MissingInfoHash));
    assert_eq!(error("magnet:?xt=urn:btih:&tr=a"), Some(Error::MissingInfoHash));
    assert_eq!(error("magnet:?xt=urn:sha1:00&tr=a"), Some(Error::MissingInfoHash));
    assert_eq!(error("magnet:?xt=urn:btih:ab&tr=a"), Some(Error::InvalidInfoHash));
    for size in [19, 21] {
        let uri = format!("magnet:?xt=urn:btih:{}&tr=a", "00".repeat(size));
        assert_eq!(error(&uri), Some(Error::InvalidInfoHash));
    }
    let uri = format!("magnet:?xt=urn:btih:{}", "00".repeat(20));
    assert_eq!(error(&uri), Some(Error::MissingTracker));
}

#[test]
fn magnet_scheme_is_read_in_any_case() {
    let uri = format!("MAGNET:?xt=urn:btih:{}&tr=a", "fF".repeat(20));
    let info = parse_magnet(&uri).unwrap_or_else(|_| panic!());
    assert_eq!(info.info_hash, vec![255; 20]);
    assert_eq!(info.name, "");
}

#[test]
fn magnet_link_from_url_parts() {
    let pair = |name: &str, value: &str| (name.to_string(), value.to_string());
    let mut url = UrlParts {
        scheme: "magnet".to_string(),
        host: None,
        port: None,
        text: String::new(),
        query: vec![
            pair("xt", "urn:btih:00"),
            pair("dn", "first"),
            pair("xt", "other"),
            pair("tr", "t"),
            pair("xt", &format!("urn:btih:{}", "0102".repeat(10))),
            pair("dn", "second"),
        ],
    };
    let info = magnet_from_url(&url).unwrap_or_else(|_| panic!());
    assert_eq!(info.info_hash, [1, 2].repeat(10));
    assert_eq!(info.name, "second");
    assert_eq!(info.tiers, vec![vec!["t".to_string()]]);
    url.query.push(pair("xt", "urn:btih:0"));
    assert_eq!(magnet_from_url(&url).err(), Some(Error::InvalidInfoHash));
    url.scheme = "http".to_string();
    assert_eq!(magnet_from_url(&url).err(), Some(Error::NotMagnetLink));
}

#[test]
fn metadata_is_fetched_from_twenty_peers_at_most() {
    let clients = fetch_metadata_from_peers(&peers(30), &[1; 20], &[2; 20]);
    assert_eq!(clients.len(), 20);
    for (client, peer) in clients.iter().zip(peers(30)) {
        assert_eq!(client.peer(), peer);
        assert!(client.is_choked());
    }
    assert_eq!(fetch_metadata_from_peers(&peers(3), &[1; 20], &[2; 20]).len(), 3);
}

#[test]
fn fetch_goes_through_all_steps() {
    let client = client(true, true);
    let mut step = FetchStep::Begin;
    let mut steps = Vec::new();
    while step != FetchStep::Stop {
        step = next_fetch_step(&client, step, true, false);
        steps.push(step);
    }
    assert_eq!(
        steps,
        vec![
            FetchStep::Connect,
            FetchStep::Handshake,
            FetchStep::SendExtensionHandshake,
            FetchStep::ReadExtensionHandshake,
            FetchStep::DownloadMetadata,
            FetchStep::Publish,
            FetchStep::Stop,
        ]
    );
}

#[test]
fn fetch_stops_without_support() {
    assert_eq!(
        next_fetch_step(&client(false, false), FetchStep::Handshake, true, false),
        FetchStep::Stop
    );
    assert_eq!(
        next_fetch_step(&client(true, false), FetchStep::ReadExtensionHandshake, true, false),
        FetchStep::Stop
    );
}

#[test]
fn fetch_stops_when_another_is_done() {
    let client = client(true, true);
    for step in [
        FetchStep::Begin,
        FetchStep::Connect,
        FetchStep::Handshake,
        FetchStep::SendExtensionHandshake,
        FetchStep::ReadExtensionHandshake,
    ] {
        assert_eq!(next_fetch_step(&client, step, true, true), FetchStep::Stop);
        assert_ne!(next_fetch_step(&client, step, true, false), FetchStep::Stop);
    }
    assert_eq!(
        next_fetch_step(&client, FetchStep::DownloadMetadata, true, true),
        FetchStep::Publish
    );
    assert_eq!(
        next_fetch_step(&client, FetchStep::DownloadMetadata, false, false),
        FetchStep::Stop
    );
}
