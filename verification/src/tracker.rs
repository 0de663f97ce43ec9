//! Finding peers with the help of trackers.
//!
//! Trackers come in tiers. Each is asked over HTTP(S), by a GET request with query
//! parameters, or over UDP, by a connect and an announce request in a binary
//! protocol. The peers they name are collected without duplicates and numbered.

use crate::bytes::{
    append, copy_range, law_u16_round_trip, law_u32_round_trip, law_u64_round_trip, read_u32,
    read_u64, u16_bytes, u16_value, u32_bytes, u32_value, u64_bytes, u64_value, write_u16,
    write_u32, write_u64,
};
use crate::error::Error;
use crate::peer::{
    compact_list, law_compact_list_round_trip, listed_peers, parse_peers, Peer,
};
use crate::random::random_u32;
use crate::text::{begins_with, chars_of, decimal, push_decimal, starts_with, tier_texts};
use crate::uri::{
    hex_value, is_hex_digit, optional_text, parse_url, url_host, url_parses, url_port, url_text, UrlParts,
};
use vstd::prelude::*;

verus! {

/// What is left to download when the total length is unknown (1 GiB).
pub const DEFAULT_LEFT: u64 = 1_073_741_824;

/// Maximum number of peers to accept across all trackers.
pub const MAX_PEERS: usize = 100;

/// Maximum size of an HTTP tracker's response (1 MiB).
pub const MAX_HTTP_RESPONSE_SIZE: usize = 1_048_576;

/// Connection ID of the connect request of the UDP tracker protocol.
pub const UDP_TRACKER_MAGIC: u64 = 0x417_2710_1980;

/// Timeout of a UDP tracker's socket in seconds.
pub const UDP_TRACKER_TIMEOUT_SECS: u64 = 5;

/// Port of a UDP tracker whose URL names none.
pub const UDP_TRACKER_DEFAULT_PORT: u16 = 6969;

/// The hexadecimal digit, with capital letters, of a number below 16.
pub open spec fn upper_hex_digit(d: int) -> char {
    if d < 10 {
        ('0' as int + d) as char
    } else {
        ('A' as int + d - 10) as char
    }
}

/// Each byte as a percent sign and two hexadecimal digits.
pub open spec fn percent_encoded(data: Seq<u8>) -> Seq<char>
    decreases data.len(),
{
    if data.len() == 0 {
        seq![]
    } else {
        percent_encoded(data.drop_last()) + seq![
            '%',
            upper_hex_digit(data.last() as int / 16),
            upper_hex_digit(data.last() as int % 16),
        ]
    }
}

proof fn lemma_percent_encoded_len(data: Seq<u8>)
    ensures
        percent_encoded(data).len() == 3 * data.len(),
    decreases data.len(),
{
    if data.len() > 0 {
        lemma_percent_encoded_len(data.drop_last());
    }
}

/// Percent-encoding triples the length and loses nothing: different data give
/// different texts.
pub proof fn law_percent_encoding_faithful(a: Seq<u8>, b: Seq<u8>)
    ensures
        percent_encoded(a).len() == 3 * a.len(),
        percent_encoded(a) == percent_encoded(b) ==> a == b,
    decreases a.len(),
{
    let ea = percent_encoded(a);
    let eb = percent_encoded(b);
    lemma_percent_encoded_len(a);
    lemma_percent_encoded_len(b);
    if ea == eb {
        if a.len() > 0 {
            let n = ea.len() as int;
            lemma_percent_encoded_len(a.drop_last());
            lemma_percent_encoded_len(b.drop_last());
            assert(ea.take(n - 3) =~= percent_encoded(a.drop_last()));
            assert(eb.take(n - 3) =~= percent_encoded(b.drop_last()));
            law_percent_encoding_faithful(a.drop_last(), b.drop_last());
            assert(ea[n - 2] == upper_hex_digit(a.last() as int / 16));
            assert(eb[n - 2] == upper_hex_digit(b.last() as int / 16));
            assert(ea[n - 1] == upper_hex_digit(a.last() as int % 16));
            assert(eb[n - 1] == upper_hex_digit(b.last() as int % 16));
            assert(a.last() == b.last());
            assert(a =~= a.drop_last().push(a.last()));
            assert(b =~= b.drop_last().push(b.last()));
        } else {
            assert(a =~= b);
        }
    }
}

/// Each byte is written as a percent sign and two hexadecimal digits, none of them a small
/// letter, that give the byte when they are read.
pub proof fn law_percent_digits(data: Seq<u8>, i: int)
    requires
        0 <= i < data.len(),
    ensures
        percent_encoded(data).len() == 3 * data.len(),
        percent_encoded(data)[3 * i] == '%',
        is_hex_digit(percent_encoded(data)[3 * i + 1]),
        is_hex_digit(percent_encoded(data)[3 * i + 2]),
        (percent_encoded(data)[3 * i + 1] as int) < 'a' as int,
        (percent_encoded(data)[3 * i + 2] as int) < 'a' as int,
        hex_value(percent_encoded(data)[3 * i + 1]) * 16 + hex_value(
            percent_encoded(data)[3 * i + 2],
        ) == data[i],
    decreases data.len(),
{
    let rest = data.drop_last();
    lemma_percent_encoded_len(data);
    lemma_percent_encoded_len(rest);
    if i < rest.len() {
        law_percent_digits(rest, i);
        assert(percent_encoded(data)[3 * i] == percent_encoded(rest)[3 * i]);
        assert(percent_encoded(data)[3 * i + 1] == percent_encoded(rest)[3 * i + 1]);
        assert(percent_encoded(data)[3 * i + 2] == percent_encoded(rest)[3 * i + 2]);
    }
}

/// Appends the two hexadecimal digits of `byte` behind a percent sign.
fn push_percent_encoded(encoded: &mut String, byte: u8)
    ensures
        final(encoded)@ == old(encoded)@ + seq![
            '%',
            upper_hex_digit(byte as int / 16),
            upper_hex_digit(byte as int % 16),
        ],
{
    encoded.push('%');
    encoded.push(upper_hex(byte / 16));
    encoded.push(upper_hex(byte % 16));
    assert(encoded@ =~= old(encoded)@ + seq![
        '%',
        upper_hex_digit(byte as int / 16),
        upper_hex_digit(byte as int % 16),
    ]);
}

/// The hexadecimal digit, with capital letters, of a number below 16.
fn upper_hex(d: u8) -> (r: char)
    requires
        d < 16,
    ensures
        r == upper_hex_digit(d as int),
{
    if d < 10 {
        ('0' as u8 + d) as char
    } else {
        ('A' as u8 + (d - 10)) as char
    }
}

/// Percent-encodes binary data for URL query strings: each byte becomes `%XX`, with
/// its two hexadecimal digits in capital letters.
pub fn percent_encode_binary(data: &[u8]) -> (r: String)
    ensures
        r@ == percent_encoded(data@),
{
    let mut encoded: String = String::new();
    let mut i: usize = 0;
    while i < data.len()
        invariant
            i <= data@.len(),
            encoded@ == percent_encoded(data@.take(i as int)),
        decreases data@.len() - i,
    {
        push_percent_encoded(&mut encoded, data[i]);
        assert(data@.take(i + 1).drop_last() =~= data@.take(i as int));
        i += 1;
    }
    assert(data@.take(i as int) =~= data@);
    encoded
}

/// The query parameters of an announce request over HTTP.
pub open spec fn announce_query(
    info_hash: Seq<u8>,
    peer_id: Seq<u8>,
    port: nat,
    length: nat,
) -> Seq<char> {
    "info_hash="@ + percent_encoded(info_hash) + "&peer_id="@ + percent_encoded(peer_id) + "&port="@
        + decimal(port) + "&uploaded=0&downloaded=0&left="@ + decimal(length)
        + "&compact=1&event=started"@
}

/// The URL `base` with the query parameters appended.
pub open spec fn tracker_url(
    base: Seq<char>,
    info_hash: Seq<u8>,
    peer_id: Seq<u8>,
    port: nat,
    length: nat,
) -> Seq<char> {
    base.push(
        if base.contains('?') {
            '&'
        } else {
            '?'
        },
    ) + announce_query(info_hash, peer_id, port, length)
}

/// The announce URL is the tracker's URL with the parameters behind a question mark, or
/// behind an ampersand if there is a question mark already: info hash and peer ID
/// percent-encoded, port and remaining length in decimal notation, and the fixed ones.
pub proof fn law_tracker_url(
    base: Seq<char>,
    info_hash: Seq<u8>,
    peer_id: Seq<u8>,
    port: nat,
    length: nat,
)
    ensures
        ({
            let url = tracker_url(base, info_hash, peer_id, port, length);
            let n = base.len() as int;
            let head = "info_hash="@ + percent_encoded(info_hash) + "&peer_id="@ + percent_encoded(
                peer_id,
            ) + "&port="@;
            let tail = decimal(port) + "&uploaded=0&downloaded=0&left="@ + decimal(length)
                + "&compact=1&event=started"@;
            &&& url.take(n) == base
            &&& url.len() > n
            &&& (exists|i: int| 0 <= i < n && base[i] == '?') ==> url[n] == '&'
            &&& (forall|i: int| 0 <= i < n ==> base[i] != '?') ==> url[n] == '?'
            &&& url.skip(n + 1) == head + tail
        }),
{
    let url = tracker_url(base, info_hash, peer_id, port, length);
    let n = base.len() as int;
    assert(url.take(n) =~= base);
    assert(url.skip(n + 1) =~= announce_query(info_hash, peer_id, port, length));
    let head = "info_hash="@ + percent_encoded(info_hash) + "&peer_id="@ + percent_encoded(peer_id)
        + "&port="@;
    let tail = decimal(port) + "&uploaded=0&downloaded=0&left="@ + decimal(length)
        + "&compact=1&event=started"@;
    assert(announce_query(info_hash, peer_id, port, length) =~= head + tail);
}

/// Whether `s` holds the character `c`.
fn contains_char(s: &str, c: char) -> (r: bool)
    ensures
        r == s@.contains(c),
{
    let chars = chars_of(s);
    let mut i: usize = 0;
    while i < chars.len()
        invariant
            i <= chars@.len(),
            chars@ == s@,
            forall|j: int| 0 <= j < i ==> chars@[j] != c,
        decreases chars@.len() - i,
    {
        if chars[i] == c {
            assert(s@[i as int] == c);
            return true;
        }
        i += 1;
    }
    false
}

/// Appends the announce parameters to a tracker's URL.
pub fn append_announce_query(
    base: &str,
    info_hash: &[u8],
    peer_id: &[u8],
    port: u16,
    length: u64,
) -> (r: String)
    ensures
        r@ == tracker_url(base@, info_hash@, peer_id@, port as nat, length as nat),
{
    let mut url: String = base.to_owned();
    if contains_char(base, '?') {
        url.push('&');
    } else {
        url.push('?');
    }
    let ghost start = url@;
    url.append("info_hash=");
    url.append(percent_encode_binary(info_hash).as_str());
    url.append("&peer_id=");
    url.append(percent_encode_binary(peer_id).as_str());
    url.append("&port=");
    push_decimal(&mut url, port as u64);
    url.append("&uploaded=0&downloaded=0&left=");
    push_decimal(&mut url, length);
    url.append("&compact=1&event=started");
    assert(url@ =~= start + announce_query(info_hash@, peer_id@, port as nat, length as nat));
    url
}

/// Builds a tracker's announce URL: the URL in its normal form, with the announce
/// parameters appended.
pub fn build_tracker_url(
    info_hash: &[u8],
    announce: &str,
    peer_id: &[u8],
    port: u16,
    length: u64,
) -> (r: Result<String, Error>)
    ensures
        match r {
            Ok(url) => url_parses(announce@) && url@ == tracker_url(
                url_text(announce@),
                info_hash@,
                peer_id@,
                port as nat,
                length as nat,
            ),
            Err(e) => !url_parses(announce@) && e == Error::InvalidTrackerUrl,
        },
{
    match parse_url(announce) {
        Ok(base) => Ok(
            append_announce_query(base.text.as_str(), info_hash, peer_id, port, length),
        ),
        Err(_) => Err(Error::InvalidTrackerUrl),
    }
}

/// How a tracker is to be asked.
#[derive(Debug, PartialEq, Eq)]
pub enum TrackerQuery {
    /// With the UDP tracker protocol.
    Udp,
    /// With a GET request for this URL.
    Http(String),
}

/// Decides how to query a tracker, by the scheme of its URL: UDP, HTTP and HTTPS are
/// supported.
pub fn query_single_tracker(
    announce: &str,
    info_hash: &[u8],
    peer_id: &[u8],
    port: u16,
    length: u64,
) -> (r: Result<TrackerQuery, Error>)
    ensures
        ({
            let udp = begins_with(announce@, "udp://"@);
            let http = begins_with(announce@, "http://"@) || begins_with(announce@, "https://"@);
            match r {
                Ok(TrackerQuery::Udp) => udp,
                Ok(TrackerQuery::Http(url)) => {
                    &&& !udp && http
                    &&& url_parses(announce@)
                    &&& url@ == tracker_url(
                        url_text(announce@),
                        info_hash@,
                        peer_id@,
                        port as nat,
                        length as nat,
                    )
                },
                Err(e) => !udp && if http {
                    !url_parses(announce@) && e == Error::InvalidTrackerUrl
                } else {
                    e == Error::UnsupportedTrackerProtocol
                },
            }
        }),
{
    if starts_with(announce, "udp://") {
        Ok(TrackerQuery::Udp)
    } else if starts_with(announce, "http://") || starts_with(announce, "https://") {
        match build_tracker_url(info_hash, announce, peer_id, port, length) {
            Ok(url) => Ok(TrackerQuery::Http(url)),
            Err(e) => Err(e),
        }
    } else {
        Err(Error::UnsupportedTrackerProtocol)
    }
}

/// Checks that the response of an HTTP tracker is not too large.
pub fn check_http_response(response: &[u8]) -> (r: Result<(), Error>)
    ensures
        match r {
            Ok(()) => response@.len() <= MAX_HTTP_RESPONSE_SIZE,
            Err(e) => response@.len() > MAX_HTTP_RESPONSE_SIZE && e == Error::HttpReplyTooLarge,
        },
{
    if response.len() > MAX_HTTP_RESPONSE_SIZE {
        return Err(Error::HttpReplyTooLarge);
    }
    Ok(())
}

/// The random numbers of an exchange with a UDP tracker.
#[derive(Clone, Copy, Debug)]
pub struct UdpExchange {
    /// Ties the tracker's response to the request
    pub transaction_id: u32,
    /// Identifies this client to the tracker
    pub key: u32,
}

/// What an announce request tells a tracker.
pub struct Announce {
    /// 20-byte SHA-1 hash of the bencoded info dictionary
    pub info_hash: Vec<u8>,
    /// 20-byte unique identifier for this client instance
    pub peer_id: Vec<u8>,
    /// Port number for incoming peer connections
    pub port: u16,
    /// Total size of all files in bytes; 0 if it is unknown
    pub length: u64,
}

/// What happened in an exchange with a UDP tracker.
pub enum UdpEvent {
    /// The exchange begins.
    Begin,
    /// The socket is ready.
    Ready,
    /// The tracker's response to the connect request, with zeros behind it if it is
    /// shorter than 16 bytes
    ConnectResponse(Vec<u8>),
    /// The tracker's response to the announce request
    AnnounceResponse(Vec<u8>),
}

/// What to do next in an exchange with a UDP tracker.
#[derive(Debug, PartialEq, Eq)]
pub enum UdpAction {
    /// Open a socket to this host and port.
    Open { host: String, port: u16 },
    /// Send this connect request and wait for the response.
    SendConnect(Vec<u8>),
    /// Send this announce request and wait for the response.
    SendAnnounce(Vec<u8>),
    /// The exchange is over; these are the peers.
    Finish(Vec<Peer>),
}

/// The connect request of the UDP tracker protocol.
pub open spec fn connect_request(transaction_id: u32) -> Seq<u8> {
    u64_bytes(UDP_TRACKER_MAGIC) + u32_bytes(0) + u32_bytes(transaction_id)
}

/// What is left to download, as a tracker is told.
pub open spec fn announced_left(length: u64) -> u64 {
    if length == 0 {
        DEFAULT_LEFT
    } else {
        length
    }
}

/// The announce request of the UDP tracker protocol: connection ID, action, transaction
/// ID, info hash, peer ID, downloaded, left, uploaded, event, IP address, key, number
/// of peers wanted (-1 for any) and port.
pub open spec fn announce_request(
    connection_id: u64,
    exchange: UdpExchange,
    announce: Announce,
) -> Seq<u8> {
    u64_bytes(connection_id) + u32_bytes(1) + u32_bytes(exchange.transaction_id)
        + announce.info_hash@ + announce.peer_id@ + u64_bytes(0) + u64_bytes(
        announced_left(announce.length),
    ) + u64_bytes(0) + u32_bytes(0) + u32_bytes(0) + u32_bytes(exchange.key) + u32_bytes(0xffff_ffff)
        + u16_bytes(announce.port)
}

/// An announce request is 98 bytes long.
pub proof fn law_announce_request_size(
    connection_id: u64,
    exchange: UdpExchange,
    announce: Announce,
)
    requires
        announce.info_hash@.len() == 20,
        announce.peer_id@.len() == 20,
    ensures
        announce_request(connection_id, exchange, announce).len() == 98,
{
}

/// A connect request has the protocol's number, action 0 and the transaction ID.
pub proof fn law_connect_request(transaction_id: u32)
    ensures
        connect_request(transaction_id).len() == 16,
        u64_value(connect_request(transaction_id)) == 0x41727101980,
        u32_value(connect_request(transaction_id).skip(8)) == 0,
        u32_value(connect_request(transaction_id).skip(12)) == transaction_id,
{
    let r = connect_request(transaction_id);
    law_u64_round_trip(UDP_TRACKER_MAGIC);
    law_u32_round_trip(0, u32_bytes(transaction_id));
    law_u32_round_trip(transaction_id, Seq::empty());
    lemma_u64_value(r);
    assert(r.take(8) =~= u64_bytes(UDP_TRACKER_MAGIC));
    assert(r.skip(8) =~= u32_bytes(0) + u32_bytes(transaction_id));
    assert(r.skip(12) =~= u32_bytes(transaction_id) + Seq::<u8>::empty());
}

proof fn lemma_u64_value(s: Seq<u8>)
    requires
        s.len() >= 8,
    ensures
        u64_value(s) == u64_value(s.take(8)),
{
    assert(s.skip(4)[0] == s.take(8).skip(4)[0]);
    assert(s.skip(4)[1] == s.take(8).skip(4)[1]);
    assert(s.skip(4)[2] == s.take(8).skip(4)[2]);
    assert(s.skip(4)[3] == s.take(8).skip(4)[3]);
}

proof fn lemma_u64_field(s: Seq<u8>, at: int, n: u64)
    requires
        0 <= at,
        at + 8 <= s.len(),
        s.subrange(at, at + 8) == u64_bytes(n),
    ensures
        u64_value(s.skip(at)) == n,
{
    law_u64_round_trip(n);
    lemma_u64_value(s.skip(at));
    assert(s.skip(at).take(8) =~= s.subrange(at, at + 8));
}

proof fn lemma_u32_field(s: Seq<u8>, at: int, n: u32)
    requires
        0 <= at,
        at + 4 <= s.len(),
        s.subrange(at, at + 4) == u32_bytes(n),
    ensures
        u32_value(s.skip(at)) == n,
{
    law_u32_round_trip(n, s.skip(at + 4));
    assert(s.skip(at) =~= s.subrange(at, at + 4) + s.skip(at + 4));
}

/// An announce request has the connection ID that the tracker gave, action 1, the
/// transaction ID, the info hash, the peer ID, nothing downloaded, what is left (1 GiB if
/// the length is unknown), nothing uploaded, no event, no address, the key, any number of
/// peers and the port, each in its place.
pub proof fn law_announce_request_layout(
    connection_id: u64,
    exchange: UdpExchange,
    announce: Announce,
)
    requires
        announce.info_hash@.len() == 20,
        announce.peer_id@.len() == 20,
    ensures
        ({
            let r = announce_request(connection_id, exchange, announce);
            &&& r.len() == 98
            &&& u64_value(r) == connection_id
            &&& u32_value(r.skip(8)) == 1
            &&& u32_value(r.skip(12)) == exchange.transaction_id
            &&& r.subrange(16, 36) == announce.info_hash@
            &&& r.subrange(36, 56) == announce.peer_id@
            &&& u64_value(r.skip(56)) == 0
            &&& u64_value(r.skip(64)) == if announce.length == 0 {
                1_073_741_824int
            } else {
                announce.length as int
            }
            &&& u64_value(r.skip(72)) == 0
            &&& u32_value(r.skip(80)) == 0
            &&& u32_value(r.skip(84)) == 0
            &&& u32_value(r.skip(88)) == exchange.key
            &&& u32_value(r.skip(92)) == 0xffff_ffff
            &&& u16_value(r.skip(96)) == announce.port
        }),
{
    let r = announce_request(connection_id, exchange, announce);
    assert(r.len() == 98);
    assert(r.subrange(0, 8) =~= u64_bytes(connection_id));
    lemma_u64_field(r, 0, connection_id);
    assert(r.skip(0) =~= r);
    assert(r.subrange(8, 12) =~= u32_bytes(1));
    lemma_u32_field(r, 8, 1);
    assert(r.subrange(12, 16) =~= u32_bytes(exchange.transaction_id));
    lemma_u32_field(r, 12, exchange.transaction_id);
    assert(r.subrange(16, 36) =~= announce.info_hash@);
    assert(r.subrange(36, 56) =~= announce.peer_id@);
    assert(r.subrange(56, 64) =~= u64_bytes(0));
    lemma_u64_field(r, 56, 0);
    assert(r.subrange(64, 72) =~= u64_bytes(announced_left(announce.length)));
    lemma_u64_field(r, 64, announced_left(announce.length));
    assert(r.subrange(72, 80) =~= u64_bytes(0));
    lemma_u64_field(r, 72, 0);
    assert(r.subrange(80, 84) =~= u32_bytes(0));
    lemma_u32_field(r, 80, 0);
    assert(r.subrange(84, 88) =~= u32_bytes(0));
    lemma_u32_field(r, 84, 0);
    assert(r.subrange(88, 92) =~= u32_bytes(exchange.key));
    lemma_u32_field(r, 88, exchange.key);
    assert(r.subrange(92, 96) =~= u32_bytes(0xffff_ffff));
    lemma_u32_field(r, 92, 0xffff_ffff);
    law_u16_round_trip(announce.port);
    assert(r.skip(96) =~= u16_bytes(announce.port));
}

impl UdpExchange {
    /// Draws the random numbers of an exchange. Any two may come.
    pub fn new() -> UdpExchange {
        UdpExchange { transaction_id: random_u32(), key: random_u32() }
    }
}

/// The host and port of a UDP tracker, from the parts of its URL.
pub fn udp_tracker_address(url: &UrlParts) -> (r: Result<(String, u16), Error>)
    ensures
        match r {
            Ok((host, port)) => optional_text(url.host) == Some(host@) && port == match url.port {
                Some(port) => port,
                None => UDP_TRACKER_DEFAULT_PORT,
            },
            Err(e) => url.host is None && e == Error::NoUdpTrackerHost,
        },
{
    let host = match &url.host {
        Some(host) => host.as_str().to_owned(),
        None => {
            return Err(Error::NoUdpTrackerHost);
        },
    };
    let port: u16 = match url.port {
        Some(port) => port,
        None => UDP_TRACKER_DEFAULT_PORT,
    };
    Ok((host, port))
}

/// Encodes the connect request of the UDP tracker protocol.
fn encode_connect_request(transaction_id: u32) -> (r: Vec<u8>)
    ensures
        r@ == connect_request(transaction_id),
{
    let mut request = write_u64(UDP_TRACKER_MAGIC);
    append(&mut request, &write_u32(0));
    append(&mut request, &write_u32(transaction_id));
    request
}

/// The connection ID in a tracker's response to the connect request.
pub fn parse_connect_response(response: &[u8], transaction_id: u32) -> (r: Result<u64, Error>)
    requires
        response@.len() >= 16,
    ensures
        ({
            let action = u32_value(response@);
            let same_transaction = u32_value(response@.skip(4)) == transaction_id;
            match r {
                Ok(connection_id) => action == 0 && same_transaction && connection_id == u64_value(
                    response@.skip(8),
                ),
                Err(e) => if action != 0 {
                    e == Error::UdpConnectAction(action as u32)
                } else {
                    !same_transaction && e == Error::UdpTransactionMismatch
                },
            }
        }),
{
    let len: usize = response.len();
    let action: u32 = read_u32(response);
    let rest = vstd::slice::slice_subrange(response, 4, len);
    assert(rest@ =~= response@.skip(4));
    let response_id: u32 = read_u32(rest);
    if action != 0 {
        return Err(Error::UdpConnectAction(action));
    }
    if response_id != transaction_id {
        return Err(Error::UdpTransactionMismatch);
    }
    let rest = vstd::slice::slice_subrange(response, 8, len);
    assert(rest@ =~= response@.skip(8));
    Ok(read_u64(rest))
}

/// Encodes the announce request of the UDP tracker protocol.
fn encode_announce_request(
    connection_id: u64,
    exchange: &UdpExchange,
    announce: &Announce,
) -> (r: Vec<u8>)
    ensures
        r@ == announce_request(connection_id, *exchange, *announce),
{
    let left: u64 = if announce.length == 0 {
        DEFAULT_LEFT
    } else {
        announce.length
    };
    let mut request = write_u64(connection_id);
    append(&mut request, &write_u32(1));
    append(&mut request, &write_u32(exchange.transaction_id));
    append(&mut request, &announce.info_hash);
    append(&mut request, &announce.peer_id);
    append(&mut request, &write_u64(0));
    append(&mut request, &write_u64(left));
    append(&mut request, &write_u64(0));
    append(&mut request, &write_u32(0));
    append(&mut request, &write_u32(0));
    append(&mut request, &write_u32(exchange.key));
    append(&mut request, &write_u32(0xffff_ffff));
    append(&mut request, &write_u16(announce.port));
    request
}

/// Whether a response to an announce request is one that reports an error without
/// saying which.
pub open spec fn cut_error_response(response: Seq<u8>) -> bool {
    4 <= response.len() < 8 && u32_value(response) == 3
}

/// Whether a response to an announce request is one that reports an error without
/// saying which.
pub fn is_cut_error_response(response: &[u8]) -> (r: bool)
    ensures
        r == cut_error_response(response@),
{
    4 <= response.len() && response.len() < 8 && read_u32(response) == 3
}

/// Whether `r` is what a response to an announce request means.
pub open spec fn announce_outcome(response: Seq<u8>, r: Result<Vec<Peer>, Error>) -> bool {
    let action = u32_value(response);
    let list = response.skip(20);
    match r {
        Ok(peers) => {
            &&& response.len() >= 20
            &&& action == 1
            &&& list.len() % 6 == 0
            &&& peers@ == listed_peers(list)
        },
        Err(e) => if response.len() < 4 {
            e == Error::UdpReplyTooShort
        } else if action == 3 {
            e matches Error::UdpTrackerMessage(words) && words@ == response.skip(8)
        } else if action != 1 {
            e == Error::UdpAnnounceAction(action as u32)
        } else if response.len() < 20 {
            e == Error::UdpReplyTooShort
        } else {
            list.len() % 6 != 0 && e == Error::InvalidPeerList
        },
    }
}

/// A response with action 1, sixteen more bytes and a compact list gives the peers of the
/// list, all of them and in order.
pub proof fn law_announce_response_read(
    header: Seq<u8>,
    peers: Seq<Peer>,
    r: Result<Vec<Peer>, Error>,
    i: int,
)
    requires
        header.len() == 16,
        announce_outcome(seq![0u8, 0, 0, 1] + header + compact_list(peers), r),
    ensures
        r matches Ok(found) && found@.len() == peers.len() && (0 <= i < peers.len() ==> found@[i].ip
            == peers[i].ip && found@[i].port == peers[i].port),
{
    let response = seq![0u8, 0, 0, 1] + header + compact_list(peers);
    law_compact_list_round_trip(peers);
    assert(response.skip(20) =~= compact_list(peers));
    assert(response[0] == 0 && response[1] == 0 && response[2] == 0 && response[3] == 1);
    assert(u32_value(response) == 1);
    if 0 <= i < peers.len() {
        assert(listed_peers(compact_list(peers))[i].ip == peers[i].ip);
    }
}

/// A response that does not name peers is an error: one with action 3 says which, from its
/// ninth byte on; one with another action but 1 is reported by its action; and one that is
/// too short, or whose list has a broken entry, is reported as such.
pub proof fn law_announce_response_refused(response: Seq<u8>, r: Result<Vec<Peer>, Error>)
    requires
        announce_outcome(response, r),
    ensures
        ({
            let action = response[0] * 0x100_0000 + response[1] * 0x1_0000 + response[2] * 0x100
                + response[3];
            &&& response.len() < 4 ==> r == Err::<Vec<Peer>, Error>(Error::UdpReplyTooShort)
            &&& response.len() >= 4 && action == 3 ==> (r matches Err(
                Error::UdpTrackerMessage(words),
            ) && words@ == response.skip(8))
            &&& response.len() >= 4 && action != 3 && action != 1 ==> r == Err::<Vec<Peer>, Error>(
                Error::UdpAnnounceAction(action as u32),
            )
            &&& 4 <= response.len() < 20 && action == 1 ==> r == Err::<Vec<Peer>, Error>(
                Error::UdpReplyTooShort,
            )
            &&& response.len() >= 20 && action == 1 && (response.len() - 20) % 6 != 0 ==> r == Err::<
                Vec<Peer>,
                Error,
            >(Error::InvalidPeerList)
            &&& response.len() >= 20 && action == 1 && (response.len() - 20) % 6 == 0 ==> r is Ok
        }),
{
}

/// Every event can be taken in but a response to the connect request of fewer than sixteen
/// bytes, and an error response that is cut before its message.
pub proof fn law_udp_events(event: UdpEvent)
    ensures
        event is Begin || event is Ready ==> udp_event_valid(event),
        event matches UdpEvent::ConnectResponse(response) ==> udp_event_valid(event) == (
        response@.len() >= 16),
        event matches UdpEvent::AnnounceResponse(response) ==> udp_event_valid(event) == !(4
            <= response@.len() < 8 && response@[0] == 0 && response@[1] == 0 && response@[2] == 0
            && response@[3] == 3),
{
}

/// The peers in a tracker's response to the announce request: behind action,
/// transaction ID, interval, and the numbers of leechers and seeders.
pub fn parse_announce_response(response: &[u8]) -> (r: Result<Vec<Peer>, Error>)
    requires
        !cut_error_response(response@),
    ensures
        announce_outcome(response@, r),
{
    let len: usize = response.len();
    if len < 4 {
        return Err(Error::UdpReplyTooShort);
    }
    let action: u32 = read_u32(response);
    if action == 3 {
        let words = copy_range(response, 8, len);
        assert(words@ =~= response@.skip(8));
        return Err(Error::UdpTrackerMessage(words));
    }
    if action != 1 {
        return Err(Error::UdpAnnounceAction(action));
    }
    if len < 20 {
        return Err(Error::UdpReplyTooShort);
    }
    let list = copy_range(response, 20, len);
    assert(list@ =~= response@.skip(20));
    parse_peers(list)
}

/// Whether an event is one that an exchange with a UDP tracker can go on from.
pub open spec fn udp_event_valid(event: UdpEvent) -> bool {
    match event {
        UdpEvent::ConnectResponse(response) => response@.len() >= 16,
        UdpEvent::AnnounceResponse(response) => !cut_error_response(response@),
        _ => true,
    }
}

/// Queries a UDP tracker for peers: decides how the exchange goes on after an event.
///
/// The tracker is sent a connect request and, with the connection ID from its
/// response, an announce request, whose response names peers.
pub fn query_udp_tracker(
    url: &str,
    announce: &Announce,
    exchange: &UdpExchange,
    event: UdpEvent,
) -> (r: Result<UdpAction, Error>)
    requires
        udp_event_valid(event),
    ensures
        match event {
            UdpEvent::Begin => match r {
                Ok(action) => {
                    &&& url_parses(url@)
                    &&& action matches UdpAction::Open { host, port } && {
                        &&& url_host(url@) == Some(host@)
                        &&& port == match url_port(url@) {
                            Some(port) => port,
                            None => UDP_TRACKER_DEFAULT_PORT,
                        }
                    }
                },
                Err(e) => if url_parses(url@) {
                    url_host(url@) is None && e == Error::NoUdpTrackerHost
                } else {
                    e == Error::InvalidUdpTrackerUrl
                },
            },
            UdpEvent::Ready => r matches Ok(UdpAction::SendConnect(request)) && request@
                == connect_request(exchange.transaction_id),
            UdpEvent::ConnectResponse(response) => {
                let action = u32_value(response@);
                let same_transaction = u32_value(response@.skip(4)) == exchange.transaction_id;
                match r {
                    Ok(next) => {
                        &&& action == 0
                        &&& same_transaction
                        &&& next matches UdpAction::SendAnnounce(request) && request@
                            == announce_request(
                            u64_value(response@.skip(8)) as u64,
                            *exchange,
                            *announce,
                        )
                    },
                    Err(e) => if action != 0 {
                        e == Error::UdpConnectAction(action as u32)
                    } else {
                        !same_transaction && e == Error::UdpTransactionMismatch
                    },
                }
            },
            UdpEvent::AnnounceResponse(response) => match r {
                Ok(next) => next matches UdpAction::Finish(peers) && announce_outcome(
                    response@,
                    Ok(peers),
                ),
                Err(e) => announce_outcome(response@, Err(e)),
            },
        },
{
    match event {
        UdpEvent::Begin => match parse_url(url) {
            Ok(parts) => match udp_tracker_address(&parts) {
                Ok((host, port)) => Ok(UdpAction::Open { host, port }),
                Err(e) => Err(e),
            },
            Err(_) => Err(Error::InvalidUdpTrackerUrl),
        },
        UdpEvent::Ready => Ok(
            UdpAction::SendConnect(encode_connect_request(exchange.transaction_id)),
        ),
        UdpEvent::ConnectResponse(response) => match parse_connect_response(
            &response,
            exchange.transaction_id,
        ) {
            Ok(connection_id) => Ok(
                UdpAction::SendAnnounce(encode_announce_request(connection_id, exchange, announce)),
            ),
            Err(e) => Err(e),
        },
        UdpEvent::AnnounceResponse(response) => match parse_announce_response(&response) {
            Ok(peers) => Ok(UdpAction::Finish(peers)),
            Err(e) => Err(e),
        },
    }
}

/// Whether two peers have the same address and port.
pub open spec fn same_endpoint(a: Peer, b: Peer) -> bool {
    a.ip == b.ip && a.port == b.port
}

/// Whether a peer with the address and port of `peer` is among `peers`.
pub open spec fn known(peers: Seq<Peer>, peer: Peer) -> bool {
    exists|i: int| 0 <= i < peers.len() && same_endpoint(#[trigger] peers[i], peer)
}

/// The peers `found` with those of `peers` appended that are not known yet, in order,
/// up to the maximum number of peers.
pub open spec fn merged(found: Seq<Peer>, peers: Seq<Peer>) -> Seq<Peer>
    decreases peers.len(),
{
    if peers.len() == 0 {
        found
    } else {
        let before = merged(found, peers.drop_last());
        if before.len() < MAX_PEERS && !known(before, peers.last()) {
            before.push(peers.last())
        } else {
            before
        }
    }
}

/// Whether no two of `peers` have the same address and port, and there are not too
/// many of them.
pub open spec fn distinct_peers(peers: Seq<Peer>) -> bool {
    &&& peers.len() <= MAX_PEERS
    &&& forall|i: int, j: int|
        0 <= i < j < peers.len() ==> !same_endpoint(#[trigger] peers[i], #[trigger] peers[j])
}

/// Merging keeps what was found, adds no duplicate and not too many peers, adds only
/// peers that were named, and misses one that was named only when there are as many
/// peers as are accepted.
pub proof fn law_merged(found: Seq<Peer>, peers: Seq<Peer>)
    requires
        distinct_peers(found),
    ensures
        distinct_peers(merged(found, peers)),
        found.len() <= merged(found, peers).len(),
        merged(found, peers).take(found.len() as int) == found,
        forall|i: int|
            found.len() <= i < merged(found, peers).len() ==> peers.contains(
                #[trigger] merged(found, peers)[i],
            ),
        forall|i: int|
            0 <= i < peers.len() ==> known(merged(found, peers), #[trigger] peers[i]) || merged(
                found,
                peers,
            ).len() == MAX_PEERS,
    decreases peers.len(),
{
    let all = merged(found, peers);
    if peers.len() == 0 {
        assert(all.take(found.len() as int) =~= found);
    } else {
        let rest = peers.drop_last();
        let before = merged(found, rest);
        law_merged(found, rest);
        assert forall|i: int|
            found.len() <= i < all.len() implies peers.contains(#[trigger] all[i]) by {
            if i < before.len() {
                assert(rest.contains(before[i]));
                let k = choose|k: int| 0 <= k < rest.len() && rest[k] == before[i];
                assert(peers[k] == all[i]);
            } else {
                assert(peers[peers.len() - 1] == all[i]);
            }
        }
        assert(all.take(found.len() as int) =~= found) by {
            assert(before.take(found.len() as int) =~= found);
        }
        assert forall|i: int| 0 <= i < peers.len() implies known(all, #[trigger] peers[i])
            || all.len() == MAX_PEERS by {
            if i < rest.len() {
                assert(peers[i] == rest[i]);
                if known(before, rest[i]) {
                    let k = choose|k: int|
                        0 <= k < before.len() && same_endpoint(#[trigger] before[k], rest[i]);
                    assert(same_endpoint(all[k], peers[i]));
                }
            } else if all.len() > before.len() {
                assert(same_endpoint(all[before.len() as int], peers[i]));
            }
        }
    }
}

/// Merging in terms of addresses and ports: no two peers have both in common, there are at
/// most a hundred, and one that was named is missing only when there are a hundred.
pub proof fn law_merged_endpoints(found: Seq<Peer>, peers: Seq<Peer>)
    requires
        found.len() <= 100,
        forall|i: int, j: int|
            0 <= i < j < found.len() ==> (#[trigger] found[i]).ip != (#[trigger] found[j]).ip
                || found[i].port != found[j].port,
    ensures
        merged(found, peers).len() <= 100,
        forall|i: int, j: int|
            0 <= i < j < merged(found, peers).len() ==> (#[trigger] merged(found, peers)[i]).ip != (
            #[trigger] merged(found, peers)[j]).ip || merged(found, peers)[i].port != merged(
                found,
                peers,
            )[j].port,
        forall|i: int|
            0 <= i < peers.len() && merged(found, peers).len() < 100 ==> exists|j: int|
                0 <= j < merged(found, peers).len() && (#[trigger] merged(found, peers)[j]).ip == (
                #[trigger] peers[i]).ip && merged(found, peers)[j].port == peers[i].port,
{
    assert forall|i: int, j: int| 0 <= i < j < found.len() implies !same_endpoint(
        #[trigger] found[i],
        #[trigger] found[j],
    ) by {}
    law_merged(found, peers);
    let all = merged(found, peers);
    assert forall|i: int, j: int| 0 <= i < j < all.len() implies (#[trigger] all[i]).ip != (
    #[trigger] all[j]).ip || all[i].port != all[j].port by {
        assert(!same_endpoint(all[i], all[j]));
    }
    assert forall|i: int| 0 <= i < peers.len() && all.len() < 100 implies exists|j: int|
        0 <= j < all.len() && (#[trigger] all[j]).ip == (#[trigger] peers[i]).ip && all[j].port
            == peers[i].port by {
        assert(known(all, peers[i]));
        let j = choose|j: int| 0 <= j < all.len() && same_endpoint(#[trigger] all[j], peers[i]);
        assert(all[j].ip == peers[i].ip);
    }
}

/// Peers are taken in the order in which they are named: naming more of them only appends,
/// and the next peer is appended just when there are fewer than a hundred and none has its
/// address and port.
pub proof fn law_merged_in_order(found: Seq<Peer>, peers: Seq<Peer>, peer: Peer)
    ensures
        merged(found, Seq::empty()) == found,
        ({
            let before = merged(found, peers);
            let after = merged(found, peers.push(peer));
            let new = forall|i: int|
                0 <= i < before.len() ==> (#[trigger] before[i]).ip != peer.ip || before[i].port
                    != peer.port;
            &&& before.len() < 100 && new ==> after == before.push(peer)
            &&& before.len() >= 100 || !new ==> after == before
        }),
{
    let before = merged(found, peers);
    assert(peers.push(peer).drop_last() =~= peers);
    if known(before, peer) {
        let i = choose|i: int| 0 <= i < before.len() && same_endpoint(#[trigger] before[i], peer);
        assert(before[i].ip == peer.ip && before[i].port == peer.port);
    } else {
        assert forall|i: int| 0 <= i < before.len() implies (#[trigger] before[i]).ip != peer.ip
            || before[i].port != peer.port by {
            assert(!same_endpoint(before[i], peer));
        }
    }
}

/// The peers found after a series of trackers named these.
pub open spec fn found_after(named: Seq<Seq<Peer>>) -> Seq<Peer>
    decreases named.len(),
{
    if named.len() == 0 {
        seq![]
    } else {
        merged(found_after(named.drop_last()), named.last())
    }
}

/// Each tracker's peers are merged into those found before.
pub proof fn law_found_extended(named: Seq<Seq<Peer>>, peers: Seq<Peer>)
    ensures
        found_after(named.push(peers)) == merged(found_after(named), peers),
{
    assert(named.push(peers).drop_last() =~= named);
}

/// The peers found are distinct, were all named by a tracker, and include every peer
/// that any tracker named, unless there are as many as are accepted.
pub proof fn law_found_after(named: Seq<Seq<Peer>>)
    ensures
        distinct_peers(found_after(named)),
        forall|i: int|
            0 <= i < found_after(named).len() ==> exists|t: int|
                0 <= t < named.len() && (#[trigger] named[t]).contains(
                    #[trigger] found_after(named)[i],
                ),
        forall|t: int, i: int|
            0 <= t < named.len() && 0 <= i < named[t].len() ==> known(
                found_after(named),
                #[trigger] named[t][i],
            ) || found_after(named).len() == MAX_PEERS,
    decreases named.len(),
{
    if named.len() > 0 {
        let rest = named.drop_last();
        let before = found_after(rest);
        let all = found_after(named);
        law_found_after(rest);
        law_merged(before, named.last());
        assert(forall|k: int| 0 <= k < before.len() ==> all[k] == before[k]) by {
            assert forall|k: int| 0 <= k < before.len() implies all[k] == before[k] by {
                assert(all.take(before.len() as int)[k] == before[k]);
            }
        }
        assert forall|i: int| 0 <= i < all.len() implies exists|t: int|
            0 <= t < named.len() && (#[trigger] named[t]).contains(#[trigger] all[i]) by {
            if i < before.len() {
                let t = choose|t: int| 0 <= t < rest.len() && (#[trigger] rest[t]).contains(before[i]);
                assert(named[t].contains(all[i]));
            } else {
                assert(named[named.len() - 1].contains(all[i]));
            }
        }
        assert forall|t: int, i: int|
            0 <= t < named.len() && 0 <= i < named[t].len() implies known(
            all,
            #[trigger] named[t][i],
        ) || all.len() == MAX_PEERS by {
            if t < rest.len() {
                assert(named[t][i] == rest[t][i]);
                if known(before, rest[t][i]) {
                    let k = choose|k: int|
                        0 <= k < before.len() && same_endpoint(#[trigger] before[k], rest[t][i]);
                    assert(same_endpoint(all[k], named[t][i]));
                }
            }
        }
    }
}

/// The peers numbered from zero.
pub open spec fn numbered(peers: Seq<Peer>) -> Seq<Peer> {
    Seq::new(peers.len(), |i: int| Peer { id: i as u32, ..peers[i] })
}

/// Numbering gives the peers the numbers from zero on and changes nothing else.
pub proof fn law_numbered(peers: Seq<Peer>, i: int)
    requires
        0 <= i < peers.len() <= 0x1_0000_0000,
    ensures
        numbered(peers).len() == peers.len(),
        numbered(peers)[i].id == i,
        numbered(peers)[i].ip == peers[i].ip,
        numbered(peers)[i].port == peers[i].port,
{
}

/// The index of the first tier from `tier` on that has a tracker.
pub open spec fn tier_from(tiers: Seq<Seq<Seq<char>>>, tier: int) -> int
    decreases tiers.len() - tier,
{
    if 0 <= tier < tiers.len() && tiers[tier].len() == 0 {
        tier_from(tiers, tier + 1)
    } else {
        tier
    }
}

/// The position of the tracker to ask after the one at `at`. When there are enough
/// peers, the rest of a tier is left out.
pub open spec fn next_position(
    tiers: Seq<Seq<Seq<char>>>,
    at: (int, int),
    enough: bool,
) -> (int, int) {
    if !enough && at.1 + 1 < tiers[at.0].len() {
        (at.0, at.1 + 1)
    } else {
        (tier_from(tiers, at.0 + 1), 0)
    }
}

/// How many trackers stand in the first tiers.
pub open spec fn trackers_before(tiers: Seq<Seq<Seq<char>>>, tier: int) -> int
    decreases tier,
{
    if tier <= 0 {
        0
    } else {
        trackers_before(tiers, tier - 1) + tiers[tier - 1].len()
    }
}

proof fn lemma_tier_from(tiers: Seq<Seq<Seq<char>>>, tier: int)
    requires
        0 <= tier <= tiers.len(),
    ensures
        tier <= tier_from(tiers, tier) <= tiers.len(),
        tier_from(tiers, tier) < tiers.len() ==> tiers[tier_from(tiers, tier)].len() > 0,
        trackers_before(tiers, tier_from(tiers, tier)) == trackers_before(tiers, tier),
    decreases tiers.len() - tier,
{
    if tier < tiers.len() && tiers[tier].len() == 0 {
        lemma_tier_from(tiers, tier + 1);
    }
}

/// As long as there are not enough peers, the trackers are asked one after the other,
/// tier by tier, and none is left out.
pub proof fn law_trackers_in_order(tiers: Seq<Seq<Seq<char>>>, at: (int, int))
    requires
        0 <= at.0 < tiers.len(),
        0 <= at.1 < tiers[at.0].len(),
    ensures
        ({
            let first = (tier_from(tiers, 0), 0int);
            let after = next_position(tiers, at, false);
            &&& trackers_before(tiers, first.0) + first.1 == 0
            &&& trackers_before(tiers, after.0) + after.1 == trackers_before(tiers, at.0) + at.1 + 1
            &&& after.0 < tiers.len() ==> after.1 < tiers[after.0].len()
            &&& after.0 <= tiers.len()
        }),
{
    lemma_tier_from(tiers, 0);
    lemma_tier_from(tiers, at.0 + 1);
}

/// Even when there are enough peers, each tier with a tracker is asked: the search goes
/// on with the first tracker of the next such tier.
pub proof fn law_no_tier_skipped(tiers: Seq<Seq<Seq<char>>>, at: (int, int), enough: bool, tier: int)
    requires
        0 <= at.0 < tier < tiers.len(),
        tiers[tier].len() > 0,
    ensures
        next_position(tiers, at, enough).0 <= tier,
{
    lemma_tier_from_first(tiers, at.0 + 1, tier);
}

/// When there are enough peers, the rest of a tier is left out: the next tracker is the
/// first of a later tier.
pub proof fn law_rest_of_tier_skipped(tiers: Seq<Seq<Seq<char>>>, at: (int, int))
    requires
        0 <= at.0 < tiers.len(),
    ensures
        ({
            let after = next_position(tiers, at, true);
            &&& at.0 < after.0 <= tiers.len()
            &&& after.1 == 0
            &&& after.0 < tiers.len() ==> tiers[after.0].len() > 0
        }),
{
    lemma_tier_from(tiers, at.0 + 1);
}

/// The numbers of the search and of the tracker protocols.
pub proof fn law_tracker_numbers()
    ensures
        MAX_PEERS == 100,
        MAX_HTTP_RESPONSE_SIZE == 1024 * 1024,
        UDP_TRACKER_TIMEOUT_SECS == 5,
        UDP_TRACKER_DEFAULT_PORT == 6969,
{
}

proof fn lemma_tier_from_first(tiers: Seq<Seq<Seq<char>>>, from: int, tier: int)
    requires
        0 <= from <= tier < tiers.len(),
        tiers[tier].len() > 0,
    ensures
        tier_from(tiers, from) <= tier,
    decreases tier - from,
{
    if tiers[from].len() == 0 {
        lemma_tier_from_first(tiers, from + 1, tier);
    }
}

/// A search for peers among the trackers of some tiers.
pub struct PeerSearch {
    tiers: Vec<Vec<String>>,
    tier: usize,
    url: usize,
    found: Vec<Peer>,
}

impl PeerSearch {
    /// The tiers of trackers.
    pub closed spec fn trackers(self) -> Seq<Seq<Seq<char>>> {
        tier_texts(self.tiers@)
    }

    /// The position of the tracker to ask next: tier, and place in the tier.
    pub closed spec fn position(self) -> (int, int) {
        (self.tier as int, self.url as int)
    }

    /// The peers found so far.
    pub closed spec fn peers(self) -> Seq<Peer> {
        self.found@
    }

    /// Whether the position is that of a tracker, or behind them all, and the peers
    /// are distinct.
    pub open spec fn valid(self) -> bool {
        let (tier, url) = self.position();
        &&& 0 <= tier <= self.trackers().len()
        &&& 0 <= url
        &&& tier < self.trackers().len() ==> url < self.trackers()[tier].len()
        &&& distinct_peers(self.peers())
    }

    /// The tracker to ask next, unless all have been asked.
    pub fn next_tracker(&self) -> (r: Option<&str>)
        requires
            self.valid(),
        ensures
            ({
                let (tier, url) = self.position();
                match r {
                    Some(text) => tier < self.trackers().len() && text@
                        == self.trackers()[tier][url],
                    None => tier == self.trackers().len(),
                }
            }),
    {
        if self.tier < self.tiers.len() {
            assert(self.trackers()[self.tier as int].len() == self.tiers@[self.tier as int]@.len());
            Some(self.tiers[self.tier][self.url].as_str())
        } else {
            None
        }
    }

    /// Takes in what came of asking a tracker: the peers it named, or none if it could
    /// not be asked.
    pub fn receive(&mut self, peers: &[Peer])
        requires
            old(self).valid(),
            old(self).position().0 < old(self).trackers().len(),
        ensures
            final(self).valid(),
            final(self).trackers() == old(self).trackers(),
            final(self).peers() == merged(old(self).peers(), peers@),
            final(self).position() == next_position(
                old(self).trackers(),
                old(self).position(),
                final(self).peers().len() >= MAX_PEERS,
            ),
    {
        self.merge(peers);
        let count: usize = self.tiers.len();
        assert(self.tier < count);
        let ghost before = *self;
        let ghost all = self.trackers();
        assert(all[self.tier as int].len() == self.tiers@[self.tier as int]@.len());
        if self.found.len() < MAX_PEERS && self.url < self.tiers[self.tier].len() - 1 {
            self.url = self.url + 1;
        } else {
            self.tier = first_tier(&self.tiers, self.tier + 1);
            self.url = 0;
            proof {
                lemma_tier_from(all, before.tier + 1);
            }
        }
    }

    /// Appends the peers that are not known yet, as far as they are accepted.
    fn merge(&mut self, peers: &[Peer])
        requires
            distinct_peers(old(self).peers()),
        ensures
            final(self).peers() == merged(old(self).peers(), peers@),
            distinct_peers(final(self).peers()),
            final(self).tiers == old(self).tiers,
            final(self).position() == old(self).position(),
    {
        let mut i: usize = 0;
        while i < peers.len()
            invariant
                i <= peers@.len(),
                distinct_peers(old(self).peers()),
                self.found@ == merged(old(self).peers(), peers@.take(i as int)),
                self.tiers == old(self).tiers,
                self.position() == old(self).position(),
            decreases peers@.len() - i,
        {
            assert(peers@.take(i + 1).drop_last() =~= peers@.take(i as int));
            if self.found.len() < MAX_PEERS && !is_known(&self.found, peers[i]) {
                self.found.push(peers[i]);
            }
            i += 1;
        }
        assert(peers@.take(i as int) =~= peers@);
        proof {
            law_merged(old(self).peers(), peers@);
        }
    }

    /// The peers that were found, numbered from zero. There must be at least one.
    pub fn finish(self) -> (r: Result<Vec<Peer>, Error>)
        ensures
            match r {
                Ok(peers) => self.peers().len() > 0 && peers@ == numbered(self.peers()),
                Err(e) => self.peers().len() == 0 && e == Error::NoPeers,
            },
    {
        if self.found.len() == 0 {
            return Err(Error::NoPeers);
        }
        let mut peers: Vec<Peer> = Vec::new();
        let mut i: usize = 0;
        while i < self.found.len()
            invariant
                i <= self.found@.len(),
                peers@ == numbered(self.found@).take(i as int),
            decreases self.found@.len() - i,
        {
            let mut peer = self.found[i];
            peer.id = i as u32;
            assert(peer == numbered(self.found@)[i as int]);
            peers.push(peer);
            i += 1;
            assert(peers@ =~= numbered(self.found@).take(i as int));
        }
        assert(numbered(self.found@).take(i as int) =~= numbered(self.found@));
        Ok(peers)
    }
}

/// Whether a peer with the address and port of `peer` is among `peers`.
fn is_known(peers: &Vec<Peer>, peer: Peer) -> (r: bool)
    ensures
        r == known(peers@, peer),
{
    let mut i: usize = 0;
    while i < peers.len()
        invariant
            i <= peers@.len(),
            forall|j: int| 0 <= j < i ==> !same_endpoint(#[trigger] peers@[j], peer),
        decreases peers@.len() - i,
    {
        if peers[i].ip == peer.ip && peers[i].port == peer.port {
            assert(same_endpoint(peers@[i as int], peer));
            return true;
        }
        i += 1;
    }
    false
}

/// The index of the first tier from `tier` on that has a tracker.
fn first_tier(tiers: &Vec<Vec<String>>, tier: usize) -> (r: usize)
    requires
        tier <= tiers@.len(),
    ensures
        r == tier_from(tier_texts(tiers@), tier as int),
{
    let mut r: usize = tier;
    while r < tiers.len() && tiers[r].len() == 0
        invariant
            tier <= r <= tiers@.len(),
            tier_from(tier_texts(tiers@), tier as int) == tier_from(tier_texts(tiers@), r as int),
        decreases tiers@.len() - r,
    {
        assert(tier_texts(tiers@)[r as int].len() == tiers@[r as int]@.len());
        r += 1;
    }
    assert(r < tiers@.len() ==> tier_texts(tiers@)[r as int].len() == tiers@[r as int]@.len());
    r
}

/// Begins to request peers from all trackers: the tiers are asked in turn.
pub fn request_peers(tiers: Vec<Vec<String>>) -> (r: PeerSearch)
    ensures
        r.valid(),
        r.trackers() == tier_texts(tiers@),
        r.position() == (tier_from(tier_texts(tiers@), 0), 0int),
        r.peers() == Seq::<Peer>::empty(),
{
    let tier: usize = first_tier(&tiers, 0);
    proof {
        lemma_tier_from(tier_texts(tiers@), 0);
    }
    PeerSearch { tiers, tier, url: 0, found: Vec::new() }
}

} // verus!
