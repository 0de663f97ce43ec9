//! Magnet links, and fetching metadata from peers.
//!
//! ```text
//! magnet:?xt=urn:btih:<info_hash>&dn=<name>&tr=<tracker_url>
//! ```

use crate::bytes::copy_range;
use crate::client::{fresh_client, Client, ClientView};
use crate::error::Error;
use crate::peer::Peer;
use crate::text::{
    begins_with, chars_of, law_begins_with, same_text, starts_with, string_of, texts, tier_texts,
};
use crate::torrent::SHA1_HASH_SIZE;
use crate::uri::{
    hex_bytes, hex_decode, hex_value, is_hex, pair_texts, parse_url, url_parses, url_query_pairs, url_scheme,
    UrlParts,
};
use vstd::prelude::*;

verus! {

/// Parsed magnet link parameters.
pub struct MagnetInfo {
    /// 20-byte SHA-1 hash of the bencoded info dictionary
    pub info_hash: Vec<u8>,
    /// Suggested filename from magnet link
    pub name: String,
    /// Tracker tiers for peer discovery
    pub tiers: Vec<Vec<String>>,
}

/// Whether a parameter gives the info hash.
pub open spec fn is_hash_param(param: (Seq<char>, Seq<char>)) -> bool {
    param.0 == "xt"@ && begins_with(param.1, "urn:btih:"@)
}

/// The hexadecimal digits of an info hash parameter.
pub open spec fn hash_digits(param: (Seq<char>, Seq<char>)) -> Seq<char> {
    param.1.skip(9)
}

/// The info hash stands in a parameter `xt`, behind `urn:btih:`.
pub proof fn law_hash_param(name: Seq<char>, value: Seq<char>, digits: Seq<char>)
    ensures
        is_hash_param(("xt"@, "urn:btih:"@ + digits)),
        hash_digits(("xt"@, "urn:btih:"@ + digits)) == digits,
        is_hash_param((name, value)) ==> name == "xt"@ && value == "urn:btih:"@ + hash_digits(
            (name, value),
        ),
{
    reveal_strlit("urn:btih:");
    law_begins_with(value, "urn:btih:"@, digits);
    assert(("urn:btih:"@ + digits).skip(9) =~= digits);
}

/// Whether all info hash parameters are hexadecimal.
pub open spec fn hashes_valid(params: Seq<(Seq<char>, Seq<char>)>) -> bool {
    forall|i: int|
        0 <= i < params.len() && is_hash_param(#[trigger] params[i]) ==> is_hex(
            hash_digits(params[i]),
        )
}

/// The info hash that the last such parameter gives; empty without any.
pub open spec fn magnet_hash(params: Seq<(Seq<char>, Seq<char>)>) -> Seq<u8>
    decreases params.len(),
{
    if params.len() == 0 {
        seq![]
    } else if is_hash_param(params.last()) {
        hex_bytes(hash_digits(params.last()))
    } else {
        magnet_hash(params.drop_last())
    }
}

/// The name that the last such parameter gives; empty without any.
pub open spec fn magnet_name(params: Seq<(Seq<char>, Seq<char>)>) -> Seq<char>
    decreases params.len(),
{
    if params.len() == 0 {
        seq![]
    } else if params.last().0 == "dn"@ {
        params.last().1
    } else {
        magnet_name(params.drop_last())
    }
}

/// The trackers that the parameters give, each in a tier of its own, in order.
pub open spec fn magnet_tiers(params: Seq<(Seq<char>, Seq<char>)>) -> Seq<Seq<Seq<char>>>
    decreases params.len(),
{
    if params.len() == 0 {
        seq![]
    } else if params.last().0 == "tr"@ {
        magnet_tiers(params.drop_last()).push(seq![params.last().1])
    } else {
        magnet_tiers(params.drop_last())
    }
}

/// Whether `r` is what a URL with this scheme and these parameters gives as a magnet
/// link.
pub open spec fn magnet_outcome(
    scheme: Seq<char>,
    params: Seq<(Seq<char>, Seq<char>)>,
    r: Result<MagnetInfo, Error>,
) -> bool {
    let is_magnet = scheme == "magnet"@;
    let valid = hashes_valid(params);
    let hash_len = magnet_hash(params).len();
    let has_tracker = magnet_tiers(params).len() > 0;
    match r {
        Ok(info) => {
            &&& is_magnet && valid && hash_len == SHA1_HASH_SIZE && has_tracker
            &&& info.info_hash@ == magnet_hash(params)
            &&& info.name@ == magnet_name(params)
            &&& tier_texts(info.tiers@) == magnet_tiers(params)
        },
        Err(e) => if !is_magnet {
            e == Error::NotMagnetLink
        } else if !valid {
            e == Error::InvalidInfoHash
        } else if hash_len == 0 {
            e == Error::MissingInfoHash
        } else if hash_len != SHA1_HASH_SIZE {
            e == Error::InvalidInfoHash
        } else {
            !has_tracker && e == Error::MissingTracker
        },
    }
}

/// The info hash is the one that the last such parameter gives, whatever stands before
/// and behind it.
pub proof fn law_magnet_hash(params: Seq<(Seq<char>, Seq<char>)>, k: int)
    requires
        0 <= k < params.len(),
        is_hash_param(params[k]),
        forall|i: int| k < i < params.len() ==> !is_hash_param(#[trigger] params[i]),
    ensures
        magnet_hash(params) == hex_bytes(hash_digits(params[k])),
        magnet_hash(params).len() == hash_digits(params[k]).len() / 2,
        forall|i: int|
            0 <= i < hash_digits(params[k]).len() / 2 ==> #[trigger] magnet_hash(params)[i] == (
            hex_value(hash_digits(params[k])[2 * i]) * 16 + hex_value(
                hash_digits(params[k])[2 * i + 1],
            )) as u8,
    decreases params.len(),
{
    if k < params.len() - 1 {
        assert(!is_hash_param(params[params.len() - 1]));
        law_magnet_hash(params.drop_last(), k);
    }
}

/// The name is the one that the last parameter `dn` gives, whatever stands before and
/// behind it; without any it is empty, and so is the info hash without a parameter for it.
pub proof fn law_magnet_name(params: Seq<(Seq<char>, Seq<char>)>, k: int)
    ensures
        0 <= k < params.len() && params[k].0 == "dn"@ && (forall|i: int|
            k < i < params.len() ==> (#[trigger] params[i]).0 != "dn"@) ==> magnet_name(params)
            == params[k].1,
        (forall|i: int| 0 <= i < params.len() ==> (#[trigger] params[i]).0 != "dn"@) ==> magnet_name(
            params,
        ).len() == 0,
        (forall|i: int| 0 <= i < params.len() ==> !is_hash_param(#[trigger] params[i]))
            ==> magnet_hash(params).len() == 0,
    decreases params.len(),
{
    if params.len() > 0 {
        let rest = params.drop_last();
        law_magnet_name(rest, k);
        assert(forall|i: int| 0 <= i < rest.len() ==> rest[i] == params[i]);
        assert(params.last() == params[params.len() - 1]);
        if 0 <= k < params.len() - 1 {
            assert(rest[k] == params[k]);
        }
    }
}

/// The trackers are the values of all parameters `tr`, in order, each in a tier of its own.
pub proof fn law_magnet_tiers(a: Seq<(Seq<char>, Seq<char>)>, b: Seq<(Seq<char>, Seq<char>)>)
    ensures
        magnet_tiers(a + b) == magnet_tiers(a) + magnet_tiers(b),
        b.len() == 1 && b[0].0 == "tr"@ ==> magnet_tiers(b) == seq![seq![b[0].1]],
        b.len() == 1 && b[0].0 != "tr"@ ==> magnet_tiers(b).len() == 0,
        b.len() == 0 ==> magnet_tiers(b).len() == 0,
    decreases b.len(),
{
    if b.len() == 0 {
        assert(a + b =~= a);
        assert(magnet_tiers(a) + magnet_tiers(b) =~= magnet_tiers(a));
    } else {
        law_magnet_tiers(a, b.drop_last());
        assert((a + b).drop_last() =~= a + b.drop_last());
        assert((a + b).last() == b.last());
        assert(magnet_tiers(a + b) =~= magnet_tiers(a) + magnet_tiers(b));
        if b.len() == 1 {
            assert(b.drop_last() =~= seq![]);
            assert(magnet_tiers(b.drop_last()) =~= seq![]);
            if b[0].0 == "tr"@ {
                assert(magnet_tiers(b) =~= seq![seq![b[0].1]]);
            }
        }
    }
}

/// A link with the scheme `magnet`, a last info hash of forty hexadecimal digits, no info
/// hash that is not hexadecimal, and a tracker is accepted, whatever other parameters it
/// has.
pub proof fn law_magnet_complete(
    params: Seq<(Seq<char>, Seq<char>)>,
    k: int,
    t: int,
    r: Result<MagnetInfo, Error>,
)
    requires
        magnet_outcome("magnet"@, params, r),
        0 <= k < params.len(),
        is_hash_param(params[k]),
        hash_digits(params[k]).len() == 40,
        forall|i: int| k < i < params.len() ==> !is_hash_param(#[trigger] params[i]),
        forall|i: int|
            0 <= i < params.len() && is_hash_param(#[trigger] params[i]) ==> is_hex(
                hash_digits(params[i]),
            ),
        0 <= t < params.len(),
        params[t].0 == "tr"@,
    ensures
        r matches Ok(info) && {
            &&& info.info_hash@ == magnet_hash(params)
            &&& info.name@ == magnet_name(params)
            &&& tier_texts(info.tiers@) == magnet_tiers(params)
        },
{
    law_magnet_hash(params, k);
    let before = params.take(t);
    let one = seq![params[t]];
    let behind = params.skip(t + 1);
    assert(params =~= before + (one + behind));
    law_magnet_tiers(before, one + behind);
    law_magnet_tiers(one, behind);
    law_magnet_tiers(before, one);
}

/// Every other link is refused: for its scheme, for an info hash that is not hexadecimal
/// or does not have twenty bytes, for want of one, or for want of a tracker, in this order.
pub proof fn law_magnet_refused(
    scheme: Seq<char>,
    params: Seq<(Seq<char>, Seq<char>)>,
    r: Result<MagnetInfo, Error>,
    k: int,
)
    requires
        magnet_outcome(scheme, params, r),
    ensures
        scheme != "magnet"@ ==> r == Err::<MagnetInfo, Error>(Error::NotMagnetLink),
        scheme == "magnet"@ && 0 <= k < params.len() && is_hash_param(params[k]) && !is_hex(
            hash_digits(params[k]),
        ) ==> r == Err::<MagnetInfo, Error>(Error::InvalidInfoHash),
        scheme == "magnet"@ && (forall|i: int|
            0 <= i < params.len() ==> !is_hash_param(#[trigger] params[i])) ==> r == Err::<
            MagnetInfo,
            Error,
        >(Error::MissingInfoHash),
        r matches Ok(info) ==> info.info_hash@.len() == 20 && exists|i: int|
            0 <= i < params.len() && (#[trigger] params[i]).0 == "tr"@,
{
    law_magnet_name(params, k);
    if r is Ok {
        lemma_has_tracker(params);
    }
}

/// A link whose last info hash is empty counts as one without; a hash of another length
/// than forty digits is invalid; and a link with a valid hash but no parameter `tr` is
/// refused for want of a tracker.
pub proof fn law_magnet_hash_length(
    params: Seq<(Seq<char>, Seq<char>)>,
    k: int,
    r: Result<MagnetInfo, Error>,
)
    requires
        magnet_outcome("magnet"@, params, r),
        0 <= k < params.len(),
        is_hash_param(params[k]),
        forall|i: int| k < i < params.len() ==> !is_hash_param(#[trigger] params[i]),
        forall|i: int|
            0 <= i < params.len() && is_hash_param(#[trigger] params[i]) ==> is_hex(
                hash_digits(params[i]),
            ),
    ensures
        hash_digits(params[k]).len() == 0 ==> r == Err::<MagnetInfo, Error>(Error::MissingInfoHash),
        hash_digits(params[k]).len() != 0 && hash_digits(params[k]).len() != 40 ==> r == Err::<
            MagnetInfo,
            Error,
        >(Error::InvalidInfoHash),
        hash_digits(params[k]).len() == 40 && (forall|i: int|
            0 <= i < params.len() ==> (#[trigger] params[i]).0 != "tr"@) ==> r == Err::<
            MagnetInfo,
            Error,
        >(Error::MissingTracker),
{
    law_magnet_hash(params, k);
    assert(is_hex(hash_digits(params[k])));
    if magnet_tiers(params).len() > 0 {
        lemma_has_tracker(params);
    }
}

proof fn lemma_has_tracker(params: Seq<(Seq<char>, Seq<char>)>)
    requires
        magnet_tiers(params).len() > 0,
    ensures
        exists|i: int| 0 <= i < params.len() && (#[trigger] params[i]).0 == "tr"@,
    decreases params.len(),
{
    if params.last().0 == "tr"@ {
        assert(params[params.len() - 1].0 == "tr"@);
    } else {
        lemma_has_tracker(params.drop_last());
        let i = choose|i: int|
            0 <= i < params.drop_last().len() && (#[trigger] params.drop_last()[i]).0 == "tr"@;
        assert(params[i].0 == "tr"@);
    }
}

proof fn lemma_magnet_tiers(params: Seq<(Seq<char>, Seq<char>)>)
    ensures
        forall|i: int|
            0 <= i < magnet_tiers(params).len() ==> #[trigger] magnet_tiers(params)[i].len() == 1,
    decreases params.len(),
{
    if params.len() > 0 {
        let before = magnet_tiers(params.drop_last());
        let tiers = magnet_tiers(params);
        lemma_magnet_tiers(params.drop_last());
        assert forall|i: int| 0 <= i < tiers.len() implies #[trigger] tiers[i].len() == 1 by {
            if i < before.len() {
                assert(tiers[i] == before[i]);
                assert(before[i].len() == 1);
            }
        }
    }
}

/// A magnet link that is accepted gives a 20-byte info hash and at least one tracker,
/// and has each tracker in a tier of its own.
pub proof fn law_magnet_accepted(
    scheme: Seq<char>,
    params: Seq<(Seq<char>, Seq<char>)>,
    info: MagnetInfo,
)
    requires
        magnet_outcome(scheme, params, Ok(info)),
    ensures
        info.info_hash@.len() == 20,
        info.tiers@.len() >= 1,
        forall|i: int| 0 <= i < info.tiers@.len() ==> (#[trigger] info.tiers@[i])@.len() == 1,
{
    lemma_magnet_tiers(params);
    let tiers = tier_texts(info.tiers@);
    assert(tiers.len() == info.tiers@.len());
    assert forall|i: int| 0 <= i < info.tiers@.len() implies (#[trigger] info.tiers@[i])@.len()
        == 1 by {
        assert(tiers[i] == magnet_tiers(params)[i]);
        assert(tiers[i].len() == info.tiers@[i]@.len());
    }
}

/// Parses a magnet URI: extracts the info hash, the display name and the tracker URLs.
pub fn parse_magnet(uri: &str) -> (r: Result<MagnetInfo, Error>)
    ensures
        if url_parses(uri@) {
            magnet_outcome(url_scheme(uri@), url_query_pairs(uri@), r)
        } else {
            r == Err::<MagnetInfo, Error>(Error::InvalidMagnetLink)
        },
{
    match parse_url(uri) {
        Ok(url) => magnet_from_url(&url),
        Err(_) => Err(Error::InvalidMagnetLink),
    }
}

/// Reads the parts of a URL as a magnet link.
pub fn magnet_from_url(url: &UrlParts) -> (r: Result<MagnetInfo, Error>)
    ensures
        magnet_outcome(url.scheme@, pair_texts(url.query@), r),
{
    if !same_text(url.scheme.as_str(), "magnet") {
        return Err(Error::NotMagnetLink);
    }
    let ghost params = pair_texts(url.query@);
    let mut info_hash: Vec<u8> = Vec::new();
    let mut name: String = String::new();
    let mut tiers: Vec<Vec<String>> = Vec::new();
    proof {
        reveal_strlit("xt");
        reveal_strlit("dn");
        reveal_strlit("tr");
        reveal_strlit("urn:btih:");
        assert("xt"@[0] == 'x' && "dn"@[0] == 'd' && "tr"@[0] == 't');
    }
    let mut i: usize = 0;
    while i < url.query.len()
        invariant
            i <= url.query@.len(),
            params == pair_texts(url.query@),
            url.scheme@ == "magnet"@,
            "urn:btih:"@.len() == 9,
            "xt"@ != "dn"@,
            "xt"@ != "tr"@,
            "dn"@ != "tr"@,
            hashes_valid(params.take(i as int)),
            info_hash@ == magnet_hash(params.take(i as int)),
            name@ == magnet_name(params.take(i as int)),
            tier_texts(tiers@) == magnet_tiers(params.take(i as int)),
        decreases url.query@.len() - i,
    {
        let key = url.query[i].0.as_str();
        let value = url.query[i].1.as_str();
        let ghost param = params[i as int];
        assert(param == (key@, value@));
        let ghost before = params.take(i as int);
        let ghost seen = params.take(i + 1);
        assert(seen.drop_last() =~= before);
        assert(seen.last() == param);
        if same_text(key, "xt") && starts_with(value, "urn:btih:") {
            let chars = chars_of(value);
            let digits = string_of(&chars, 9, chars.len());
            assert(digits@ =~= hash_digits(param));
            match hex_decode(digits.as_str()) {
                Ok(bytes) => {
                    info_hash = bytes;
                },
                Err(_) => {
                    assert(is_hash_param(params[i as int]));
                    return Err(Error::InvalidInfoHash);
                },
            }
        } else if same_text(key, "dn") {
            name = value.to_owned();
        } else if same_text(key, "tr") {
            let ghost tiers_before = tiers@;
            let mut tier: Vec<String> = Vec::new();
            tier.push(value.to_owned());
            tiers.push(tier);
            assert(texts(tier@) =~= seq![param.1]);
            assert(tier_texts(tiers@) =~= tier_texts(tiers_before).push(seq![param.1]));
        }
        assert(hashes_valid(seen)) by {
            assert forall|j: int|
                0 <= j < seen.len() && is_hash_param(#[trigger] seen[j]) implies is_hex(
                hash_digits(seen[j]),
            ) by {
                if j < i {
                    assert(seen[j] == before[j]);
                }
            }
        }
        i += 1;
    }
    assert(params.take(i as int) =~= params);
    assert(tier_texts(tiers@).len() == tiers@.len());
    if info_hash.len() == 0 {
        return Err(Error::MissingInfoHash);
    }
    if info_hash.len() != SHA1_HASH_SIZE {
        return Err(Error::InvalidInfoHash);
    }
    if tiers.len() == 0 {
        return Err(Error::MissingTracker);
    }
    Ok(MagnetInfo { info_hash, name, tiers })
}

/// Maximum number of peers to fetch metadata from at the same time.
pub const MAX_METADATA_PEERS: usize = 20;

/// Metadata is fetched from twenty peers at most.
pub proof fn law_fetch_numbers()
    ensures
        MAX_METADATA_PEERS == 20,
{
}

/// A step of fetching metadata from a peer.
#[derive(Clone, Copy, Debug, PartialEq, Eq, Structural)]
pub enum FetchStep {
    /// Nothing has been done yet.
    Begin,
    /// Connect to the peer.
    Connect,
    /// Shake hands with the peer.
    Handshake,
    /// Send the extension handshake.
    SendExtensionHandshake,
    /// Read the peer's extension handshake.
    ReadExtensionHandshake,
    /// Download the metadata.
    DownloadMetadata,
    /// Hand over the metadata and tell the other peers' fetches that they are done.
    Publish,
    /// Give up on this peer.
    Stop,
}

/// The step that follows `step`, given whether that one went well and whether
/// metadata from another peer is there already.
pub open spec fn next_fetch(
    client: ClientView,
    step: FetchStep,
    succeeded: bool,
    done: bool,
) -> FetchStep {
    match step {
        FetchStep::Begin if !done => FetchStep::Connect,
        FetchStep::Connect if succeeded && !done => FetchStep::Handshake,
        FetchStep::Handshake if succeeded && client.supports_extensions && !done =>
            FetchStep::SendExtensionHandshake,
        FetchStep::SendExtensionHandshake if succeeded && !done =>
            FetchStep::ReadExtensionHandshake,
        FetchStep::ReadExtensionHandshake if succeeded && client.peer_ut_metadata_id != 0 && !done =>
            FetchStep::DownloadMetadata,
        FetchStep::DownloadMetadata if succeeded => FetchStep::Publish,
        _ => FetchStep::Stop,
    }
}

/// Once metadata is there, no other peer is contacted any more: a fetch either hands
/// over what it has just downloaded, or stops.
pub proof fn law_done_stops(client: ClientView, step: FetchStep, succeeded: bool)
    ensures
        next_fetch(client, step, succeeded, true) == if step == FetchStep::DownloadMetadata
            && succeeded {
            FetchStep::Publish
        } else {
            FetchStep::Stop
        },
{
}

/// A fetch goes on from step to step as long as all goes well and no metadata is there: it
/// connects, shakes hands, exchanges extension handshakes with any peer that supports
/// extensions, and asks any peer for metadata that gave some ID for it, whichever it is.
/// What was downloaded is handed over.
pub proof fn law_fetch_progress(client: ClientView, done: bool)
    ensures
        next_fetch(client, FetchStep::Begin, true, false) == FetchStep::Connect,
        next_fetch(client, FetchStep::Connect, true, false) == FetchStep::Handshake,
        client.supports_extensions ==> next_fetch(client, FetchStep::Handshake, true, false)
            == FetchStep::SendExtensionHandshake,
        next_fetch(client, FetchStep::SendExtensionHandshake, true, false)
            == FetchStep::ReadExtensionHandshake,
        1 <= client.peer_ut_metadata_id <= 255 ==> next_fetch(
            client,
            FetchStep::ReadExtensionHandshake,
            true,
            false,
        ) == FetchStep::DownloadMetadata,
        next_fetch(client, FetchStep::DownloadMetadata, true, done) == FetchStep::Publish,
{
}

/// A fetch stops where a step fails, where the peer lacks what the next step needs, and
/// after it has handed over what it has.
pub proof fn law_fetch_stops(client: ClientView, step: FetchStep, succeeded: bool, done: bool)
    ensures
        !succeeded && step != FetchStep::Begin ==> next_fetch(client, step, succeeded, done)
            == FetchStep::Stop,
        step == FetchStep::Handshake && !client.supports_extensions ==> next_fetch(
            client,
            step,
            succeeded,
            done,
        ) == FetchStep::Stop,
        step == FetchStep::ReadExtensionHandshake && client.peer_ut_metadata_id == 0
            ==> next_fetch(client, step, succeeded, done) == FetchStep::Stop,
        step == FetchStep::Publish || step == FetchStep::Stop ==> next_fetch(
            client,
            step,
            succeeded,
            done,
        ) == FetchStep::Stop,
{
}

/// Metadata is requested only from a peer that supports the extension for it.
pub proof fn law_download_supported(
    client: ClientView,
    step: FetchStep,
    succeeded: bool,
    done: bool,
)
    requires
        next_fetch(client, step, succeeded, done) == FetchStep::DownloadMetadata,
    ensures
        step == FetchStep::ReadExtensionHandshake,
        client.peer_ut_metadata_id != 0,
{
}

/// The clients through which to fetch metadata at the same time: one for each of the
/// first twenty peers.
pub fn fetch_metadata_from_peers(peers: &[Peer], peer_id: &[u8], info_hash: &[u8]) -> (r: Vec<
    Client,
>)
    ensures
        r@.len() == if peers@.len() < MAX_METADATA_PEERS {
            peers@.len()
        } else {
            MAX_METADATA_PEERS as nat
        },
        forall|i: int|
            0 <= i < r@.len() ==> (#[trigger] r@[i])@ == fresh_client(
                peers@[i],
                peer_id@,
                info_hash@,
            ),
{
    let mut clients: Vec<Client> = Vec::new();
    while clients.len() < peers.len() && clients.len() < MAX_METADATA_PEERS
        invariant
            clients@.len() <= peers@.len(),
            clients@.len() <= MAX_METADATA_PEERS,
            forall|i: int|
                0 <= i < clients@.len() ==> (#[trigger] clients@[i])@ == fresh_client(
                    peers@[i],
                    peer_id@,
                    info_hash@,
                ),
        decreases peers@.len() - clients@.len(),
    {
        let own_id = copy_range(peer_id, 0, peer_id.len());
        let hash = copy_range(info_hash, 0, info_hash.len());
        assert(own_id@ =~= peer_id@);
        assert(hash@ =~= info_hash@);
        clients.push(Client::new(peers[clients.len()], own_id, hash));
    }
    clients
}

/// Decides how a fetch of metadata from a peer goes on.
pub fn next_fetch_step(client: &Client, step: FetchStep, succeeded: bool, done: bool) -> (r:
    FetchStep)
    ensures
        r == next_fetch(client@, step, succeeded, done),
{
    match step {
        FetchStep::Begin if !done => FetchStep::Connect,
        FetchStep::Connect if succeeded && !done => FetchStep::Handshake,
        FetchStep::Handshake if succeeded && client.supports_extensions() && !done =>
            FetchStep::SendExtensionHandshake,
        FetchStep::SendExtensionHandshake if succeeded && !done =>
            FetchStep::ReadExtensionHandshake,
        FetchStep::ReadExtensionHandshake if succeeded && client.supports_ut_metadata() && !done =>
            FetchStep::DownloadMetadata,
        FetchStep::DownloadMetadata if succeeded => FetchStep::Publish,
        _ => FetchStep::Stop,
    }
}

} // verus!
