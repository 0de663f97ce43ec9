//! What can go wrong, and how it is reported.

use crate::text::{decimal, push_decimal};
use vstd::prelude::*;
use vstd::utf8::{encode_utf8, valid_utf8};

verus! {

/// The reasons for which an operation of this library fails.
#[derive(Debug, PartialEq, Eq)]
pub enum Error {
    HandshakeTooShort,
    InvalidHandshakeLength,
    InvalidHandshake,
    InvalidHaveMessage,
    InvalidPieceMessage,
    InvalidPieceIndex,
    InvalidBlockOffset,
    NoBitfield,
    /// No extension handshake came among this many messages.
    NoExtensionHandshake(u32),
    /// No metadata came among this many messages.
    NoMetadataReply(u32),
    NoMetadataExtension,
    MetadataHeaderNotFound,
    MetadataRejected,
    NoMetadata,
    /// The peer announces this many bytes of metadata.
    MetadataTooLarge(u32),
    WrongMetadataPiece,
    MetadataHashMismatch,
    PieceHashMismatch,
    InvalidPeerList,
    NoPeers,
    HttpReplyTooLarge,
    UnsupportedTrackerProtocol,
    InvalidTrackerUrl,
    InvalidUdpTrackerUrl,
    NoUdpTrackerHost,
    /// The tracker answered the connect request with this action.
    UdpConnectAction(u32),
    UdpTransactionMismatch,
    UdpReplyTooShort,
    /// The tracker answered the announce request with this action.
    UdpAnnounceAction(u32),
    /// The tracker's own words.
    UdpTrackerMessage(Vec<u8>),
    NeitherLengthNorFiles,
    InvalidPiecesHashes,
    NoAnnounce,
    InvalidMagnetLink,
    NotMagnetLink,
    InvalidInfoHash,
    MissingInfoHash,
    MissingTracker,
    FileBeyondData { offset: u64, length: u64, available: u64 },
}

/// What `String::from_utf8_lossy` makes of a byte string.
pub uninterp spec fn lossy_text(bytes: Seq<u8>) -> Seq<char>;

/// `String::from_utf8_lossy`: the bytes read as UTF-8, with replacement
/// characters in place of what is not. Valid UTF-8 comes back unchanged.
#[verifier::external_body]
fn from_utf8_lossy(bytes: &[u8]) -> (text: String)
    ensures
        text@ == lossy_text(bytes@),
        valid_utf8(bytes@) ==> encode_utf8(text@) == bytes@,
{
    String::from_utf8_lossy(bytes).into_owned()
}

/// `before`, then `n` in decimal notation, then `after`.
pub open spec fn counted(before: Seq<char>, n: nat, after: Seq<char>) -> Seq<char> {
    before + decimal(n) + after
}

/// `before`, then `n` in decimal notation, then `after`.
fn count(before: &str, n: u64, after: &str) -> (r: String)
    ensures
        r@ == counted(before@, n as nat, after@),
{
    let mut r: String = before.to_owned();
    push_decimal(&mut r, n);
    r.append(after);
    r
}

/// An error that comes with a number, or with a tracker's own words, is reported with them.
pub proof fn law_sentences(n: u32, words: Vec<u8>, offset: u64, length: u64, available: u64)
    ensures
        Error::NoExtensionHandshake(n).sentence() == "no extension handshake received after "@
            + decimal(n as nat) + " messages"@,
        Error::NoMetadataReply(n).sentence() == "no metadata response after "@ + decimal(n as nat)
            + " messages"@,
        Error::MetadataTooLarge(n).sentence() == "metadata too large ("@ + decimal(n as nat)
            + " bytes)"@,
        Error::UdpConnectAction(n).sentence() == "UDP tracker connect failed: action "@ + decimal(
            n as nat,
        ),
        Error::UdpAnnounceAction(n).sentence() == "UDP tracker announce failed: action "@ + decimal(
            n as nat,
        ),
        Error::UdpTrackerMessage(words).sentence() == "UDP tracker error: "@ + lossy_text(words@),
        (Error::FileBeyondData { offset, length, available }).sentence()
            == "file extends beyond downloaded data (offset "@ + decimal(offset as nat)
            + " + length "@ + decimal(length as nat) + " > "@ + decimal(available as nat) + ")"@,
{
    reveal_strlit("");
    let d = decimal(n as nat);
    assert("UDP tracker connect failed: action "@ + d + ""@
        =~= "UDP tracker connect failed: action "@ + d);
    assert("UDP tracker announce failed: action "@ + d + ""@
        =~= "UDP tracker announce failed: action "@ + d);
}

impl Error {
    /// The sentence that reports the error.
    pub open spec fn sentence(self) -> Seq<char> {
        match self {
            Error::HandshakeTooShort => "received incomplete handshake from peer"@,
            Error::InvalidHandshakeLength => "invalid handshake length received from peer"@,
            Error::InvalidHandshake => "invalid handshake received from peer"@,
            Error::InvalidHaveMessage => "received invalid MESSAGE_HAVE from peer"@,
            Error::InvalidPieceMessage => "received invalid MESSAGE_HAVE from peer"@,
            Error::InvalidPieceIndex => "received invalid piece from peer"@,
            Error::InvalidBlockOffset => "received invalid byte offset within piece from peer"@,
            Error::NoBitfield => "no bitfield received from peer"@,
            Error::NoExtensionHandshake(n) => counted(
                "no extension handshake received after "@,
                n as nat,
                " messages"@,
            ),
            Error::NoMetadataReply(n) => counted(
                "no metadata response after "@,
                n as nat,
                " messages"@,
            ),
            Error::NoMetadataExtension => "peer does not support ut_metadata"@,
            Error::MetadataHeaderNotFound =>
                "invalid metadata response: could not find dict end"@,
            Error::MetadataRejected => "metadata request rejected by peer"@,
            Error::NoMetadata => "peer has no metadata"@,
            Error::MetadataTooLarge(n) => counted("metadata too large ("@, n as nat, " bytes)"@),
            Error::WrongMetadataPiece => "received wrong metadata piece"@,
            Error::MetadataHashMismatch => "metadata info_hash mismatch"@,
            Error::PieceHashMismatch =>
                "could not verify integrity of piece downloaded from peer"@,
            Error::InvalidPeerList => "received invalid peers from tracker"@,
            Error::NoPeers => "no peers from any tracker"@,
            Error::HttpReplyTooLarge => "HTTP tracker response too large"@,
            Error::UnsupportedTrackerProtocol => "unsupported tracker protocol"@,
            Error::InvalidTrackerUrl => "could not parse tracker url"@,
            Error::InvalidUdpTrackerUrl => "could not parse UDP tracker url"@,
            Error::NoUdpTrackerHost => "invalid UDP tracker host"@,
            Error::UdpConnectAction(n) => counted(
                "UDP tracker connect failed: action "@,
                n as nat,
                ""@,
            ),
            Error::UdpTransactionMismatch => "UDP tracker transaction ID mismatch"@,
            Error::UdpReplyTooShort => "failed to fill whole buffer"@,
            Error::UdpAnnounceAction(n) => counted(
                "UDP tracker announce failed: action "@,
                n as nat,
                ""@,
            ),
            Error::UdpTrackerMessage(words) => "UDP tracker error: "@ + lossy_text(words@),
            Error::NeitherLengthNorFiles => "torrent has neither length nor files"@,
            Error::InvalidPiecesHashes => "torrent is invalid"@,
            Error::NoAnnounce => "torrent has no announce or announce-list"@,
            Error::InvalidMagnetLink => "invalid magnet link"@,
            Error::NotMagnetLink => "not a magnet link"@,
            Error::InvalidInfoHash => "invalid info_hash"@,
            Error::MissingInfoHash => "magnet link missing info_hash"@,
            Error::MissingTracker => "magnet link missing tracker"@,
            Error::FileBeyondData { offset, length, available } => counted(
                counted(
                    counted(
                        "file extends beyond downloaded data (offset "@,
                        offset as nat,
                        " + length "@,
                    ),
                    length as nat,
                    " > "@,
                ),
                available as nat,
                ")"@,
            ),
        }
    }

    /// The sentence that reports the error.
    pub fn message(&self) -> (r: String)
        ensures
            r@ == self.sentence(),
    {
        match self {
            Error::HandshakeTooShort => "received incomplete handshake from peer".to_owned(),
            Error::InvalidHandshakeLength =>
                "invalid handshake length received from peer".to_owned(),
            Error::InvalidHandshake => "invalid handshake received from peer".to_owned(),
            Error::InvalidHaveMessage => "received invalid MESSAGE_HAVE from peer".to_owned(),
            Error::InvalidPieceMessage => "received invalid MESSAGE_HAVE from peer".to_owned(),
            Error::InvalidPieceIndex => "received invalid piece from peer".to_owned(),
            Error::InvalidBlockOffset =>
                "received invalid byte offset within piece from peer".to_owned(),
            Error::NoBitfield => "no bitfield received from peer".to_owned(),
            Error::NoExtensionHandshake(n) => count(
                "no extension handshake received after ",
                *n as u64,
                " messages",
            ),
            Error::NoMetadataReply(n) => count(
                "no metadata response after ",
                *n as u64,
                " messages",
            ),
            Error::NoMetadataExtension => "peer does not support ut_metadata".to_owned(),
            Error::MetadataHeaderNotFound =>
                "invalid metadata response: could not find dict end".to_owned(),
            Error::MetadataRejected => "metadata request rejected by peer".to_owned(),
            Error::NoMetadata => "peer has no metadata".to_owned(),
            Error::MetadataTooLarge(n) => count("metadata too large (", *n as u64, " bytes)"),
            Error::WrongMetadataPiece => "received wrong metadata piece".to_owned(),
            Error::MetadataHashMismatch => "metadata info_hash mismatch".to_owned(),
            Error::PieceHashMismatch =>
                "could not verify integrity of piece downloaded from peer".to_owned(),
            Error::InvalidPeerList => "received invalid peers from tracker".to_owned(),
            Error::NoPeers => "no peers from any tracker".to_owned(),
            Error::HttpReplyTooLarge => "HTTP tracker response too large".to_owned(),
            Error::UnsupportedTrackerProtocol => "unsupported tracker protocol".to_owned(),
            Error::InvalidTrackerUrl => "could not parse tracker url".to_owned(),
            Error::InvalidUdpTrackerUrl => "could not parse UDP tracker url".to_owned(),
            Error::NoUdpTrackerHost => "invalid UDP tracker host".to_owned(),
            Error::UdpConnectAction(n) => count(
                "UDP tracker connect failed: action ",
                *n as u64,
                "",
            ),
            Error::UdpTransactionMismatch => "UDP tracker transaction ID mismatch".to_owned(),
            Error::UdpReplyTooShort => "failed to fill whole buffer".to_owned(),
            Error::UdpAnnounceAction(n) => count(
                "UDP tracker announce failed: action ",
                *n as u64,
                "",
            ),
            Error::UdpTrackerMessage(words) => {
                let mut r: String = "UDP tracker error: ".to_owned();
                r.append(from_utf8_lossy(words).as_str());
                r
            },
            Error::NeitherLengthNorFiles => "torrent has neither length nor files".to_owned(),
            Error::InvalidPiecesHashes => "torrent is invalid".to_owned(),
            Error::NoAnnounce => "torrent has no announce or announce-list".to_owned(),
            Error::InvalidMagnetLink => "invalid magnet link".to_owned(),
            Error::NotMagnetLink => "not a magnet link".to_owned(),
            Error::InvalidInfoHash => "invalid info_hash".to_owned(),
            Error::MissingInfoHash => "magnet link missing info_hash".to_owned(),
            Error::MissingTracker => "magnet link missing tracker".to_owned(),
            Error::FileBeyondData { offset, length, available } => {
                let r = count(
                    "file extends beyond downloaded data (offset ",
                    *offset,
                    " + length ",
                );
                let r = count(r.as_str(), *length, " > ");
                count(r.as_str(), *available, ")")
            },
        }
    }
}

} // verus!
