//! Torrents: what they hold, how they are opened, and how their pieces make up the
//! data.

use crate::bytes::{copy_range, overwrite, overwritten, same_bytes, zeros};
use crate::error::Error;
use crate::magnet::{
    hashes_valid, magnet_hash, magnet_name, magnet_outcome, magnet_tiers, parse_magnet, MagnetInfo,
};
use crate::peer::{listed_peers, parse_peers, Peer};
use crate::piece::{PieceResult, PieceWork};
use crate::random::{random_u8, shuffle};
use crate::text::{copy_strings, texts, tier_texts};
use crate::uri::{url_parses, url_query_pairs, url_scheme};
use crate::worker::{stems_from, Worker};
use vstd::prelude::*;
use vstd::set_lib::{lemma_int_range, lemma_len_subset, lemma_subset_equality, set_int_range};

verus! {

/// Port for incoming peer connections.
pub const PORT: u16 = 6881;

/// Size of a SHA-1 hash in bytes.
pub const SHA1_HASH_SIZE: usize = 20;

/// File entry for multi-file torrents.
#[derive(Clone, Debug)]
pub struct FileInfo {
    /// Size of this file in bytes
    pub length: u64,
    /// Path components for this file (e.g., ["dir", "subdir", "file.txt"])
    pub path: Vec<String>,
}

impl Default for FileInfo {
    fn default() -> (r: Self)
        ensures
            r.length == 0,
            r.path@ == Seq::<String>::empty(),
    {
        FileInfo { length: 0, path: Vec::new() }
    }
}

/// A file: its size and the components of its path.
#[verifier::ext_equal]
pub struct FileView {
    pub length: u64,
    pub path: Seq<Seq<char>>,
}

impl View for FileInfo {
    type V = FileView;

    open spec fn view(&self) -> FileView {
        FileView { length: self.length, path: texts(self.path@) }
    }
}

/// Single file entry in the info dictionary of a multi-file torrent.
pub struct BencodeFile {
    /// Size of this file in bytes
    pub length: u64,
    /// Path components for this file
    pub path: Vec<String>,
}

/// The info dictionary of a torrent.
pub struct BencodeInfo {
    /// Concatenation of all pieces' 20-byte SHA-1 hashes
    pub pieces: Vec<u8>,
    /// Size of each piece in bytes
    pub piece_length: u32,
    /// Size of the file in bytes (single-file mode)
    pub length: Option<u64>,
    /// Files list (multi-file mode)
    pub files: Option<Vec<BencodeFile>>,
    /// Suggested filename where to save the file
    pub name: String,
}

/// The content of a torrent file.
pub struct BencodeTorrent {
    /// URL of the tracker
    pub announce: String,
    /// List of tracker URLs
    pub announce_list: Vec<Vec<String>>,
    /// Information about the file
    pub info: BencodeInfo,
}

/// The total size of some files.
pub open spec fn files_length(files: Seq<BencodeFile>) -> nat
    decreases files.len(),
{
    if files.len() == 0 {
        0
    } else {
        files_length(files.drop_last()) + files.last().length as nat
    }
}

/// Files as a torrent holds them.
pub open spec fn file_views(files: Seq<BencodeFile>) -> Seq<FileView> {
    files.map_values(|f: BencodeFile| FileView { length: f.length, path: texts(f.path@) })
}

/// The views of some file entries.
pub open spec fn entry_views(files: Seq<FileInfo>) -> Seq<FileView> {
    files.map_values(|f: FileInfo| f@)
}

/// The views of some byte strings.
pub open spec fn byte_views(strings: Seq<Vec<u8>>) -> Seq<Seq<u8>> {
    strings.map_values(|s: Vec<u8>| s@)
}

/// The total size of some files is the sum of their sizes.
pub proof fn law_files_length(a: Seq<BencodeFile>, b: Seq<BencodeFile>)
    ensures
        files_length(a + b) == files_length(a) + files_length(b),
        b.len() == 1 ==> files_length(b) == b[0].length,
        b.len() == 0 ==> files_length(b) == 0,
    decreases b.len(),
{
    if b.len() == 0 {
        assert(a + b =~= a);
    } else {
        law_files_length(a, b.drop_last());
        assert((a + b).drop_last() =~= a + b.drop_last());
        assert((a + b).last() == b.last());
        if b.len() == 1 {
            assert(b.drop_last().len() == 0);
            assert(files_length(b.drop_last()) == 0);
        }
    }
}

/// What is said of files is their sizes and the texts of their path components, entry for
/// entry; what is said of byte strings is their bytes.
pub proof fn law_file_views(files: Seq<FileInfo>, strings: Seq<Vec<u8>>, i: int)
    ensures
        entry_views(files).len() == files.len(),
        0 <= i < files.len() ==> {
            &&& entry_views(files)[i].length == files[i].length
            &&& entry_views(files)[i].path.len() == files[i].path@.len()
            &&& forall|c: int|
                0 <= c < files[i].path@.len() ==> #[trigger] entry_views(files)[i].path[c]
                    == files[i].path@[c]@
        },
        byte_views(strings).len() == strings.len(),
        0 <= i < strings.len() ==> byte_views(strings)[i] == strings[i]@,
{
}

/// A byte string cut into parts of the size of a hash.
pub open spec fn hashes_of(pieces: Seq<u8>) -> Seq<Seq<u8>> {
    Seq::new(
        pieces.len() / SHA1_HASH_SIZE as nat,
        |i: int| pieces.subrange(i * SHA1_HASH_SIZE, (i + 1) * SHA1_HASH_SIZE),
    )
}

/// Byte strings put behind one another.
pub open spec fn concatenated(parts: Seq<Seq<u8>>) -> Seq<u8>
    decreases parts.len(),
{
    if parts.len() == 0 {
        seq![]
    } else {
        concatenated(parts.drop_last()) + parts.last()
    }
}

proof fn lemma_hashes_concatenated(pieces: Seq<u8>, n: nat)
    requires
        n * SHA1_HASH_SIZE <= pieces.len(),
    ensures
        concatenated(hashes_of(pieces).take(n as int)) == pieces.take(n * SHA1_HASH_SIZE),
    decreases n,
{
    let hashes = hashes_of(pieces);
    if n == 0 {
        assert(pieces.take(0) =~= seq![]);
    } else {
        lemma_hashes_concatenated(pieces, (n - 1) as nat);
        assert(hashes.take(n as int).drop_last() =~= hashes.take(n - 1));
        assert(pieces.take(n * SHA1_HASH_SIZE) =~= pieces.take((n - 1) * SHA1_HASH_SIZE)
            + pieces.subrange((n - 1) * SHA1_HASH_SIZE, n * SHA1_HASH_SIZE));
    }
}

/// The hashes of the pieces, put behind one another, are what they were cut from, and
/// each has the size of a hash.
pub proof fn law_hashes_partition(pieces: Seq<u8>)
    requires
        pieces.len() % 20 == 0,
    ensures
        concatenated(hashes_of(pieces)) == pieces,
        forall|i: int| 0 <= i < hashes_of(pieces).len() ==> #[trigger] hashes_of(pieces)[i].len() == 20,
{
    let n = pieces.len() / 20;
    lemma_hashes_concatenated(pieces, n);
    assert(hashes_of(pieces).take(n as int) =~= hashes_of(pieces));
    assert(pieces.take(n * SHA1_HASH_SIZE) =~= pieces);
}

impl BencodeInfo {
    /// Whether the total size of the files is too large to be written down.
    pub open spec fn overflows(self) -> bool {
        &&& self.length is None
        &&& self.files matches Some(files) && files_length(files@) > u64::MAX
    }

    /// The total size: that of the single file, or the sum over all files.
    pub open spec fn size(self) -> Option<nat> {
        match (self.length, self.files) {
            (Some(length), _) => Some(length as nat),
            (None, Some(files)) => Some(files_length(files@)),
            (None, None) => None,
        }
    }

    /// The files of a multi-file torrent; none for a single file.
    pub open spec fn file_entries(self) -> Seq<FileView> {
        match self.files {
            Some(files) => file_views(files@),
            None => seq![],
        }
    }

    /// Whether this info dictionary can be taken in.
    pub fn is_readable(&self) -> (r: bool)
        ensures
            r == info_readable(*self),
    {
        if self.pieces.len() % SHA1_HASH_SIZE != 0 || self.length.is_some() {
            return true;
        }
        match &self.files {
            Some(files) => sum_lengths(files).is_some(),
            None => true,
        }
    }

    /// Calculates total length from either single-file length or multi-file sum.
    pub fn total_length(&self) -> (r: Result<u64, Error>)
        requires
            !self.overflows(),
        ensures
            match r {
                Ok(length) => self.size() == Some(length as nat),
                Err(e) => self.size() is None && e == Error::NeitherLengthNorFiles,
            },
    {
        match self.length {
            Some(length) => Ok(length),
            None => match &self.files {
                Some(files) => match sum_lengths(files) {
                    Some(sum) => Ok(sum),
                    None => Ok(0),
                },
                None => Err(Error::NeitherLengthNorFiles),
            },
        }
    }

    /// Returns file list for multi-file torrents, empty for single-file.
    pub fn file_list(&self) -> (r: Vec<FileInfo>)
        ensures
            entry_views(r@) == self.file_entries(),
    {
        let mut list: Vec<FileInfo> = Vec::new();
        match &self.files {
            Some(files) => {
                let mut i: usize = 0;
                while i < files.len()
                    invariant
                        i <= files@.len(),
                        entry_views(list@) == file_views(files@).take(i as int),
                    decreases files@.len() - i,
                {
                    let ghost before = list@;
                    let entry = FileInfo {
                        length: files[i].length,
                        path: copy_strings(&files[i].path),
                    };
                    assert(entry@ == file_views(files@)[i as int]);
                    list.push(entry);
                    i += 1;
                    assert(entry_views(list@) =~= entry_views(before).push(entry@));
                    assert(entry_views(list@) =~= file_views(files@).take(i as int));
                }
                assert(file_views(files@).take(i as int) =~= file_views(files@));
            },
            None => {
                assert(entry_views(list@) =~= seq![]);
            },
        }
        list
    }

    /// Splits the concatenated hashes into the SHA-1 hashes of the pieces.
    pub fn split_pieces_hashes(&self) -> (r: Result<Vec<Vec<u8>>, Error>)
        ensures
            match r {
                Ok(hashes) => self.pieces@.len() % 20 == 0 && byte_views(hashes@) == hashes_of(
                    self.pieces@,
                ),
                Err(e) => self.pieces@.len() % 20 != 0 && e == Error::InvalidPiecesHashes,
            },
    {
        let len: usize = self.pieces.len();
        if len % SHA1_HASH_SIZE != 0 {
            return Err(Error::InvalidPiecesHashes);
        }
        let count: usize = len / SHA1_HASH_SIZE;
        let mut hashes: Vec<Vec<u8>> = Vec::new();
        let mut i: usize = 0;
        while i < count
            invariant
                i <= count,
                count * SHA1_HASH_SIZE == len == self.pieces@.len(),
                byte_views(hashes@) == hashes_of(self.pieces@).take(i as int),
            decreases count - i,
        {
            let ghost before = hashes@;
            let hash = copy_range(
                &self.pieces,
                i * SHA1_HASH_SIZE,
                i * SHA1_HASH_SIZE + SHA1_HASH_SIZE,
            );
            assert(hash@ == hashes_of(self.pieces@)[i as int]);
            hashes.push(hash);
            i += 1;
            assert(byte_views(hashes@) =~= byte_views(before).push(hash@));
            assert(byte_views(hashes@) =~= hashes_of(self.pieces@).take(i as int));
        }
        assert(hashes_of(self.pieces@).take(i as int) =~= hashes_of(self.pieces@));
        Ok(hashes)
    }
}

impl BencodeTorrent {
    /// Whether this torrent file can be taken in: without a tracker it is refused
    /// before its info dictionary is read.
    pub fn is_readable(&self) -> (r: bool)
        ensures
            r == (no_tracker(*self) || info_readable(self.info)),
    {
        (self.announce_list.len() == 0 && self.announce.as_str().unicode_len() == 0)
            || self.info.is_readable()
    }
}

/// The total size of some files, unless it is too large.
fn sum_lengths(files: &Vec<BencodeFile>) -> (r: Option<u64>)
    ensures
        match r {
            Some(sum) => sum == files_length(files@),
            None => files_length(files@) > u64::MAX,
        },
{
    let mut sum: u64 = 0;
    let mut i: usize = 0;
    while i < files.len()
        invariant
            i <= files@.len(),
            sum == files_length(files@.take(i as int)),
        decreases files@.len() - i,
    {
        proof {
            assert(files@.take(i + 1).drop_last() =~= files@.take(i as int));
            lemma_files_length_grows(files@, i + 1);
        }
        match sum.checked_add(files[i].length) {
            Some(next) => {
                sum = next;
            },
            None => {
                return None;
            },
        }
        i += 1;
    }
    assert(files@.take(i as int) =~= files@);
    Some(sum)
}

proof fn lemma_files_length_grows(files: Seq<BencodeFile>, n: int)
    requires
        0 <= n <= files.len(),
    ensures
        files_length(files.take(n)) <= files_length(files),
    decreases files.len() - n,
{
    if n < files.len() {
        assert(files.take(n + 1).drop_last() =~= files.take(n));
        lemma_files_length_grows(files, n + 1);
    } else {
        assert(files.take(n) =~= files);
    }
}

/// Represents a torrent: the metadata from the torrent file and the discovered peers.
#[derive(Clone)]
pub struct Torrent {
    tiers: Vec<Vec<String>>,
    info_hash: Vec<u8>,
    pieces_hashes: Vec<Vec<u8>>,
    piece_length: u32,
    length: u64,
    name: String,
    peer_id: Vec<u8>,
    peers: Vec<Peer>,
    files: Vec<FileInfo>,
}

/// A torrent, as a value.
#[verifier::ext_equal]
pub struct TorrentView {
    /// Tracker tiers for peer discovery (each tier is a list of URLs)
    pub tiers: Seq<Seq<Seq<char>>>,
    /// 20-byte SHA-1 hash of the bencoded info dictionary
    pub info_hash: Seq<u8>,
    /// 20-byte SHA-1 hashes, one for each piece
    pub pieces_hashes: Seq<Seq<u8>>,
    /// Size of each piece in bytes (except possibly the last)
    pub piece_length: u32,
    /// Total size of all files in bytes
    pub length: u64,
    /// Suggested filename from torrent metadata
    pub name: Seq<char>,
    /// 20-byte unique identifier for this client instance
    pub peer_id: Seq<u8>,
    /// List of discovered peers available for downloading
    pub peers: Seq<Peer>,
    /// File list for multi-file torrents (empty for single-file)
    pub files: Seq<FileView>,
}

impl View for Torrent {
    type V = TorrentView;

    closed spec fn view(&self) -> TorrentView {
        TorrentView {
            tiers: tier_texts(self.tiers@),
            info_hash: self.info_hash@,
            pieces_hashes: byte_views(self.pieces_hashes@),
            piece_length: self.piece_length,
            length: self.length,
            name: self.name@,
            peer_id: self.peer_id@,
            peers: self.peers@,
            files: entry_views(self.files@),
        }
    }
}

/// A torrent of which nothing is known.
pub open spec fn empty_torrent() -> TorrentView {
    TorrentView {
        tiers: seq![],
        info_hash: seq![],
        pieces_hashes: seq![],
        piece_length: 0,
        length: 0,
        name: seq![],
        peer_id: seq![],
        peers: seq![],
        files: seq![],
    }
}

/// The torrent with what its info dictionary says about pieces and files, as far as
/// that is valid.
pub open spec fn described(torrent: TorrentView, info: BencodeInfo) -> TorrentView {
    if info.pieces@.len() % 20 != 0 {
        torrent
    } else {
        let with_pieces = TorrentView {
            pieces_hashes: hashes_of(info.pieces@),
            piece_length: info.piece_length,
            ..torrent
        };
        match info.size() {
            Some(size) => TorrentView {
                length: size as u64,
                files: info.file_entries(),
                ..with_pieces
            },
            None => with_pieces,
        }
    }
}

/// A torrent with a valid info dictionary has the file sizes and paths of the dictionary,
/// entry for entry in the same order, its piece size, and the sum of its file sizes or the
/// size of its single file as the total size. Its hashes, put behind one another, are those
/// of the dictionary. Nothing else about the torrent changes.
pub proof fn law_described(torrent: TorrentView, info: BencodeInfo, i: int)
    requires
        info.pieces@.len() % 20 == 0,
        info.length is Some || info.files is Some,
        !info.overflows(),
    ensures
        ({
            let d = described(torrent, info);
            &&& concatenated(d.pieces_hashes) == info.pieces@
            &&& 20 * d.pieces_hashes.len() == info.pieces@.len()
            &&& 0 <= i < d.pieces_hashes.len() ==> d.pieces_hashes[i] == info.pieces@.subrange(
                20 * i,
                20 * i + 20,
            )
            &&& d.piece_length == info.piece_length
            &&& info.length matches Some(length) ==> d.length == length
            &&& info.length is None ==> (info.files matches Some(files) && d.length
                == files_length(files@))
            &&& info.files is None ==> d.files.len() == 0
            &&& info.files matches Some(files) ==> {
                &&& d.files.len() == files@.len()
                &&& 0 <= i < files@.len() ==> {
                    &&& d.files[i].length == files@[i].length
                    &&& d.files[i].path.len() == files@[i].path@.len()
                    &&& forall|c: int|
                        0 <= c < files@[i].path@.len() ==> #[trigger] d.files[i].path[c]
                            == files@[i].path@[c]@
                }
            }
            &&& d.tiers == torrent.tiers
            &&& d.info_hash == torrent.info_hash
            &&& d.name == torrent.name
            &&& d.peer_id == torrent.peer_id
            &&& d.peers == torrent.peers
        }),
{
    law_hashes_partition(info.pieces@);
    if 0 <= i < hashes_of(info.pieces@).len() {
        assert(hashes_of(info.pieces@)[i] == info.pieces@.subrange(20 * i, 20 * i + 20));
    }
}

/// From an invalid info dictionary a torrent takes no total size and no files, and without
/// valid hashes nothing at all.
pub proof fn law_described_invalid(torrent: TorrentView, info: BencodeInfo)
    ensures
        info.pieces@.len() % 20 != 0 ==> described(torrent, info) == torrent && info_error(info)
            == Some(Error::InvalidPiecesHashes),
        info.pieces@.len() % 20 == 0 && info.length is None && info.files is None ==> {
            &&& info_error(info) == Some(Error::NeitherLengthNorFiles)
            &&& concatenated(described(torrent, info).pieces_hashes) == info.pieces@
            &&& described(torrent, info) == (TorrentView {
                pieces_hashes: described(torrent, info).pieces_hashes,
                piece_length: info.piece_length,
                ..torrent
            })
        },
        info.pieces@.len() % 20 == 0 && (info.length is Some || info.files is Some)
            ==> info_error(info) is None,
{
    if info.pieces@.len() % 20 == 0 {
        law_hashes_partition(info.pieces@);
    }
}

/// An info dictionary can be taken in unless it has only files whose sizes add up to more
/// than can be written down.
pub proof fn law_info_readable(info: BencodeInfo)
    ensures
        info.length is Some ==> info_readable(info),
        info.files is None ==> info_readable(info),
        info.files matches Some(files) ==> (files_length(files@) <= u64::MAX ==> info_readable(
            info,
        )),
        info.pieces@.len() % 20 != 0 ==> info_readable(info),
        info.pieces@.len() % 20 == 0 && info.length is None ==> (info.files matches Some(files) ==> (
        files_length(files@) > u64::MAX ==> !info_readable(info))),
{
}

/// What is wrong with an info dictionary, if anything is.
pub open spec fn info_error(info: BencodeInfo) -> Option<Error> {
    if info.pieces@.len() % 20 != 0 {
        Some(Error::InvalidPiecesHashes)
    } else if info.size() is None {
        Some(Error::NeitherLengthNorFiles)
    } else {
        None
    }
}

/// Whether an info dictionary can be taken in: if its piece hashes are valid, the total
/// size must not overflow.
pub open spec fn info_readable(info: BencodeInfo) -> bool {
    info.pieces@.len() % 20 == 0 ==> !info.overflows()
}

/// Whether `tiers` are the tiers of `list`, each with its trackers in some order.
pub open spec fn reordered(tiers: Seq<Seq<Seq<char>>>, list: Seq<Seq<Seq<char>>>) -> bool {
    &&& tiers.len() == list.len()
    &&& forall|i: int|
        0 <= i < list.len() ==> (#[trigger] tiers[i]).to_multiset() == list[i].to_multiset()
}

/// Whether `tiers` are tracker tiers that a torrent file gives: its announce list in
/// some order within each tier, or without one its single tracker.
pub open spec fn announced_tiers(bencode: BencodeTorrent, tiers: Seq<Seq<Seq<char>>>) -> bool {
    if bencode.announce_list@.len() > 0 {
        reordered(tiers, tier_texts(bencode.announce_list@))
    } else {
        tiers == seq![seq![bencode.announce@]]
    }
}

/// Whether a torrent file names no tracker.
pub open spec fn no_tracker(bencode: BencodeTorrent) -> bool {
    bencode.announce_list@.len() == 0 && bencode.announce@.len() == 0
}

/// With an announce list, a torrent has as many tiers as the list, and each has the trackers
/// of that tier of the list, each as often. Without one it has the single tracker. It is
/// refused just when there is neither.
pub proof fn law_announced_tiers(
    bencode: BencodeTorrent,
    tiers: Seq<Seq<Seq<char>>>,
    i: int,
    url: Seq<char>,
)
    requires
        announced_tiers(bencode, tiers),
    ensures
        bencode.announce_list@.len() > 0 ==> {
            &&& tiers.len() == bencode.announce_list@.len()
            &&& 0 <= i < tiers.len() ==> tiers[i].to_multiset().count(url) == texts(
                bencode.announce_list@[i]@,
            ).to_multiset().count(url)
        },
        bencode.announce_list@.len() == 0 ==> tiers.len() == 1 && tiers[0].len() == 1 && tiers[0][0]
            == bencode.announce@,
        no_tracker(bencode) == (bencode.announce_list@.len() == 0 && bencode.announce@.len() == 0),
{
}

/// Of a new torrent nothing is known.
pub proof fn law_empty_torrent()
    ensures
        empty_torrent().tiers.len() == 0,
        empty_torrent().info_hash.len() == 0,
        empty_torrent().pieces_hashes.len() == 0,
        empty_torrent().piece_length == 0,
        empty_torrent().length == 0,
        empty_torrent().name.len() == 0,
        empty_torrent().peer_id.len() == 0,
        empty_torrent().peers.len() == 0,
        empty_torrent().files.len() == 0,
{
}

/// The position of a piece in the data.
pub open spec fn piece_begin(torrent: TorrentView, index: int) -> int {
    index * torrent.piece_length
}

/// The size of a piece: that of all pieces, but for the end of the data.
pub open spec fn piece_size(torrent: TorrentView, index: int) -> int {
    let begin = piece_begin(torrent, index);
    if begin + torrent.piece_length > torrent.length {
        torrent.length - begin
    } else {
        torrent.piece_length as int
    }
}

/// The number by which the piece at place `i` goes.
pub open spec fn piece_number(i: int) -> int {
    i % 0x1_0000_0000
}

/// Whether each piece begins within the data.
pub open spec fn pieces_within(torrent: TorrentView) -> bool {
    forall|i: int|
        0 <= i < torrent.pieces_hashes.len() ==> #[trigger] piece_begin(torrent, piece_number(i))
            <= torrent.length
}

/// Whether `work` is the work for the piece at place `i`, with nothing done yet.
pub open spec fn fresh_work(torrent: TorrentView, i: int, work: PieceWork) -> bool {
    &&& work.index == piece_number(i)
    &&& work.hash@ == torrent.pieces_hashes[i]
    &&& work.length == piece_size(torrent, piece_number(i))
    &&& work.data@ == Seq::new(work.length as nat, |k: int| 0u8)
    &&& work.requests == 0
    &&& work.requested == 0
    &&& work.downloaded == 0
}

/// Whether a result fits into the data: its data have the size it states, and its
/// place is within the data.
pub open spec fn result_fits(torrent: TorrentView, result: PieceResult, size: int) -> bool {
    &&& piece_begin(torrent, result.index as int) <= u32::MAX
    &&& result.data@.len() == result.length
    &&& piece_begin(torrent, result.index as int) + result.length <= size
}

/// The pieces stand one behind the other, each but the last of the torrent's piece size.
pub proof fn law_piece_place(torrent: TorrentView, index: int)
    requires
        0 <= index,
    ensures
        piece_begin(torrent, index) == index * torrent.piece_length,
        index * torrent.piece_length + torrent.piece_length <= torrent.length ==> piece_size(
            torrent,
            index,
        ) == torrent.piece_length,
        index * torrent.piece_length <= torrent.length < index * torrent.piece_length
            + torrent.piece_length ==> piece_size(torrent, index) == torrent.length - index
            * torrent.piece_length,
{
}

/// The work for a piece says which it is and what hash it is to have, has room for its
/// bytes, and counts nothing yet.
pub proof fn law_fresh_work(torrent: TorrentView, i: int, work: PieceWork)
    requires
        0 <= i < 0x1_0000_0000,
        fresh_work(torrent, i, work),
    ensures
        work.index == i,
        work.hash@ == torrent.pieces_hashes[i],
        work.length == piece_size(torrent, i),
        work.data@.len() == work.length,
        work.requests == 0,
        work.requested == 0,
        work.downloaded == 0,
{
}

/// A torrent that has no more pieces than its data need can be downloaded.
pub proof fn law_pieces_within(torrent: TorrentView)
    requires
        torrent.pieces_hashes.len() <= 0x1_0000_0000,
        torrent.pieces_hashes.len() > 0 ==> (torrent.pieces_hashes.len() - 1) * torrent.piece_length
            <= torrent.length,
    ensures
        pieces_within(torrent),
{
    let size = torrent.piece_length as int;
    let n = torrent.pieces_hashes.len() as int;
    assert forall|i: int| 0 <= i < n implies #[trigger] piece_begin(torrent, piece_number(i))
        <= torrent.length by {
        assert(i * size <= (n - 1) * size) by (nonlinear_arith)
            requires
                0 <= i <= n - 1,
                size >= 0,
        ;
    }
}

/// A result that fits has the data that its length says, and lies within data of the given
/// size at its index times the piece size.
pub proof fn law_result_placed(torrent: TorrentView, result: PieceResult, size: int)
    requires
        result_fits(torrent, result, size),
    ensures
        result.index * torrent.piece_length <= 0xffff_ffff,
        result.data@.len() == result.length,
        result.index * torrent.piece_length + result.length <= size,
{
}

/// A whole piece fits into the data of its torrent, as long as it begins below 4 GiB.
pub proof fn law_result_fits(torrent: TorrentView, result: PieceResult)
    requires
        result.index * torrent.piece_length <= 0xffff_ffff,
        result.index * torrent.piece_length <= torrent.length,
        result.data@.len() == result.length,
        result.length == piece_size(torrent, result.index as int),
    ensures
        result_fits(torrent, result, torrent.length as int),
{
}

/// Each piece ends where the next begins, and the last one ends where the data end.
pub proof fn law_pieces_tile(torrent: TorrentView, index: int)
    requires
        0 <= index,
        piece_begin(torrent, index) <= torrent.length,
    ensures
        piece_begin(torrent, 0) == 0,
        0 <= piece_size(torrent, index) <= torrent.piece_length,
        if piece_begin(torrent, index + 1) <= torrent.length {
            piece_begin(torrent, index) + piece_size(torrent, index) == piece_begin(
                torrent,
                index + 1,
            )
        } else {
            piece_begin(torrent, index) + piece_size(torrent, index) == torrent.length
        },
{
    assert((index + 1) * torrent.piece_length == index * torrent.piece_length
        + torrent.piece_length) by (nonlinear_arith);
}

/// The content of a piece of some data.
pub open spec fn piece_content(torrent: TorrentView, content: Seq<u8>, index: int) -> Seq<u8> {
    let begin = piece_begin(torrent, index);
    content.subrange(begin, begin + piece_size(torrent, index))
}

/// The data after pieces of `content` arrived in this order.
pub open spec fn filled(torrent: TorrentView, content: Seq<u8>, order: Seq<int>) -> Seq<u8>
    decreases order.len(),
{
    if order.len() == 0 {
        Seq::new(content.len(), |i: int| 0u8)
    } else {
        overwritten(
            filled(torrent, content, order.drop_last()),
            piece_begin(torrent, order.last()),
            piece_content(torrent, content, order.last()),
        )
    }
}

/// Each piece that arrives is written over the data at its place.
pub proof fn law_filled_extended(
    torrent: TorrentView,
    content: Seq<u8>,
    order: Seq<int>,
    index: int,
)
    ensures
        filled(torrent, content, order.push(index)) == overwritten(
            filled(torrent, content, order),
            piece_begin(torrent, index),
            piece_content(torrent, content, index),
        ),
{
    assert(order.push(index).drop_last() =~= order);
}

/// Whether position `k` of the data lies in one of these pieces.
spec fn covered(torrent: TorrentView, order: Seq<int>, k: int) -> bool {
    exists|j: int|
        0 <= j < order.len() && piece_begin(torrent, #[trigger] order[j]) <= k < piece_begin(
            torrent,
            order[j],
        ) + piece_size(torrent, order[j])
}

proof fn lemma_filled(torrent: TorrentView, content: Seq<u8>, order: Seq<int>)
    requires
        content.len() == torrent.length,
        forall|j: int|
            0 <= j < order.len() ==> 0 <= #[trigger] order[j] && piece_begin(torrent, order[j])
                <= torrent.length,
    ensures
        filled(torrent, content, order).len() == content.len(),
        forall|k: int|
            0 <= k < content.len() && covered(torrent, order, k) ==> #[trigger] filled(
                torrent,
                content,
                order,
            )[k] == content[k],
    decreases order.len(),
{
    if order.len() > 0 {
        let rest = order.drop_last();
        let index = order[order.len() - 1];
        lemma_filled(torrent, content, rest);
        law_pieces_tile(torrent, index);
        let begin = piece_begin(torrent, index);
        assert(0 <= begin) by (nonlinear_arith)
            requires
                begin == index * torrent.piece_length,
                0 <= index,
        ;
        let data = filled(torrent, content, order);
        assert forall|k: int|
            0 <= k < content.len() && covered(torrent, order, k) implies #[trigger] data[k]
            == content[k] by {
            if begin <= k < begin + piece_size(torrent, index) {
                assert(data[k] == piece_content(torrent, content, index)[k - begin]);
            } else {
                let j = choose|j: int|
                    0 <= j < order.len() && piece_begin(torrent, #[trigger] order[j]) <= k
                        < piece_begin(torrent, order[j]) + piece_size(torrent, order[j]);
                assert(rest[j] == order[j]);
                assert(covered(torrent, rest, k));
                assert(data[k] == filled(torrent, content, rest)[k]);
            }
        }
    }
}

/// Once every piece has arrived, in whatever order and however often, the data are
/// what the pieces were taken from.
pub proof fn law_pieces_make_data(
    torrent: TorrentView,
    content: Seq<u8>,
    order: Seq<int>,
    count: int,
)
    requires
        content.len() == torrent.length,
        torrent.length <= piece_begin(torrent, count),
        forall|j: int|
            0 <= j < order.len() ==> 0 <= #[trigger] order[j] && piece_begin(torrent, order[j])
                <= torrent.length,
        forall|i: int| 0 <= i < count ==> #[trigger] order.contains(i),
    ensures
        filled(torrent, content, order) == content,
{
    lemma_filled(torrent, content, order);
    let data = filled(torrent, content, order);
    assert forall|k: int| 0 <= k < content.len() implies data[k] == content[k] by {
        let size = torrent.piece_length as int;
        assert(size > 0) by (nonlinear_arith)
            requires
                0 <= k < count * size,
                size >= 0,
        ;
        let i = k / size;
        assert(0 <= i < count && i * size <= k < i * size + size) by (nonlinear_arith)
            requires
                0 <= k < count * size,
                size > 0,
                i == k / size,
        ;
        assert(order.contains(i));
        let j = choose|j: int| 0 <= j < order.len() && order[j] == i;
        assert(piece_begin(torrent, order[j]) <= k < piece_begin(torrent, order[j]) + piece_size(
            torrent,
            order[j],
        ));
        assert(covered(torrent, order, k));
    }
    assert(data =~= content);
}

/// The data after these results arrived in this order.
pub open spec fn received_data(torrent: TorrentView, results: Seq<PieceResult>) -> Seq<u8>
    decreases results.len(),
{
    if results.len() == 0 {
        Seq::new(torrent.length as nat, |i: int| 0u8)
    } else {
        overwritten(
            received_data(torrent, results.drop_last()),
            piece_begin(torrent, results.last().index as int),
            results.last().data@,
        )
    }
}

/// Each result that arrives is written over the data at its place.
pub proof fn law_received_extended(
    torrent: TorrentView,
    results: Seq<PieceResult>,
    result: PieceResult,
)
    ensures
        received_data(torrent, results.push(result)) == overwritten(
            received_data(torrent, results),
            piece_begin(torrent, result.index as int),
            result.data@,
        ),
{
    assert(results.push(result).drop_last() =~= results);
}

/// Whether each result is a whole piece within the data.
pub open spec fn whole_pieces(torrent: TorrentView, results: Seq<PieceResult>) -> bool {
    forall|j: int|
        0 <= j < results.len() ==> {
            let result = #[trigger] results[j];
            &&& piece_begin(torrent, result.index as int) <= torrent.length
            &&& result.data@.len() == piece_size(torrent, result.index as int)
        }
}

/// Pieces with different indices have no byte in common.
proof fn lemma_pieces_apart(torrent: TorrentView, i: int, j: int)
    requires
        0 <= i < j,
        piece_begin(torrent, i) <= torrent.length,
    ensures
        0 <= piece_begin(torrent, i),
        piece_begin(torrent, i) + piece_size(torrent, i) <= piece_begin(torrent, j),
{
    let size = torrent.piece_length as int;
    assert(0 <= i * size && i * size + size <= j * size) by (nonlinear_arith)
        requires
            0 <= i < j,
            size >= 0,
    ;
}

/// Once pieces have arrived, none of them twice, each stands in the data as it was
/// delivered, whatever the order.
pub proof fn law_received_kept(torrent: TorrentView, results: Seq<PieceResult>, j: int)
    requires
        whole_pieces(torrent, results),
        distinct_indices(results),
        0 <= j < results.len(),
    ensures
        ({
            let begin = piece_begin(torrent, results[j].index as int);
            let end = begin + piece_size(torrent, results[j].index as int);
            received_data(torrent, results).subrange(begin, end) == results[j].data@
        }),
    decreases results.len(),
{
    let rest = results.drop_last();
    let last = results.last();
    let index = results[j].index as int;
    let begin = piece_begin(torrent, index);
    let end = begin + piece_size(torrent, index);
    let last_begin = piece_begin(torrent, last.index as int);
    lemma_received_len(torrent, rest);
    law_pieces_tile(torrent, last.index as int);
    law_pieces_tile(torrent, index);
    lemma_pieces_apart(torrent, last.index as int, last.index + 1);
    lemma_pieces_apart(torrent, index, index + 1);
    let data = received_data(torrent, results);
    if j < rest.len() {
        law_received_kept(torrent, rest, j);
        assert(results[j].index != results[results.len() - 1].index);
        if index < last.index {
            lemma_pieces_apart(torrent, index, last.index as int);
        } else {
            lemma_pieces_apart(torrent, last.index as int, index);
        }
        assert(data.subrange(begin, end) =~= received_data(torrent, rest).subrange(begin, end));
        assert(rest[j] == results[j]);
    } else {
        assert(data.subrange(begin, end) =~= last.data@);
    }
}

/// Whether a result is a piece of the torrent: whole, and with the hash that the torrent
/// has for it.
pub open spec fn verified_piece(
    torrent: TorrentView,
    digest: spec_fn(Seq<u8>) -> Seq<u8>,
    result: PieceResult,
) -> bool {
    let index = result.index as int;
    &&& index < torrent.pieces_hashes.len()
    &&& piece_begin(torrent, index) <= torrent.length
    &&& result.data@.len() == piece_size(torrent, index)
    &&& digest(result.data@) == torrent.pieces_hashes[index]
}

/// A result that stems from the work for a piece of the torrent is that piece, as long as
/// the pieces have different numbers.
pub proof fn law_result_verified(
    torrent: TorrentView,
    i: int,
    work: PieceWork,
    result: PieceResult,
    digest: spec_fn(Seq<u8>) -> Seq<u8>,
)
    requires
        pieces_within(torrent),
        0 <= i < torrent.pieces_hashes.len() <= 0x1_0000_0000,
        fresh_work(torrent, i, work),
        stems_from(result, work, digest),
    ensures
        result.index == i,
        verified_piece(torrent, digest, result),
{
    assert(piece_begin(torrent, piece_number(i)) <= torrent.length);
}

/// Whether no two results have the same index.
pub open spec fn distinct_indices(results: Seq<PieceResult>) -> bool {
    forall|a: int, b: int|
        0 <= a < b < results.len() ==> (#[trigger] results[a]).index != (
        #[trigger] results[b]).index
}

/// Where a piece has arrived, the data have the hash that the torrent has for it.
pub proof fn law_received_verified(
    torrent: TorrentView,
    results: Seq<PieceResult>,
    digest: spec_fn(Seq<u8>) -> Seq<u8>,
    j: int,
)
    requires
        distinct_indices(results),
        forall|k: int|
            0 <= k < results.len() ==> verified_piece(torrent, digest, #[trigger] results[k]),
        0 <= j < results.len(),
    ensures
        ({
            let index = results[j].index as int;
            let begin = piece_begin(torrent, index);
            let end = begin + piece_size(torrent, index);
            digest(received_data(torrent, results).subrange(begin, end))
                == torrent.pieces_hashes[index]
        }),
{
    assert forall|k: int| 0 <= k < results.len() implies {
        let result = #[trigger] results[k];
        &&& piece_begin(torrent, result.index as int) <= torrent.length
        &&& result.data@.len() == piece_size(torrent, result.index as int)
    } by {
        assert(verified_piece(torrent, digest, results[k]));
    }
    law_received_kept(torrent, results, j);
    assert(verified_piece(torrent, digest, results[j]));
}

/// As many pieces as the torrent has, none of them twice, are all its pieces.
pub proof fn law_all_received(
    torrent: TorrentView,
    results: Seq<PieceResult>,
    digest: spec_fn(Seq<u8>) -> Seq<u8>,
    i: int,
)
    requires
        distinct_indices(results),
        forall|k: int|
            0 <= k < results.len() ==> verified_piece(torrent, digest, #[trigger] results[k]),
        results.len() == torrent.pieces_hashes.len(),
        0 <= i < torrent.pieces_hashes.len(),
    ensures
        exists|j: int| 0 <= j < results.len() && (#[trigger] results[j]).index == i,
{
    let n = results.len() as int;
    let indices = results.map_values(|result: PieceResult| result.index as int);
    assert(indices.no_duplicates()) by {
        assert forall|a: int, b: int| 0 <= a < n && 0 <= b < n && a != b implies indices[a]
            != indices[b] by {
            if a < b {
                assert(results[a].index != results[b].index);
            } else {
                assert(results[b].index != results[a].index);
            }
        }
    }
    indices.unique_seq_to_set();
    lemma_int_range(0, n);
    assert(indices.to_set().subset_of(set_int_range(0, n))) by {
        assert forall|x: int| indices.to_set().contains(x) implies set_int_range(0, n).contains(
            x,
        ) by {
            let j = choose|j: int| 0 <= j < indices.len() && indices[j] == x;
            assert(verified_piece(torrent, digest, results[j]));
        }
    }
    lemma_len_subset(indices.to_set(), set_int_range(0, n));
    lemma_subset_equality(indices.to_set(), set_int_range(0, n));
    assert(set_int_range(0, n).contains(i));
    assert(indices.to_set().contains(i));
    let j = choose|j: int| 0 <= j < indices.len() && indices[j] == i;
    assert(results[j].index == i);
}

/// Once as many verified pieces have arrived as the torrent has, none of them twice, the
/// data have at every piece the hash that the torrent has for it.
pub proof fn law_download_verified(
    torrent: TorrentView,
    results: Seq<PieceResult>,
    digest: spec_fn(Seq<u8>) -> Seq<u8>,
    i: int,
)
    requires
        distinct_indices(results),
        forall|k: int|
            0 <= k < results.len() ==> verified_piece(torrent, digest, #[trigger] results[k]),
        results.len() == torrent.pieces_hashes.len(),
        0 <= i < torrent.pieces_hashes.len(),
    ensures
        ({
            let begin = piece_begin(torrent, i);
            let end = begin + piece_size(torrent, i);
            digest(received_data(torrent, results).subrange(begin, end))
                == torrent.pieces_hashes[i]
        }),
{
    law_all_received(torrent, results, digest, i);
    let j = choose|j: int| 0 <= j < results.len() && (#[trigger] results[j]).index == i;
    law_received_verified(torrent, results, digest, j);
}

proof fn lemma_received_len(torrent: TorrentView, results: Seq<PieceResult>)
    requires
        whole_pieces(torrent, results),
    ensures
        received_data(torrent, results).len() == torrent.length,
    decreases results.len(),
{
    if results.len() > 0 {
        let rest = results.drop_last();
        let index = results[results.len() - 1].index as int;
        assert(whole_pieces(torrent, rest)) by {
            assert forall|k: int| 0 <= k < rest.len() implies {
                let result = #[trigger] rest[k];
                &&& piece_begin(torrent, result.index as int) <= torrent.length
                &&& result.data@.len() == piece_size(torrent, result.index as int)
            } by {
                assert(rest[k] == results[k]);
            }
        }
        lemma_received_len(torrent, rest);
        lemma_pieces_apart(torrent, index, index + 1);
        law_pieces_tile(torrent, index);
    }
}

/// The data of a torrent while its pieces arrive.
pub struct Assembly {
    data: Vec<u8>,
    expected: usize,
    received: usize,
}

impl Assembly {
    /// The data, as far as they have arrived.
    pub closed spec fn content(self) -> Seq<u8> {
        self.data@
    }

    /// How many pieces are to arrive.
    pub closed spec fn expected_pieces(self) -> nat {
        self.expected as nat
    }

    /// How many pieces have arrived.
    pub closed spec fn received_pieces(self) -> nat {
        self.received as nat
    }

    /// Whether as many pieces have arrived as there are.
    pub fn is_complete(&self) -> (r: bool)
        ensures
            r == (self.received_pieces() >= self.expected_pieces()),
    {
        self.received >= self.expected
    }

    /// The size of the data.
    pub fn size(&self) -> (r: usize)
        ensures
            r == self.content().len(),
    {
        self.data.len()
    }

    /// The data.
    pub fn into_data(self) -> (r: Vec<u8>)
        ensures
            r@ == self.content(),
    {
        self.data
    }
}

impl Default for Torrent {
    fn default() -> (r: Self)
        ensures
            r@ == empty_torrent(),
    {
        let r = Torrent {
            tiers: Vec::new(),
            info_hash: Vec::new(),
            pieces_hashes: Vec::new(),
            piece_length: 0,
            length: 0,
            name: String::new(),
            peer_id: Vec::new(),
            peers: Vec::new(),
            files: Vec::new(),
        };
        assert(r@ =~= empty_torrent());
        r
    }
}

impl Torrent {
    /// Builds a new torrent, of which nothing is known.
    pub fn new() -> (r: Self)
        ensures
            r@ == empty_torrent(),
    {
        Default::default()
    }

    /// Generates a random 20-byte peer ID, which identifies this client instance.
    pub fn generate_peer_id() -> (r: Vec<u8>)
        ensures
            r@.len() == 20,
    {
        let mut peer_id: Vec<u8> = Vec::new();
        while peer_id.len() < 20
            invariant
                peer_id@.len() <= 20,
            decreases 20 - peer_id@.len(),
        {
            peer_id.push(random_u8());
        }
        peer_id
    }

    /// Returns the suggested filename from the torrent metadata.
    pub fn name(&self) -> (r: &str)
        ensures
            r@ == self@.name,
    {
        self.name.as_str()
    }

    /// Returns true if this is a multi-file torrent.
    pub fn is_multi_file(&self) -> (r: bool)
        ensures
            r == (self@.files.len() > 0),
    {
        self.files.len() > 0
    }

    /// Returns the list of files for multi-file torrents.
    pub fn files(&self) -> (r: &[FileInfo])
        ensures
            entry_views(r@) == self@.files,
    {
        self.files.as_slice()
    }

    /// The tracker tiers.
    pub fn tiers(&self) -> (r: Vec<Vec<String>>)
        ensures
            tier_texts(r@) == self@.tiers,
    {
        let mut tiers: Vec<Vec<String>> = Vec::new();
        let mut i: usize = 0;
        while i < self.tiers.len()
            invariant
                i <= self.tiers@.len(),
                tier_texts(tiers@) == self@.tiers.take(i as int),
            decreases self.tiers@.len() - i,
        {
            let ghost before = tiers@;
            let tier = copy_strings(&self.tiers[i]);
            tiers.push(tier);
            i += 1;
            assert(tier_texts(tiers@) =~= tier_texts(before).push(texts(tier@)));
            assert(tier_texts(tiers@) =~= self@.tiers.take(i as int));
        }
        assert(self@.tiers.take(i as int) =~= self@.tiers);
        tiers
    }

    /// The hash of the info dictionary.
    pub fn info_hash(&self) -> (r: &[u8])
        ensures
            r@ == self@.info_hash,
    {
        self.info_hash.as_slice()
    }

    /// The identifier of this client instance.
    pub fn peer_id(&self) -> (r: &[u8])
        ensures
            r@ == self@.peer_id,
    {
        self.peer_id.as_slice()
    }

    /// The discovered peers.
    pub fn peers(&self) -> (r: &[Peer])
        ensures
            r@ == self@.peers,
    {
        self.peers.as_slice()
    }

    /// Total size of all files in bytes.
    pub fn length(&self) -> (r: u64)
        ensures
            r == self@.length,
    {
        self.length
    }

    /// The number of pieces.
    pub fn pieces_count(&self) -> (r: usize)
        ensures
            r == self@.pieces_hashes.len(),
    {
        assert(self@.pieces_hashes.len() == self.pieces_hashes@.len());
        self.pieces_hashes.len()
    }

    /// Builds the peers that a tracker names in a compact list.
    pub fn build_peers(&self, tracker_peers: Vec<u8>) -> (r: Result<Vec<Peer>, Error>)
        ensures
            match r {
                Ok(peers) => tracker_peers@.len() % 6 == 0 && peers@ == listed_peers(
                    tracker_peers@,
                ),
                Err(e) => tracker_peers@.len() % 6 != 0 && e == Error::InvalidPeerList,
            },
    {
        parse_peers(tracker_peers)
    }

    /// Takes in what an info dictionary says about pieces and files.
    fn describe(&mut self, info: &BencodeInfo) -> (r: Result<(), Error>)
        requires
            info_readable(*info),
        ensures
            final(self)@ == described(old(self)@, *info),
            match r {
                Ok(()) => info_error(*info) is None,
                Err(e) => info_error(*info) == Some(e),
            },
    {
        match info.split_pieces_hashes() {
            Ok(hashes) => {
                self.pieces_hashes = hashes;
            },
            Err(e) => {
                return Err(e);
            },
        }
        self.piece_length = info.piece_length;
        match info.total_length() {
            Ok(length) => {
                self.length = length;
            },
            Err(e) => {
                return Err(e);
            },
        }
        self.files = info.file_list();
        Ok(())
    }

    /// Takes in a torrent file with these tracker tiers and this hash of the info
    /// dictionary.
    pub fn load_torrent(
        &mut self,
        tiers: Vec<Vec<String>>,
        info_hash: Vec<u8>,
        info: BencodeInfo,
    ) -> (r: Result<(), Error>)
        requires
            info_readable(info),
        ensures
            ({
                let announced = TorrentView {
                    tiers: tier_texts(tiers@),
                    info_hash: info_hash@,
                    ..old(self)@
                };
                match r {
                    Ok(()) => info_error(info) is None && final(self)@ == (TorrentView {
                        name: info.name@,
                        ..described(announced, info)
                    }),
                    Err(e) => info_error(info) == Some(e) && final(self)@ == described(
                        announced,
                        info,
                    ),
                }
            }),
    {
        self.tiers = tiers;
        self.info_hash = info_hash;
        match self.describe(&info) {
            Ok(()) => {},
            Err(e) => {
                return Err(e);
            },
        }
        self.name = info.name;
        Ok(())
    }

    /// Opens a torrent, given the decoded torrent file and the hash of its info
    /// dictionary. Returns the peer ID to contact the trackers with.
    ///
    /// The trackers of each tier are put in random order.
    pub fn open_torrent(&mut self, bencode: BencodeTorrent, info_hash: Vec<u8>) -> (r: Result<
        Vec<u8>,
        Error,
    >)
        requires
            no_tracker(bencode) || info_readable(bencode.info),
        ensures
            ({
                let announced = TorrentView {
                    tiers: final(self)@.tiers,
                    info_hash: info_hash@,
                    ..old(self)@
                };
                &&& no_tracker(bencode) ==> final(self)@ == old(self)@
                &&& !no_tracker(bencode) ==> announced_tiers(bencode, final(self)@.tiers)
                &&& match r {
                    Ok(peer_id) => {
                        &&& !no_tracker(bencode)
                        &&& info_error(bencode.info) is None
                        &&& peer_id@.len() == 20
                        &&& final(self)@ == (TorrentView {
                            name: bencode.info.name@,
                            ..described(announced, bencode.info)
                        })
                    },
                    Err(e) => if no_tracker(bencode) {
                        e == Error::NoAnnounce
                    } else {
                        &&& info_error(bencode.info) == Some(e)
                        &&& final(self)@ == described(announced, bencode.info)
                    },
                }
            }),
    {
        let peer_id = Self::generate_peer_id();
        let tiers = match announce_tiers(bencode.announce, bencode.announce_list) {
            Ok(tiers) => tiers,
            Err(e) => {
                return Err(e);
            },
        };
        match self.load_torrent(tiers, info_hash, bencode.info) {
            Ok(()) => Ok(peer_id),
            Err(e) => Err(e),
        }
    }

    /// Takes in the parameters of a magnet link.
    pub fn load_magnet(&mut self, magnet_info: MagnetInfo)
        ensures
            final(self)@ == (TorrentView {
                info_hash: magnet_info.info_hash@,
                name: magnet_info.name@,
                tiers: tier_texts(magnet_info.tiers@),
                ..old(self)@
            }),
    {
        self.info_hash = magnet_info.info_hash;
        self.name = magnet_info.name;
        self.tiers = magnet_info.tiers;
    }

    /// Opens a magnet link. Returns the peer ID to contact the trackers with.
    pub fn open_magnet(&mut self, uri: &str) -> (r: Result<Vec<u8>, Error>)
        ensures
            match r {
                Ok(peer_id) => {
                    let params = url_query_pairs(uri@);
                    &&& peer_id@.len() == 20
                    &&& url_parses(uri@)
                    &&& url_scheme(uri@) == "magnet"@
                    &&& hashes_valid(params)
                    &&& magnet_hash(params).len() == 20
                    &&& magnet_tiers(params).len() > 0
                    &&& final(self)@ == (TorrentView {
                        info_hash: magnet_hash(params),
                        name: magnet_name(params),
                        tiers: magnet_tiers(params),
                        ..old(self)@
                    })
                },
                Err(e) => {
                    &&& final(self)@ == old(self)@
                    &&& if url_parses(uri@) {
                        magnet_outcome(url_scheme(uri@), url_query_pairs(uri@), Err(e))
                    } else {
                        e == Error::InvalidMagnetLink
                    }
                },
            },
    {
        let magnet_info = match parse_magnet(uri) {
            Ok(magnet_info) => magnet_info,
            Err(e) => {
                return Err(e);
            },
        };
        self.load_magnet(magnet_info);
        Ok(Self::generate_peer_id())
    }

    /// Takes in the peers that the trackers named and the peer ID they were told.
    pub fn set_peers(&mut self, peers: Vec<Peer>, peer_id: Vec<u8>)
        ensures
            final(self)@ == (TorrentView { peers: peers@, peer_id: peer_id@, ..old(self)@ }),
    {
        self.peers = peers;
        self.peer_id = peer_id;
    }

    /// Takes in the info dictionary that peers sent for a magnet link, given its hash,
    /// which must be that of the link. The link's name has precedence.
    pub fn load_metadata(&mut self, info: BencodeInfo, digest: &[u8]) -> (r: Result<(), Error>)
        requires
            digest@ == old(self)@.info_hash ==> info_readable(info),
        ensures
            if digest@ != old(self)@.info_hash {
                &&& r == Err::<(), Error>(Error::MetadataHashMismatch)
                &&& final(self)@ == old(self)@
            } else {
                match r {
                    Ok(()) => info_error(info) is None && final(self)@ == (TorrentView {
                        name: if old(self)@.name.len() == 0 {
                            info.name@
                        } else {
                            old(self)@.name
                        },
                        ..described(old(self)@, info)
                    }),
                    Err(e) => info_error(info) == Some(e) && final(self)@ == described(
                        old(self)@,
                        info,
                    ),
                }
            },
    {
        if !same_bytes(digest, &self.info_hash) {
            return Err(Error::MetadataHashMismatch);
        }
        match self.describe(&info) {
            Ok(()) => {},
            Err(e) => {
                return Err(e);
            },
        }
        if self.name.as_str().unicode_len() == 0 {
            self.name = info.name;
        }
        Ok(())
    }

    /// Whether each piece begins within the data.
    pub fn has_pieces_within(&self) -> (r: bool)
        ensures
            r == pieces_within(self@),
    {
        let count: usize = self.pieces_count();
        let mut i: usize = 0;
        while i < count
            invariant
                i <= count,
                count == self@.pieces_hashes.len(),
                forall|k: int|
                    0 <= k < i ==> #[trigger] piece_begin(self@, piece_number(k)) <= self@.length,
            decreases count - i,
        {
            let piece_index: u32 = (i as u64 % 0x1_0000_0000) as u32;
            assert(piece_index == piece_number(i as int));
            if self.piece_position(piece_index) > self.length {
                assert(piece_begin(self@, piece_number(i as int)) > self@.length);
                return false;
            }
            i += 1;
        }
        true
    }

    /// Begins the download: the work for each piece, and the data to fill.
    pub fn download(&self) -> (r: (Vec<PieceWork>, Assembly))
        requires
            pieces_within(self@),
            self@.length <= usize::MAX,
        ensures
            r.0@.len() == self@.pieces_hashes.len(),
            forall|i: int| 0 <= i < r.0@.len() ==> fresh_work(self@, i, #[trigger] r.0@[i]),
            r.1.content() == Seq::new(self@.length as nat, |i: int| 0u8),
            r.1.expected_pieces() == self@.pieces_hashes.len(),
            r.1.received_pieces() == 0,
    {
        let count: usize = self.pieces_count();
        let mut works: Vec<PieceWork> = Vec::new();
        let mut i: usize = 0;
        while i < count
            invariant
                i <= count,
                count == self@.pieces_hashes.len() == self.pieces_hashes@.len(),
                pieces_within(self@),
                works@.len() == i,
                forall|k: int| 0 <= k < i ==> fresh_work(self@, k, #[trigger] works@[k]),
            decreases count - i,
        {
            let piece_index: u32 = (i as u64 % 0x1_0000_0000) as u32;
            assert(piece_index == piece_number(i as int));
            let hash = copy_range(&self.pieces_hashes[i], 0, self.pieces_hashes[i].len());
            assert(hash@ =~= self@.pieces_hashes[i as int]);
            let length: u32 = self.get_piece_length(piece_index);
            works.push(PieceWork::new(piece_index, hash, length));
            i += 1;
        }
        let assembly = Assembly { data: zeros(self.length as usize), expected: count, received: 0 };
        (works, assembly)
    }

    /// The workers of a download, one for each peer.
    pub fn workers(&self) -> (r: Vec<Worker>)
        ensures
            r@.len() == self@.peers.len(),
            forall|i: int|
                0 <= i < r@.len() ==> {
                    let worker = #[trigger] r@[i];
                    &&& worker.spec_peer() == self@.peers[i]
                    &&& worker.spec_peer_id() == self@.peer_id
                    &&& worker.spec_info_hash() == self@.info_hash
                },
    {
        let mut workers: Vec<Worker> = Vec::new();
        while workers.len() < self.peers.len()
            invariant
                workers@.len() <= self.peers@.len(),
                forall|i: int|
                    0 <= i < workers@.len() ==> {
                        let worker = #[trigger] workers@[i];
                        &&& worker.spec_peer() == self@.peers[i]
                        &&& worker.spec_peer_id() == self@.peer_id
                        &&& worker.spec_info_hash() == self@.info_hash
                    },
            decreases self.peers@.len() - workers@.len(),
        {
            let peer_id = copy_range(&self.peer_id, 0, self.peer_id.len());
            let info_hash = copy_range(&self.info_hash, 0, self.info_hash.len());
            assert(peer_id@ =~= self.peer_id@);
            assert(info_hash@ =~= self.info_hash@);
            workers.push(Worker::new(self.peers[workers.len()], peer_id, info_hash));
        }
        workers
    }

    /// Whether a downloaded piece fits into the data.
    pub fn can_receive(&self, assembly: &Assembly, piece_result: &PieceResult) -> (r: bool)
        ensures
            r == result_fits(self@, *piece_result, assembly.content().len() as int),
    {
        let begin: u64 = self.piece_position(piece_result.index);
        begin <= 0xffff_ffff && piece_result.data.len() == piece_result.length as usize && begin
            + piece_result.length as u64 <= assembly.data.len() as u64
    }

    /// Copies a downloaded piece to its place in the data and counts it.
    pub fn receive_piece(&self, assembly: &mut Assembly, piece_result: &PieceResult)
        requires
            result_fits(self@, *piece_result, old(assembly).content().len() as int),
            old(assembly).received_pieces() < old(assembly).expected_pieces(),
        ensures
            final(assembly).content() == overwritten(
                old(assembly).content(),
                piece_begin(self@, piece_result.index as int),
                piece_result.data@,
            ),
            final(assembly).expected_pieces() == old(assembly).expected_pieces(),
            final(assembly).received_pieces() == old(assembly).received_pieces() + 1,
    {
        let begin: usize = self.get_piece_offset(piece_result.index) as usize;
        overwrite(&mut assembly.data, begin, &piece_result.data);
        assembly.received = assembly.received + 1;
    }

    /// The position of a piece in data of any size.
    fn piece_position(&self, index: u32) -> (r: u64)
        ensures
            r == piece_begin(self@, index as int),
            r <= 0xffff_ffff * 0xffff_ffff,
    {
        assert(index * self.piece_length <= 0xffff_ffff * 0xffff_ffff) by (nonlinear_arith)
            requires
                index <= 0xffff_ffff,
                self.piece_length <= 0xffff_ffff,
        ;
        index as u64 * self.piece_length as u64
    }

    /// Gets the length of a piece.
    pub fn get_piece_length(&self, index: u32) -> (r: u32)
        requires
            piece_begin(self@, index as int) <= self@.length,
        ensures
            r == piece_size(self@, index as int),
    {
        let begin: u64 = self.piece_position(index);
        let mut end: u64 = begin + self.piece_length as u64;
        if end > self.length {
            end = self.length;
        }
        (end - begin) as u32
    }

    /// Gets the offset of a piece in the data.
    pub fn get_piece_offset(&self, index: u32) -> (r: u32)
        requires
            piece_begin(self@, index as int) <= u32::MAX,
        ensures
            r == piece_begin(self@, index as int),
    {
        index * self.piece_length
    }
}

/// The tracker tiers that a torrent file gives, each in random order.
fn announce_tiers(announce: String, announce_list: Vec<Vec<String>>) -> (r: Result<
    Vec<Vec<String>>,
    Error,
>)
    ensures
        match r {
            Ok(tiers) => if announce_list@.len() > 0 {
                reordered(tier_texts(tiers@), tier_texts(announce_list@))
            } else {
                announce@.len() > 0 && tier_texts(tiers@) == seq![seq![announce@]]
            },
            Err(e) => announce_list@.len() == 0 && announce@.len() == 0 && e == Error::NoAnnounce,
        },
{
    let mut tiers = announce_list;
    if tiers.len() > 0 {
        let mut i: usize = 0;
        while i < tiers.len()
            invariant
                i <= tiers@.len(),
                reordered(tier_texts(tiers@), tier_texts(announce_list@)),
            decreases tiers@.len() - i,
        {
            let ghost before = tiers@;
            shuffle(&mut tiers[i]);
            assert forall|k: int| 0 <= k < before.len() implies (#[trigger] tier_texts(
                tiers@,
            )[k]).to_multiset() == tier_texts(announce_list@)[k].to_multiset() by {
                assert(tier_texts(before)[k].to_multiset() == tier_texts(
                    announce_list@,
                )[k].to_multiset());
            }
            i += 1;
        }
        return Ok(tiers);
    }
    if announce.as_str().unicode_len() == 0 {
        return Err(Error::NoAnnounce);
    }
    let mut tier: Vec<String> = Vec::new();
    tier.push(announce);
    tiers.push(tier);
    assert(texts(tier@) =~= seq![announce@]);
    assert(tier_texts(tiers@) =~= seq![seq![announce@]]);
    Ok(tiers)
}

} // verus!
