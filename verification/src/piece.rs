//! Pieces on their way from a peer to the file.

use crate::bytes::zeros;
use vstd::prelude::*;

verus! {

/// The state of the download of one piece.
#[derive(Clone, Debug)]
pub struct PieceWork {
    /// Zero-based index of this piece in the torrent
    pub index: u32,
    /// SHA-1 hash of the piece for verification (20 bytes)
    pub hash: Vec<u8>,
    /// Total length of the piece in bytes
    pub length: u32,
    /// Buffer for the downloaded piece data
    pub data: Vec<u8>,
    /// Number of block requests that wait for their answer
    pub requests: u32,
    /// Total bytes requested from the peer
    pub requested: u32,
    /// Total bytes received and stored
    pub downloaded: u32,
}

/// A piece that has been downloaded in full.
#[derive(Clone, Debug)]
pub struct PieceResult {
    /// Zero-based index of this piece in the torrent
    pub index: u32,
    /// Total length of the piece in bytes
    pub length: u32,
    /// Complete piece data
    pub data: Vec<u8>,
}

impl PieceWork {
    /// Whether the buffer has the size of the piece and no more of the piece has
    /// been requested than there is.
    pub open spec fn valid(self) -> bool {
        &&& self.data@.len() == self.length
        &&& self.requested <= self.length
    }

    /// Creates the work for a piece of which nothing has been requested yet.
    pub fn new(index: u32, hash: Vec<u8>, length: u32) -> (r: PieceWork)
        ensures
            r.index == index,
            r.hash == hash,
            r.length == length,
            r.data@ == Seq::new(length as nat, |i: int| 0u8),
            r.requests == 0,
            r.requested == 0,
            r.downloaded == 0,
            r.valid(),
    {
        PieceWork {
            index,
            hash,
            length,
            data: zeros(length as usize),
            requests: 0,
            requested: 0,
            downloaded: 0,
        }
    }
}

impl Default for PieceWork {
    fn default() -> (r: Self)
        ensures
            r.index == 0,
            r.hash@ == Seq::<u8>::empty(),
            r.length == 0,
            r.data@ == Seq::<u8>::empty(),
            r.requests == 0,
            r.requested == 0,
            r.downloaded == 0,
    {
        PieceWork::new(0, Vec::new(), 0)
    }
}

impl Default for PieceResult {
    fn default() -> (r: Self)
        ensures
            r.index == 0,
            r.length == 0,
            r.data@ == Seq::<u8>::empty(),
    {
        PieceResult::new(0, 0, Vec::new())
    }
}

impl PieceResult {
    /// Creates the result for a piece that has been downloaded and verified.
    pub fn new(index: u32, length: u32, data: Vec<u8>) -> (r: PieceResult)
        ensures
            r == (PieceResult { index, length, data }),
    {
        PieceResult { index, length, data }
    }
}

} // verus!
