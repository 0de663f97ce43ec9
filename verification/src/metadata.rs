//! Assembling a torrent's metadata from the pieces that a peer sends (BEP 9).

use crate::bytes::{copy_range, overwrite, overwritten, zeros};
use crate::error::Error;
use vstd::prelude::*;

verus! {

/// Size of a metadata piece in bytes.
pub const METADATA_PIECE_SIZE: u32 = 16384;

/// Largest size of metadata to accept from a peer, in bytes.
pub const MAX_METADATA_SIZE: u32 = 16_777_216;

/// How many pieces metadata of this size has.
pub open spec fn metadata_pieces(size: int) -> int {
    (size + METADATA_PIECE_SIZE - 1) / METADATA_PIECE_SIZE as int
}

/// The metadata after the content of a piece was copied to its place. Bytes beyond
/// the end of the metadata are dropped.
pub open spec fn stored(metadata: Seq<u8>, piece: int, data: Seq<u8>) -> Seq<u8> {
    let offset = piece * METADATA_PIECE_SIZE;
    let room = metadata.len() - offset;
    overwritten(metadata, offset, if data.len() <= room {
        data
    } else {
        data.take(room)
    })
}

/// The metadata after the contents of the first pieces arrived, in order.
pub open spec fn assembled(size: nat, replies: Seq<Seq<u8>>) -> Seq<u8>
    decreases replies.len(),
{
    if replies.len() == 0 {
        Seq::new(size, |i: int| 0u8)
    } else {
        stored(assembled(size, replies.drop_last()), replies.len() - 1, replies.last())
    }
}

/// Storing one more piece extends what has been assembled by that piece.
pub proof fn law_metadata_extended(size: nat, replies: Seq<Seq<u8>>, data: Seq<u8>)
    ensures
        assembled(size, replies.push(data)) == stored(
            assembled(size, replies),
            replies.len() as int,
            data,
        ),
{
    assert(replies.push(data).drop_last() =~= replies);
}

/// Metadata has just as many pieces of 16 KiB as it needs: the last one is reached, and
/// it is not empty.
pub proof fn law_metadata_pieces(size: int)
    requires
        size > 0,
    ensures
        16384 * (metadata_pieces(size) - 1) < size <= 16384 * metadata_pieces(size),
{
}

/// The content of a piece is copied to its place behind all pieces of 16 KiB before it;
/// nothing else changes, and nothing is written beyond the end.
pub proof fn law_metadata_stored(metadata: Seq<u8>, piece: int, data: Seq<u8>, i: int)
    requires
        0 <= piece,
        16384 * piece <= metadata.len(),
        0 <= i < metadata.len(),
    ensures
        stored(metadata, piece, data).len() == metadata.len(),
        stored(metadata, piece, data)[i] == if 16384 * piece <= i < 16384 * piece + data.len() {
            data[i - 16384 * piece]
        } else {
            metadata[i]
        },
{
}

/// The largest metadata that is accepted has 16 MiB.
pub proof fn law_metadata_limit()
    ensures
        MAX_METADATA_SIZE == 16 * 1024 * 1024,
        METADATA_PIECE_SIZE == 16 * 1024,
{
}

/// The content of piece `i` of some metadata.
pub open spec fn metadata_piece(metadata: Seq<u8>, i: int) -> Seq<u8> {
    let begin = i * METADATA_PIECE_SIZE;
    let end = begin + METADATA_PIECE_SIZE;
    metadata.subrange(begin, if end < metadata.len() {
        end
    } else {
        metadata.len() as int
    })
}

proof fn lemma_assembled_prefix(metadata: Seq<u8>, n: nat)
    requires
        n <= metadata_pieces(metadata.len() as int),
    ensures
        ({
            let replies = Seq::new(n, |i: int| metadata_piece(metadata, i));
            let have = assembled(metadata.len(), replies);
            &&& have.len() == metadata.len()
            &&& forall|i: int|
                0 <= i < metadata.len() && i < n * METADATA_PIECE_SIZE ==> have[i] == metadata[i]
        }),
    decreases n,
{
    let replies = Seq::new(n, |i: int| metadata_piece(metadata, i));
    if n > 0 {
        let before = Seq::new((n - 1) as nat, |i: int| metadata_piece(metadata, i));
        lemma_assembled_prefix(metadata, (n - 1) as nat);
        assert(replies.drop_last() =~= before);
        let have = assembled(metadata.len(), replies);
        assert(have == stored(
            assembled(metadata.len(), before),
            n - 1,
            metadata_piece(metadata, n - 1),
        ));
    }
}

/// Metadata whose pieces arrive in order, each of its full size, is assembled as it
/// was.
pub proof fn law_metadata_assembled(metadata: Seq<u8>)
    ensures
        assembled(
            metadata.len(),
            Seq::new(
                metadata_pieces(metadata.len() as int) as nat,
                |i: int| metadata_piece(metadata, i),
            ),
        ) == metadata,
{
    let n = metadata_pieces(metadata.len() as int) as nat;
    lemma_assembled_prefix(metadata, n);
    let replies = Seq::new(n, |i: int| metadata_piece(metadata, i));
    assert(assembled(metadata.len(), replies) =~= metadata);
}

/// The download of metadata from a peer.
pub struct MetadataDownload {
    num_pieces: u32,
    next: u32,
    metadata: Vec<u8>,
}

impl MetadataDownload {
    /// The metadata, as far as it has arrived.
    pub closed spec fn content(self) -> Seq<u8> {
        self.metadata@
    }

    /// How many pieces have arrived.
    pub closed spec fn received(self) -> nat {
        self.next as nat
    }

    /// Whether the state is consistent.
    pub closed spec fn valid(self) -> bool {
        &&& 0 < self.metadata@.len() <= MAX_METADATA_SIZE
        &&& self.num_pieces == metadata_pieces(self.metadata@.len() as int)
        &&& self.next <= self.num_pieces
    }

    /// Begins the download of metadata of the given size.
    ///
    /// There must be metadata, and not more than is acceptable.
    pub fn new(size: u32) -> (r: Result<MetadataDownload, Error>)
        ensures
            match r {
                Ok(download) => {
                    &&& 0 < size <= MAX_METADATA_SIZE
                    &&& download.valid()
                    &&& download.received() == 0
                    &&& download.content() == assembled(size as nat, Seq::empty())
                },
                Err(e) => if size == 0 {
                    e == Error::NoMetadata
                } else {
                    size > MAX_METADATA_SIZE && e == Error::MetadataTooLarge(size)
                },
            },
    {
        if size == 0 {
            return Err(Error::NoMetadata);
        }
        if size > MAX_METADATA_SIZE {
            return Err(Error::MetadataTooLarge(size));
        }
        let num_pieces: u32 = (size + METADATA_PIECE_SIZE - 1) / METADATA_PIECE_SIZE;
        Ok(MetadataDownload { num_pieces, next: 0, metadata: zeros(size as usize) })
    }

    /// The index of the piece to request next, unless all have arrived.
    pub fn next_piece(&self) -> (r: Option<u32>)
        requires
            self.valid(),
        ensures
            match r {
                Some(piece) => piece == self.received() && piece < metadata_pieces(
                    self.content().len() as int,
                ),
                None => self.received() == metadata_pieces(self.content().len() as int),
            },
    {
        if self.next < self.num_pieces {
            Some(self.next)
        } else {
            None
        }
    }

    /// Stores the piece that the peer sent, if it is the one that was requested.
    pub fn receive(&mut self, received_piece: u32, data: &[u8]) -> (r: Result<(), Error>)
        requires
            old(self).valid(),
            old(self).received() < metadata_pieces(old(self).content().len() as int),
        ensures
            final(self).valid(),
            match r {
                Ok(()) => {
                    &&& received_piece == old(self).received()
                    &&& final(self).received() == old(self).received() + 1
                    &&& final(self).content() == stored(
                        old(self).content(),
                        received_piece as int,
                        data@,
                    )
                },
                Err(e) => {
                    &&& received_piece != old(self).received()
                    &&& e == Error::WrongMetadataPiece
                    &&& *final(self) == *old(self)
                },
            },
    {
        if received_piece != self.next {
            return Err(Error::WrongMetadataPiece);
        }
        let offset: usize = (self.next * METADATA_PIECE_SIZE) as usize;
        let room: usize = self.metadata.len() - offset;
        let len: usize = if data.len() <= room {
            data.len()
        } else {
            room
        };
        let block = copy_range(data, 0, len);
        assert(block@ =~= if data@.len() <= room {
            data@
        } else {
            data@.take(room as int)
        });
        overwrite(&mut self.metadata, offset, &block);
        self.next = self.next + 1;
        Ok(())
    }

    /// The metadata, once all pieces have arrived.
    pub fn into_metadata(self) -> (r: Vec<u8>)
        ensures
            r@ == self.content(),
    {
        self.metadata
    }
}

} // verus!
