//! The worker that downloads pieces from a single peer.
//!
//! Each worker handles one peer: it connects and shakes hands, learns which pieces
//! the peer has, and then takes pieces from a shared queue, downloads and verifies
//! them, and delivers them. Here are its decisions. What they order (to connect, to
//! send, to wait) is done by the caller, who reports back what came of it.

use crate::bytes::{copy_range, overwritten, same_bytes};
use crate::client::{
    available, bit_value, block, block_begin, block_error, can_store, carries_block, fresh_client,
    law_available, law_choke_noted, law_pieces_noted, noted, Client, ClientView,
};
use crate::error::Error;
use crate::message::{
    Message, MESSAGE_CHOKE, MESSAGE_HAVE, MESSAGE_PIECE, MESSAGE_UNCHOKE,
};
use crate::peer::Peer;
use crate::piece::{PieceResult, PieceWork};
use vstd::multiset::Multiset;
use vstd::prelude::*;
use vstd::set_lib::{
    lemma_int_range, lemma_len_subset, lemma_set_disjoint_lens, lemma_subset_equality,
    set_int_range,
};

verus! {

/// Maximum number of concurrent block requests per peer.
pub const NB_REQUESTS_MAX: u32 = 5;

/// Size of the blocks in which pieces are requested, in bytes.
pub const BLOCK_SIZE_MAX: u32 = 16384;

/// How often shaking hands and reading the bitfield are attempted.
pub const MAX_RETRIES: u32 = 3;

/// How long to wait before another attempt, in seconds.
pub const RETRY_DELAY_SECS: u64 = 5;

/// Connection timeout while the worker gets in touch with the peer, in seconds.
pub const SETUP_TIMEOUT_SECS: u64 = 5;

/// Connection timeout while a piece is downloaded, in seconds.
pub const PIECE_TIMEOUT_SECS: u64 = 120;

/// Manages downloading from a single peer.
pub struct Worker {
    peer: Peer,
    peer_id: Vec<u8>,
    info_hash: Vec<u8>,
}

/// What a worker has ordered and waits for.
#[derive(Debug)]
pub enum Phase {
    /// The connection to the peer
    Connecting,
    /// The connection's timeout
    SettingTimeout,
    /// The handshake, after this many failures
    Handshaking(u32),
    /// A new connection for the handshake, after this many failures
    ReconnectingToHandshake(u32),
    /// The bitfield, after this many failures
    ReadingBitfield(u32),
    /// A new connection for the bitfield, after this many failures
    ReconnectingToReadBitfield(u32),
    /// That the unchoke message is sent
    SendingUnchoke,
    /// That the interested message is sent
    SendingInterested,
    /// A piece from the queue
    ReceivingWork,
    /// That a piece is back in the queue, to go on with another
    ReturningWork,
    /// That a piece is back in the queue, to stop then
    ReturningLastWork,
    /// The download of a piece
    Downloading,
    /// The hash of a piece
    Hashing,
    /// That the peer is told of this piece, which is to be delivered
    Announcing(PieceResult),
    /// That a piece is delivered
    Delivering,
    /// Nothing more
    Stopped,
}

/// What came of an order.
#[derive(Debug)]
pub enum Event {
    /// It was carried out.
    Done,
    /// It failed.
    Failed,
    /// This piece came from the queue.
    Work(PieceWork),
    /// The queue is closed.
    Closed,
    /// This piece was downloaded.
    Downloaded(PieceWork),
    /// The download of this piece failed.
    NotDownloaded(PieceWork),
    /// The data of this piece has this SHA-1 hash.
    Hashed(PieceWork, Vec<u8>),
}

/// An order of a worker.
#[derive(Debug)]
pub enum Action {
    /// Set read and write timeouts, in seconds.
    SetTimeout(u64),
    /// Shake hands with the peer.
    Handshake,
    /// Read the peer's bitfield.
    ReadBitfield,
    /// Wait for this many seconds, and connect anew.
    Reconnect(u64),
    /// Send the unchoke message.
    SendUnchoke,
    /// Send the interested message.
    SendInterested,
    /// Take a piece from the queue.
    ReceiveWork,
    /// Put this piece back into the queue.
    ReturnWork(PieceWork),
    /// Download this piece.
    Download(PieceWork),
    /// Hash the data of this piece.
    Hash(PieceWork),
    /// Tell the peer that this client has the piece with this index.
    SendHave(u32),
    /// Deliver this piece.
    Deliver(PieceResult),
    /// The worker is finished.
    Stop,
}

/// What came of an order during the download of a piece.
#[derive(Debug)]
pub enum TransferEvent {
    /// The download begins.
    Begin,
    /// The timeout is set.
    TimeoutSet,
    /// The request is sent.
    RequestSent,
    /// This message came from the peer.
    Received(Message),
}

/// An order during the download of a piece.
#[derive(Debug, PartialEq, Eq)]
pub enum TransferAction {
    /// Set read and write timeouts, in seconds.
    SetTimeout(u64),
    /// Request this block.
    SendRequest { index: u32, begin: u32, length: u32 },
    /// Read a message.
    ReadMessage,
    /// The piece is downloaded.
    Complete,
}

/// Whether `event` can come of what a worker waits for.
pub open spec fn expected(phase: Phase, event: Event) -> bool {
    match phase {
        Phase::Handshaking(failures) => failures < MAX_RETRIES && (event is Done || event
            is Failed),
        Phase::ReadingBitfield(failures) => failures < MAX_RETRIES && (event is Done || event
            is Failed),
        Phase::ReceivingWork => event is Work || event is Closed,
        Phase::Downloading => event is Downloaded || event is NotDownloaded,
        Phase::Hashing => event is Hashed,
        Phase::Stopped => false,
        _ => event is Done || event is Failed,
    }
}

/// The next phase and order of a worker.
pub open spec fn next(client: ClientView, phase: Phase, event: Event) -> (Phase, Action) {
    let ok = event is Done;
    let stop = (Phase::Stopped, Action::Stop);
    let receive = (Phase::ReceivingWork, Action::ReceiveWork);
    match phase {
        Phase::Connecting => if ok {
            (Phase::SettingTimeout, Action::SetTimeout(SETUP_TIMEOUT_SECS))
        } else {
            stop
        },
        Phase::SettingTimeout => if ok {
            (Phase::Handshaking(0), Action::Handshake)
        } else {
            stop
        },
        Phase::Handshaking(failures) => if ok {
            (Phase::ReadingBitfield(0), Action::ReadBitfield)
        } else if failures + 1 < MAX_RETRIES {
            (
                Phase::ReconnectingToHandshake((failures + 1) as u32),
                Action::Reconnect(RETRY_DELAY_SECS),
            )
        } else {
            stop
        },
        Phase::ReconnectingToHandshake(failures) => (
            Phase::Handshaking(failures),
            Action::Handshake,
        ),
        Phase::ReadingBitfield(failures) => if ok {
            (Phase::SendingUnchoke, Action::SendUnchoke)
        } else if failures + 1 < MAX_RETRIES {
            (
                Phase::ReconnectingToReadBitfield((failures + 1) as u32),
                Action::Reconnect(RETRY_DELAY_SECS),
            )
        } else {
            stop
        },
        Phase::ReconnectingToReadBitfield(failures) => (
            Phase::ReadingBitfield(failures),
            Action::ReadBitfield,
        ),
        Phase::SendingUnchoke => if ok {
            (Phase::SendingInterested, Action::SendInterested)
        } else {
            stop
        },
        Phase::SendingInterested => if ok {
            receive
        } else {
            stop
        },
        Phase::ReceivingWork => match event {
            Event::Work(work) => if available(client.bitfield, work.index as nat) {
                (Phase::Downloading, Action::Download(work))
            } else {
                (Phase::ReturningWork, Action::ReturnWork(work))
            },
            _ => stop,
        },
        Phase::ReturningWork => if ok {
            receive
        } else {
            stop
        },
        Phase::ReturningLastWork => stop,
        Phase::Downloading => match event {
            Event::Downloaded(work) => (Phase::Hashing, Action::Hash(work)),
            Event::NotDownloaded(work) => (Phase::ReturningLastWork, Action::ReturnWork(work)),
            _ => stop,
        },
        Phase::Hashing => match event {
            Event::Hashed(work, digest) => if digest@ == work.hash@ {
                (Phase::Announcing(finished(work)), Action::SendHave(work.index))
            } else {
                (Phase::ReturningWork, Action::ReturnWork(work))
            },
            _ => stop,
        },
        Phase::Announcing(result) => (Phase::Delivering, Action::Deliver(result)),
        Phase::Delivering => if ok {
            receive
        } else {
            stop
        },
        Phase::Stopped => stop,
    }
}

/// The result that a piece gives.
pub open spec fn finished(work: PieceWork) -> PieceResult {
    PieceResult { index: work.index, length: work.length, data: work.data }
}

/// The size of the next block to request.
pub open spec fn block_size(work: PieceWork) -> u32 {
    if work.length - work.requested < BLOCK_SIZE_MAX {
        (work.length - work.requested) as u32
    } else {
        BLOCK_SIZE_MAX
    }
}

/// Whether another block is to be requested now.
pub open spec fn may_request(client: ClientView, work: PieceWork) -> bool {
    !client.choked && work.requests < NB_REQUESTS_MAX && work.requested < work.length
}

/// The next order during the download of a piece.
pub open spec fn next_transfer(client: ClientView, work: PieceWork) -> TransferAction {
    if work.downloaded >= work.length {
        TransferAction::Complete
    } else if may_request(client, work) {
        TransferAction::SendRequest {
            index: work.index,
            begin: work.requested,
            length: block_size(work),
        }
    } else {
        TransferAction::ReadMessage
    }
}

/// The download of a piece is complete just when as many bytes have arrived as the piece
/// has. Until then a block is requested whenever the peer takes requests, fewer than five
/// wait and some of the piece is not requested yet; otherwise the next message is read.
pub proof fn law_next_transfer(client: ClientView, work: PieceWork)
    ensures
        next_transfer(client, work) is Complete <==> work.downloaded >= work.length,
        next_transfer(client, work) is SendRequest <==> work.downloaded < work.length
            && !client.choked && work.requests < 5 && work.requested < work.length,
        next_transfer(client, work) is ReadMessage <==> work.downloaded < work.length && (
        client.choked || work.requests >= 5 || work.requested >= work.length),
{
}

/// A request is for the next bytes of the piece that are not requested yet: 16 KiB of
/// them, or all there are. Once it is sent, it waits for its answer, and those bytes count
/// as requested; nothing else about the piece changes.
pub proof fn law_request_sent(client: ClientView, work: PieceWork)
    requires
        next_transfer(client, work) is SendRequest,
    ensures
        next_transfer(client, work) matches TransferAction::SendRequest { index, begin, length } && {
            &&& index == work.index
            &&& begin == work.requested
            &&& length == if work.length - work.requested < 16384 {
                work.length - work.requested
            } else {
                16384
            }
            &&& after_request(work).requested == work.requested + length
            &&& after_request(work).requests == work.requests + 1
        },
        may_request(client, work),
        after_request(work).index == work.index,
        after_request(work).hash == work.hash,
        after_request(work).length == work.length,
        after_request(work).data == work.data,
        after_request(work).downloaded == work.downloaded,
{
}

/// A download begins with nothing requested and nothing arrived; which piece it is, and
/// its data, stay.
pub proof fn law_reset(work: PieceWork)
    ensures
        reset(work).requests == 0,
        reset(work).requested == 0,
        reset(work).downloaded == 0,
        reset(work).index == work.index,
        reset(work).hash == work.hash,
        reset(work).length == work.length,
        reset(work).data == work.data,
{
}

/// The numbers by which a worker goes.
pub proof fn law_worker_numbers()
    ensures
        NB_REQUESTS_MAX == 5,
        BLOCK_SIZE_MAX == 16 * 1024,
        MAX_RETRIES == 3,
        RETRY_DELAY_SECS == 5,
        SETUP_TIMEOUT_SECS == 5,
        PIECE_TIMEOUT_SECS == 120,
{
}

/// The piece with its counters at zero.
pub open spec fn reset(work: PieceWork) -> PieceWork {
    PieceWork { requests: 0, requested: 0, downloaded: 0, ..work }
}

/// The piece after one more block was requested.
pub open spec fn after_request(work: PieceWork) -> PieceWork {
    PieceWork {
        requests: (work.requests + 1) as u32,
        requested: (work.requested + block_size(work)) as u32,
        ..work
    }
}

/// Whether `after` is `work` once the block of a message is stored.
pub open spec fn block_stored(work: PieceWork, payload: Seq<u8>, after: PieceWork) -> bool {
    &&& after.data@ == overwritten(work.data@, block_begin(payload), block(payload))
    &&& after == PieceWork {
        data: after.data,
        requests: (work.requests - 1) as u32,
        downloaded: (work.downloaded + block(payload).len()) as u32,
        ..work
    }
}

/// The error in a message during the download of a piece, if there is one.
pub open spec fn message_error(id: u8, payload: Seq<u8>, work: PieceWork) -> Option<Error> {
    if id == MESSAGE_HAVE && payload.len() != 4 {
        Some(Error::InvalidHaveMessage)
    } else if id == MESSAGE_PIECE && !carries_block(id, payload, work) {
        Some(block_error(id, payload, work))
    } else {
        None
    }
}

/// The client after a message during the download of a piece.
pub open spec fn heard(client: ClientView, id: u8, payload: Seq<u8>) -> ClientView {
    if id == MESSAGE_CHOKE || id == MESSAGE_UNCHOKE || id == MESSAGE_HAVE {
        noted(client, id, payload)
    } else {
        client
    }
}

/// Getting in touch with a peer, when all goes well: connect, set timeouts of five
/// seconds, shake hands, read the bitfield, say unchoke and interested, and ask for a
/// piece.
pub proof fn law_setup(clients: Seq<ClientView>)
    requires
        clients.len() >= 6,
    ensures
        ({
            let (p1, a1) = next(clients[0], Phase::Connecting, Event::Done);
            let (p2, a2) = next(clients[1], p1, Event::Done);
            let (p3, a3) = next(clients[2], p2, Event::Done);
            let (p4, a4) = next(clients[3], p3, Event::Done);
            let (p5, a5) = next(clients[4], p4, Event::Done);
            let (p6, a6) = next(clients[5], p5, Event::Done);
            &&& a1 == Action::SetTimeout(5)
            &&& a2 == Action::Handshake
            &&& a3 == Action::ReadBitfield
            &&& a4 == Action::SendUnchoke
            &&& a5 == Action::SendInterested
            &&& a6 == Action::ReceiveWork
            &&& p6 is ReceivingWork
        }),
{
}

/// When connecting, setting the timeouts, or sending unchoke or interested fails, the
/// worker stops; so it does when the queue is closed, or when a piece cannot be put back
/// or delivered.
pub proof fn law_failure_stops(client: ClientView, phase: Phase)
    requires
        phase is Connecting || phase is SettingTimeout || phase is SendingUnchoke || phase
            is SendingInterested || phase is ReturningWork || phase is Delivering,
    ensures
        next(client, phase, Event::Failed) == (Phase::Stopped, Action::Stop),
        next(client, Phase::ReceivingWork, Event::Closed) == (Phase::Stopped, Action::Stop),
{
}

/// An attempt to shake hands that fails is repeated after five seconds on a new
/// connection, whether or not that could be made, until the third has failed. As soon as
/// one succeeds, the worker goes on to read the bitfield.
pub proof fn law_handshake_retried(
    before: ClientView,
    between: ClientView,
    failures: u32,
    reconnected: bool,
)
    requires
        failures < 3,
    ensures
        ({
            let event = if reconnected {
                Event::Done
            } else {
                Event::Failed
            };
            let (waiting, order) = next(before, Phase::Handshaking(failures), Event::Failed);
            let (again, retry) = next(between, waiting, event);
            let (on, go_on) = next(before, Phase::Handshaking(failures), Event::Done);
            &&& go_on == Action::ReadBitfield
            &&& on == Phase::ReadingBitfield(0)
            &&& failures < 2 ==> {
                &&& order == Action::Reconnect(5)
                &&& retry == Action::Handshake
                &&& again == Phase::Handshaking((failures + 1) as u32)
            }
            &&& failures == 2 ==> order == Action::Stop && waiting is Stopped
        }),
{
}

/// An attempt to read the bitfield that fails is repeated in the same way. As soon as one
/// succeeds, the worker goes on to say unchoke.
pub proof fn law_bitfield_retried(
    before: ClientView,
    between: ClientView,
    failures: u32,
    reconnected: bool,
)
    requires
        failures < 3,
    ensures
        ({
            let event = if reconnected {
                Event::Done
            } else {
                Event::Failed
            };
            let (waiting, order) = next(before, Phase::ReadingBitfield(failures), Event::Failed);
            let (again, retry) = next(between, waiting, event);
            let (on, go_on) = next(before, Phase::ReadingBitfield(failures), Event::Done);
            &&& go_on == Action::SendUnchoke
            &&& on is SendingUnchoke
            &&& failures < 2 ==> {
                &&& order == Action::Reconnect(5)
                &&& retry == Action::ReadBitfield
                &&& again == Phase::ReadingBitfield((failures + 1) as u32)
            }
            &&& failures == 2 ==> order == Action::Stop && waiting is Stopped
        }),
{
}

/// A piece that comes from the queue is downloaded just when the peer has it, by the bit
/// that stands for it in the peer's bitfield; otherwise it is put back at once, and the
/// worker asks for another.
pub proof fn law_piece_chosen(client: ClientView, later: ClientView, work: PieceWork)
    ensures
        ({
            let index = work.index as nat;
            let has_it = index < 8 * client.bitfield.len() && client.bitfield[(index
                / 8) as int] as int / bit_value(index) % 2 == 1;
            let (after, action) = next(client, Phase::ReceivingWork, Event::Work(work));
            &&& has_it ==> action == Action::Download(work) && after is Downloading
            &&& !has_it ==> {
                &&& action == Action::ReturnWork(work)
                &&& next(later, after, Event::Done) == (
                    Phase::ReceivingWork,
                    Action::ReceiveWork,
                )
            }
        }),
{
    law_available(client.bitfield, work.index as nat);
}

/// A piece that was downloaded is hashed. If its hash is the one it is to have, the peer
/// is told of it and, whether or not that worked, it is delivered with the index, length
/// and data that it has; then the worker asks for another. If not, it is put back, and
/// the worker asks for another.
pub proof fn law_piece_finished(
    c1: ClientView,
    c2: ClientView,
    c3: ClientView,
    c4: ClientView,
    work: PieceWork,
    hash: Vec<u8>,
    told: bool,
)
    ensures
        ({
            let (hashing, order) = next(c1, Phase::Downloading, Event::Downloaded(work));
            let (after, verdict) = next(c2, hashing, Event::Hashed(work, hash));
            let event = if told {
                Event::Done
            } else {
                Event::Failed
            };
            let (last, delivery) = next(c3, after, event);
            &&& order == Action::Hash(work)
            &&& hash@ == work.hash@ ==> {
                &&& verdict == Action::SendHave(work.index)
                &&& delivery matches Action::Deliver(result) && result.index == work.index
                    && result.length == work.length && result.data@ == work.data@
                &&& next(c4, last, Event::Done) == (Phase::ReceivingWork, Action::ReceiveWork)
            }
            &&& hash@ != work.hash@ ==> {
                &&& verdict == Action::ReturnWork(work)
                &&& next(c3, after, Event::Done) == (Phase::ReceivingWork, Action::ReceiveWork)
            }
        }),
{
}

/// A piece whose download failed is put back, and then the worker stops.
pub proof fn law_download_failed(
    client: ClientView,
    later: ClientView,
    work: PieceWork,
    event: Event,
)
    requires
        event is Done || event is Failed,
    ensures
        ({
            let (after, action) = next(client, Phase::Downloading, Event::NotDownloaded(work));
            &&& action == Action::ReturnWork(work)
            &&& next(later, after, event) == (Phase::Stopped, Action::Stop)
        }),
{
}

/// Whatever a worker orders, it takes every answer that the order can have.
pub proof fn law_answers_expected(
    client: ClientView,
    phase: Phase,
    event: Event,
    work: PieceWork,
    hash: Vec<u8>,
)
    requires
        expected(phase, event),
        phase matches Phase::ReconnectingToHandshake(failures) ==> failures < 3,
        phase matches Phase::ReconnectingToReadBitfield(failures) ==> failures < 3,
    ensures
        ({
            let (after, action) = next(client, phase, event);
            &&& after matches Phase::ReconnectingToHandshake(failures) ==> failures < 3
            &&& after matches Phase::ReconnectingToReadBitfield(failures) ==> failures < 3
            &&& match action {
                Action::Stop => after is Stopped,
                Action::ReceiveWork => expected(after, Event::Work(work)) && expected(
                    after,
                    Event::Closed,
                ),
                Action::Download(_) => expected(after, Event::Downloaded(work)) && expected(
                    after,
                    Event::NotDownloaded(work),
                ),
                Action::Hash(_) => expected(after, Event::Hashed(work, hash)),
                _ => expected(after, Event::Done) && expected(after, Event::Failed),
            }
        }),
{
}

/// A block that is stored counts as arrived, byte for byte, and its request as answered;
/// which piece it is and what is requested stays.
pub proof fn law_block_counted(work: PieceWork, payload: Seq<u8>, after: PieceWork)
    requires
        carries_block(7, payload, work),
        can_store(7, payload, work),
        block_stored(work, payload, after),
    ensures
        after.downloaded == work.downloaded + (payload.len() - 8),
        after.requests + 1 == work.requests,
        after.requested == work.requested,
        after.index == work.index,
        after.hash == work.hash,
        after.length == work.length,
{
}

/// During the download of a piece a message is an error just when it announces a piece
/// without saying which in four bytes, or brings a block that is not one of this piece.
pub proof fn law_message_error(id: u8, payload: Seq<u8>, work: PieceWork)
    ensures
        message_error(id, payload, work) is Some <==> ((id == 4 && payload.len() != 4) || (id == 7
            && !carries_block(7, payload, work))),
        id == 4 && payload.len() != 4 ==> message_error(id, payload, work) == Some(
            Error::InvalidHaveMessage,
        ),
        id == 7 && !carries_block(7, payload, work) ==> message_error(id, payload, work) == Some(
            block_error(7, payload, work),
        ),
{
}

/// During the download of a piece, only choke, unchoke and have messages change what is
/// known of the peer, and they do so as at any other time.
pub proof fn law_heard(client: ClientView, id: u8, payload: Seq<u8>, index: nat)
    ensures
        heard(client, id, payload).choked == (id == 0 || (id != 1 && client.choked)),
        available(heard(client, id, payload).bitfield, index) == (available(
            client.bitfield,
            index,
        ) || (id == 4 && payload.len() == 4 && index == payload[0] * 0x100_0000 + payload[1]
            * 0x1_0000 + payload[2] * 0x100 + payload[3])),
        id != 4 ==> heard(client, id, payload).bitfield == client.bitfield,
        heard(client, id, payload) == (ClientView {
            choked: heard(client, id, payload).choked,
            bitfield: heard(client, id, payload).bitfield,
            ..client
        }),
{
    if id == 4 {
        law_pieces_noted(client, id, payload, index);
    }
    law_choke_noted(client, id, payload);
}

/// The phase of a worker after a series of events, each with the state of the
/// client at that time.
pub open spec fn phase_after(steps: Seq<(ClientView, Event)>) -> Phase
    decreases steps.len(),
{
    if steps.len() == 0 {
        Phase::Connecting
    } else {
        next(steps.last().0, phase_after(steps.drop_last()), steps.last().1).0
    }
}

/// The order that the last of a series of events leads to.
pub open spec fn last_action(steps: Seq<(ClientView, Event)>) -> Action {
    next(steps.last().0, phase_after(steps.drop_last()), steps.last().1).1
}

/// Whether each of a series of events can come of what the worker waits for.
pub open spec fn possible(steps: Seq<(ClientView, Event)>) -> bool
    decreases steps.len(),
{
    steps.len() > 0 ==> {
        &&& possible(steps.drop_last())
        &&& expected(phase_after(steps.drop_last()), steps.last().1)
    }
}

/// How many orders during a series of events satisfy `p`.
pub open spec fn ordered(steps: Seq<(ClientView, Event)>, p: spec_fn(Action) -> bool) -> nat
    decreases steps.len(),
{
    if steps.len() == 0 {
        0
    } else {
        ordered(steps.drop_last(), p) + if p(last_action(steps)) {
            1nat
        } else {
            0nat
        }
    }
}

/// How many pieces came from the queue during a series of events.
pub open spec fn taken(steps: Seq<(ClientView, Event)>) -> nat
    decreases steps.len(),
{
    if steps.len() == 0 {
        0
    } else {
        taken(steps.drop_last()) + if steps.last().1 is Work {
            1nat
        } else {
            0nat
        }
    }
}

/// Whether a worker in this phase is busy with a piece.
pub open spec fn busy(phase: Phase) -> bool {
    phase is Downloading || phase is Hashing || phase is Announcing
}

/// How many handshakes may still be ordered.
spec fn handshakes_left(phase: Phase) -> int {
    match phase {
        Phase::Connecting | Phase::SettingTimeout => MAX_RETRIES as int,
        Phase::Handshaking(failures) => MAX_RETRIES - failures - 1,
        Phase::ReconnectingToHandshake(failures) => MAX_RETRIES - failures,
        _ => 0,
    }
}

/// How often reading the bitfield may still be ordered.
spec fn bitfields_left(phase: Phase) -> int {
    match phase {
        Phase::Connecting | Phase::SettingTimeout => MAX_RETRIES as int,
        Phase::Handshaking(_) | Phase::ReconnectingToHandshake(_) => MAX_RETRIES as int,
        Phase::ReadingBitfield(failures) => MAX_RETRIES - failures - 1,
        Phase::ReconnectingToReadBitfield(failures) => MAX_RETRIES - failures,
        _ => 0,
    }
}

proof fn lemma_attempts(steps: Seq<(ClientView, Event)>)
    requires
        possible(steps),
    ensures
        ordered(steps, |a: Action| a is Handshake) + handshakes_left(phase_after(steps))
            <= MAX_RETRIES,
        handshakes_left(phase_after(steps)) >= 0,
        ordered(steps, |a: Action| a is ReadBitfield) + bitfields_left(phase_after(steps))
            <= MAX_RETRIES,
        bitfields_left(phase_after(steps)) >= 0,
    decreases steps.len(),
{
    if steps.len() > 0 {
        lemma_attempts(steps.drop_last());
    }
}

/// A worker orders no more than three handshakes and no more than three attempts to
/// read the bitfield, whatever happens.
pub proof fn law_attempts_bounded(steps: Seq<(ClientView, Event)>)
    requires
        possible(steps),
    ensures
        ordered(steps, |a: Action| a is Handshake) <= 3,
        ordered(steps, |a: Action| a is ReadBitfield) <= 3,
{
    lemma_attempts(steps);
}

/// No piece gets lost: as many as came from the queue have been put back or delivered,
/// but for the one that the worker is busy with.
pub proof fn law_pieces_counted(steps: Seq<(ClientView, Event)>)
    requires
        possible(steps),
    ensures
        taken(steps) == ordered(steps, |a: Action| a is ReturnWork) + ordered(
            steps,
            |a: Action| a is Deliver,
        ) + if busy(phase_after(steps)) {
            1nat
        } else {
            0nat
        },
    decreases steps.len(),
{
    if steps.len() > 0 {
        law_pieces_counted(steps.drop_last());
    }
}

/// Whether an order puts the piece with this index back into the queue.
pub open spec fn puts_back(index: u32) -> spec_fn(Action) -> bool {
    |action: Action| action matches Action::ReturnWork(work) && work.index == index
}

/// Whether an order delivers the piece with this index.
pub open spec fn delivers(index: u32) -> spec_fn(Action) -> bool {
    |action: Action| action matches Action::Deliver(result) && result.index == index
}

/// How often the piece with this index came from the queue during a series of events.
pub open spec fn taken_piece(steps: Seq<(ClientView, Event)>, index: u32) -> nat
    decreases steps.len(),
{
    if steps.len() == 0 {
        0
    } else {
        taken_piece(steps.drop_last(), index) + match steps.last().1 {
            Event::Work(work) if work.index == index => 1nat,
            _ => 0nat,
        }
    }
}

/// The index of the piece that a worker holds after a series of events: the one it has
/// ordered to download, to hash or to announce.
pub open spec fn held_piece(steps: Seq<(ClientView, Event)>) -> Option<u32> {
    if steps.len() == 0 {
        None
    } else {
        match last_action(steps) {
            Action::Download(work) => Some(work.index),
            Action::Hash(work) => Some(work.index),
            Action::SendHave(index) => Some(index),
            _ => None,
        }
    }
}

/// Whether `work` is the piece that was ordered to be downloaded, whatever has become of
/// its data and counters.
pub open spec fn same_piece(ordered_work: PieceWork, work: PieceWork) -> bool {
    &&& work.index == ordered_work.index
    &&& work.length == ordered_work.length
    &&& work.hash@ == ordered_work.hash@
    &&& work.data@.len() == ordered_work.data@.len()
}

/// Whether each event of a series brings back the piece that was ordered: from a
/// download the same piece with other data, from hashing the piece as it was.
pub open spec fn faithful(steps: Seq<(ClientView, Event)>) -> bool
    decreases steps.len(),
{
    steps.len() > 0 ==> {
        &&& faithful(steps.drop_last())
        &&& match steps.last().1 {
            Event::Downloaded(work) => last_action(steps.drop_last()) matches Action::Download(o)
                && same_piece(o, work),
            Event::NotDownloaded(work) => last_action(steps.drop_last()) matches Action::Download(o)
                && same_piece(o, work),
            Event::Hashed(work, _) => last_action(steps.drop_last()) == Action::Hash(work),
            _ => true,
        }
    }
}

/// When each event brings back the piece that was ordered, no piece gets lost or
/// exchanged: each was taken from the queue as often as it was put back, delivered or is
/// held.
pub proof fn law_pieces_conserved(steps: Seq<(ClientView, Event)>, index: u32)
    requires
        possible(steps),
        faithful(steps),
    ensures
        taken_piece(steps, index) == ordered(steps, puts_back(index)) + ordered(
            steps,
            delivers(index),
        ) + if held_piece(steps) == Some(index) {
            1nat
        } else {
            0nat
        },
    decreases steps.len(),
{
    if steps.len() > 0 {
        let before = steps.drop_last();
        law_pieces_conserved(before, index);
        lemma_held_piece(before);
        lemma_held_piece(steps);
    }
}

/// A worker holds a piece just when it is busy with one, and the one it is about to
/// deliver is the one it holds.
proof fn lemma_held_piece(steps: Seq<(ClientView, Event)>)
    requires
        possible(steps),
    ensures
        busy(phase_after(steps)) == held_piece(steps) is Some,
        phase_after(steps) matches Phase::Announcing(result) ==> held_piece(steps) == Some(
            result.index,
        ),
{
}

/// A piece that an event brings is passed on as it is: downloaded, hashed, put back,
/// or kept for delivery.
pub proof fn law_piece_passed_on(client: ClientView, phase: Phase, event: Event)
    requires
        expected(phase, event),
    ensures
        ({
            let (after, action) = next(client, phase, event);
            match event {
                Event::Work(work) => action == Action::Download(work) || action
                    == Action::ReturnWork(work),
                Event::Downloaded(work) => action == Action::Hash(work),
                Event::NotDownloaded(work) => action == Action::ReturnWork(work),
                Event::Hashed(work, _) => action == Action::ReturnWork(work) || after
                    == Phase::Announcing(finished(work)),
                _ => phase matches Phase::Announcing(result) ==> action == Action::Deliver(result),
            }
        }),
{
}

/// A worker orders the download of a piece only if the peer has it.
pub proof fn law_download_available(steps: Seq<(ClientView, Event)>, work: PieceWork)
    requires
        steps.len() > 0,
        possible(steps),
        last_action(steps) == Action::Download(work),
    ensures
        available(steps.last().0.bitfield, work.index as nat),
{
}

/// What a worker delivers is a piece whose hash was right, just before the peer was
/// told of it.
pub proof fn law_delivered_verified(steps: Seq<(ClientView, Event)>, result: PieceResult)
    requires
        steps.len() > 0,
        possible(steps),
        last_action(steps) == Action::Deliver(result),
    ensures
        steps.len() >= 2,
        steps[steps.len() - 2].1 matches Event::Hashed(work, digest) && digest@ == work.hash@
            && result == finished(work),
{
    let before = steps.drop_last();
    assert(phase_after(before) == Phase::Announcing(result));
    assert(before.len() > 0);
    assert(before.last() == steps[steps.len() - 2]);
}

proof fn lemma_prefix(steps: Seq<(ClientView, Event)>, n: int)
    requires
        possible(steps),
        faithful(steps),
        0 <= n <= steps.len(),
    ensures
        possible(steps.take(n)),
        faithful(steps.take(n)),
    decreases steps.len() - n,
{
    if n < steps.len() {
        lemma_prefix(steps, n + 1);
        assert(steps.take(n + 1).drop_last() =~= steps.take(n));
    } else {
        assert(steps.take(n) =~= steps);
    }
}

/// Whether each hash among a series of events is the digest of the piece's data.
pub open spec fn hashed_by(
    steps: Seq<(ClientView, Event)>,
    digest: spec_fn(Seq<u8>) -> Seq<u8>,
) -> bool {
    forall|i: int|
        0 <= i < steps.len() ==> ((#[trigger] steps[i]).1 matches Event::Hashed(work, hash) ==> hash@
            == digest(work.data@))
}

/// Whether `result` is what the piece `work` from the queue was to become: it has the
/// index and length of that piece, as much data as that piece has room for, and these
/// data have its hash.
pub open spec fn stems_from(
    result: PieceResult,
    work: PieceWork,
    digest: spec_fn(Seq<u8>) -> Seq<u8>,
) -> bool {
    &&& result.index == work.index
    &&& result.length == work.length
    &&& result.data@.len() == work.data@.len()
    &&& digest(result.data@) == work.hash@
}

/// When each event brings back the piece that was ordered, a piece that is delivered
/// stems from one that came from the queue three events before, and the hash that was
/// found for it is the one that this piece was to have.
pub proof fn law_delivered_from_queue(
    steps: Seq<(ClientView, Event)>,
    i: int,
    result: PieceResult,
    digest: spec_fn(Seq<u8>) -> Seq<u8>,
)
    requires
        possible(steps),
        faithful(steps),
        hashed_by(steps, digest),
        0 <= i < steps.len(),
        last_action(steps.take(i + 1)) == Action::Deliver(result),
    ensures
        i >= 3,
        steps[i - 3].1 matches Event::Work(work) && stems_from(result, work, digest) && (
        steps[i - 1].1 matches Event::Hashed(_, hash) && hash@ == work.hash@),
{
    let s4 = steps.take(i + 1);
    let s3 = s4.drop_last();
    let s2 = s3.drop_last();
    let s1 = s2.drop_last();
    lemma_prefix(steps, i + 1);
    assert(phase_after(s3) == Phase::Announcing(result));
    assert(s3.last() == steps[i - 1]);
    assert(possible(s3) && faithful(s3));
    assert(phase_after(s2) is Hashing);
    assert(s2.last() == steps[i - 2]);
    assert(possible(s2) && faithful(s2));
    assert(phase_after(s1) is Downloading);
    assert(s1.last() == steps[i - 3]);
    assert(possible(s1));
    let hashed = steps[i - 1].1->Hashed_0;
    let taken = steps[i - 3].1->Work_0;
    assert(steps[i - 1].1 is Hashed && result == finished(hashed));
    assert(last_action(s2) == Action::Hash(hashed));
    assert(steps[i - 2].1 == Event::Downloaded(hashed));
    assert(last_action(s1) == Action::Download(taken));
    assert(same_piece(taken, hashed));
}

/// The indices in the queue after a series of events: pieces that came from it are
/// gone, and pieces that were put back are there again.
pub open spec fn queue_after(
    queue: Multiset<u32>,
    steps: Seq<(ClientView, Event)>,
) -> Multiset<u32>
    decreases steps.len(),
{
    if steps.len() == 0 {
        queue
    } else {
        let before = queue_after(queue, steps.drop_last());
        let taken = match steps.last().1 {
            Event::Work(work) => before.remove(work.index),
            _ => before,
        };
        match last_action(steps) {
            Action::ReturnWork(work) => taken.insert(work.index),
            _ => taken,
        }
    }
}

/// The indices among the results after a series of events.
pub open spec fn results_after(
    results: Multiset<u32>,
    steps: Seq<(ClientView, Event)>,
) -> Multiset<u32>
    decreases steps.len(),
{
    if steps.len() == 0 {
        results
    } else {
        let before = results_after(results, steps.drop_last());
        match last_action(steps) {
            Action::Deliver(result) => before.insert(result.index),
            _ => before,
        }
    }
}

/// Whether each piece that came from the queue was in it.
pub open spec fn drawn_from(queue: Multiset<u32>, steps: Seq<(ClientView, Event)>) -> bool
    decreases steps.len(),
{
    steps.len() > 0 ==> {
        &&& drawn_from(queue, steps.drop_last())
        &&& steps.last().1 matches Event::Work(work) ==> queue_after(
            queue,
            steps.drop_last(),
        ).count(work.index) > 0
    }
}

/// The index that a worker holds, if it holds a piece.
pub open spec fn held_indices(steps: Seq<(ClientView, Event)>) -> Multiset<u32> {
    match held_piece(steps) {
        Some(index) => Multiset::singleton(index),
        None => Multiset::empty(),
    }
}

/// The queue, the results and what the worker holds have together the pieces that the
/// queue and the results had before; a worker that has stopped holds none.
pub proof fn law_queues_conserved(
    queue: Multiset<u32>,
    results: Multiset<u32>,
    steps: Seq<(ClientView, Event)>,
)
    requires
        possible(steps),
        faithful(steps),
        drawn_from(queue, steps),
    ensures
        queue_after(queue, steps).add(results_after(results, steps)).add(held_indices(steps))
            == queue.add(results),
        phase_after(steps) is Stopped ==> queue_after(queue, steps).add(
            results_after(results, steps),
        ) == queue.add(results),
    decreases steps.len(),
{
    let q = queue_after(queue, steps);
    let r = results_after(results, steps);
    let all = queue.add(results);
    if steps.len() > 0 {
        let before = steps.drop_last();
        law_queues_conserved(queue, results, before);
        lemma_held_piece(before);
        lemma_held_piece(steps);
        let q0 = queue_after(queue, before);
        let r0 = results_after(results, before);
        assert forall|x: u32| #[trigger]
            q.count(x) + r.count(x) + held_indices(steps).count(x) == all.count(x) by {
            assert(q0.add(r0).add(held_indices(before)).count(x) == all.count(x));
        }
    }
    assert(q.add(r).add(held_indices(steps)) =~= all);
    if phase_after(steps) is Stopped {
        lemma_held_piece(steps);
        assert(q.add(r).add(held_indices(steps)) =~= q.add(r));
    }
}

/// Whether a piece and its counters are in order: the buffer has the size of the piece,
/// at most five requests wait, and the piece is requested up to a block boundary, or in
/// full.
pub open spec fn transfer_valid(work: PieceWork) -> bool {
    &&& work.valid()
    &&& work.requests <= NB_REQUESTS_MAX
    &&& work.requested % BLOCK_SIZE_MAX == 0 || work.requested == work.length
}

/// A piece stays in order, whatever happens during its download, and fits into the data
/// when it is finished.
pub proof fn law_transfer_valid(
    client: ClientView,
    work: PieceWork,
    payload: Seq<u8>,
    after: PieceWork,
)
    ensures
        work.valid() ==> transfer_valid(reset(work)),
        transfer_valid(work) && may_request(client, work) ==> transfer_valid(after_request(work)),
        transfer_valid(work) && can_store(MESSAGE_PIECE, payload, work) && carries_block(
            MESSAGE_PIECE,
            payload,
            work,
        ) && block_stored(work, payload, after) ==> transfer_valid(after),
        work.valid() ==> finished(work).data@.len() == finished(work).length,
{
}

/// The requests cover the piece without a gap or an overlap: each begins where the
/// one before ended, is not empty, is at most one block long, and stays within the
/// piece.
pub proof fn law_requests_tile(client: ClientView, work: PieceWork)
    requires
        transfer_valid(work),
        next_transfer(client, work) is SendRequest,
    ensures
        next_transfer(client, work) matches TransferAction::SendRequest { index, begin, length } && {
            &&& index == work.index
            &&& begin == work.requested
            &&& 0 < length <= BLOCK_SIZE_MAX
            &&& begin + length <= work.length
            &&& after_request(work).requested == begin + length
            &&& length == BLOCK_SIZE_MAX || begin + length == work.length
        },
{
}

/// A block that is right ends up in its place: where the piece was right or the block
/// reaches, the piece is right afterwards.
pub proof fn law_block_in_place(
    content: Seq<u8>,
    work: PieceWork,
    payload: Seq<u8>,
    after: PieceWork,
    i: int,
)
    requires
        content.len() == work.length == work.data@.len(),
        carries_block(MESSAGE_PIECE, payload, work),
        block(payload) == content.subrange(
            block_begin(payload),
            block_begin(payload) + block(payload).len(),
        ),
        block_stored(work, payload, after),
        0 <= i < content.len(),
        work.data@[i] == content[i] || block_begin(payload) <= i < block_begin(payload) + block(
            payload,
        ).len(),
    ensures
        after.data@.len() == content.len(),
        after.data@[i] == content[i],
{
    let begin = block_begin(payload);
    if begin <= i < begin + block(payload).len() {
        assert(after.data@[i] == block(payload)[i - begin]);
    }
}

/// How many requests a piece of this length takes.
pub open spec fn request_count(length: int) -> int {
    (length + BLOCK_SIZE_MAX - 1) / BLOCK_SIZE_MAX as int
}

/// Where the `k`-th request begins.
pub open spec fn request_begin(k: int) -> int {
    k * BLOCK_SIZE_MAX
}

/// How many bytes the `k`-th request for a piece of this length asks for.
pub open spec fn request_size(length: int, k: int) -> int {
    if length - request_begin(k) < BLOCK_SIZE_MAX {
        length - request_begin(k)
    } else {
        BLOCK_SIZE_MAX as int
    }
}

/// How much of a piece is requested by its first `k` requests.
pub open spec fn requested_by(length: int, k: int) -> int {
    if request_begin(k) < length {
        request_begin(k)
    } else {
        length
    }
}

/// A piece with nothing requested has made no request. After `k` requests the next is
/// the `k`-th, counted from zero, and there is one as long as there are requests left.
pub proof fn law_requests_numbered(client: ClientView, work: PieceWork, k: int)
    requires
        0 <= k,
        work.requested == requested_by(work.length as int, k),
    ensures
        reset(work).requested == requested_by(work.length as int, 0),
        (work.requested < work.length) == (k < request_count(work.length as int)),
        next_transfer(client, work) matches TransferAction::SendRequest { begin, length, .. } ==> {
            &&& begin == request_begin(k)
            &&& length == request_size(work.length as int, k)
        },
        may_request(client, work) ==> after_request(work).requested == requested_by(
            work.length as int,
            k + 1,
        ),
{
}

/// The data of a piece after the blocks of these messages were stored.
pub open spec fn data_after(data: Seq<u8>, payloads: Seq<Seq<u8>>) -> Seq<u8>
    decreases payloads.len(),
{
    if payloads.len() == 0 {
        data
    } else {
        overwritten(
            data_after(data, payloads.drop_last()),
            block_begin(payloads.last()),
            block(payloads.last()),
        )
    }
}

/// Storing one more block extends what has been stored by that block.
pub proof fn law_data_extended(
    data: Seq<u8>,
    payloads: Seq<Seq<u8>>,
    work: PieceWork,
    payload: Seq<u8>,
    after: PieceWork,
)
    requires
        work.data@ == data_after(data, payloads),
        block_stored(work, payload, after),
    ensures
        after.data@ == data_after(data, payloads.push(payload)),
{
    assert(payloads.push(payload).drop_last() =~= payloads);
}

/// Whether the block of a message is the part of `content` at its place.
pub open spec fn right_block(content: Seq<u8>, payload: Seq<u8>) -> bool {
    let begin = block_begin(payload);
    let end = begin + block(payload).len();
    0 <= begin && end <= content.len() && block(payload) == content.subrange(begin, end)
}

/// Whether one of these messages carries the block of the `k`-th request.
pub open spec fn answered(length: int, payloads: Seq<Seq<u8>>, k: int) -> bool {
    exists|j: int|
        0 <= j < payloads.len() && block_begin(#[trigger] payloads[j]) == request_begin(k) && block(
            payloads[j],
        ).len() == request_size(length, k)
}

proof fn lemma_data_after(data: Seq<u8>, content: Seq<u8>, payloads: Seq<Seq<u8>>)
    requires
        data.len() == content.len(),
        forall|j: int| 0 <= j < payloads.len() ==> right_block(content, #[trigger] payloads[j]),
    ensures
        data_after(data, payloads).len() == content.len(),
        forall|i: int, j: int|
            0 <= j < payloads.len() && block_begin(#[trigger] payloads[j]) <= i < block_begin(
                payloads[j],
            ) + block(payloads[j]).len() ==> #[trigger] data_after(data, payloads)[i] == content[i],
    decreases payloads.len(),
{
    if payloads.len() > 0 {
        let rest = payloads.drop_last();
        let last = payloads[payloads.len() - 1];
        assert(forall|j: int| 0 <= j < rest.len() ==> rest[j] == payloads[j]);
        assert(right_block(content, last));
        lemma_data_after(data, content, rest);
        let before = data_after(data, rest);
        let all = data_after(data, payloads);
        let begin = block_begin(last);
        assert forall|i: int, j: int|
            0 <= j < payloads.len() && block_begin(#[trigger] payloads[j]) <= i < block_begin(
                payloads[j],
            ) + block(payloads[j]).len() implies #[trigger] all[i] == content[i] by {
            assert(right_block(content, payloads[j]));
            if begin <= i < begin + block(last).len() {
                assert(all[i] == block(last)[i - begin]);
            } else {
                assert(payloads[j] == rest[j]);
                assert(before[i] == content[i]);
                assert(all[i] == before[i]);
            }
        }
    }
}

/// Once right blocks have arrived for all requests, in whatever order and however
/// often, the data of the piece are its content.
pub proof fn law_blocks_make_piece(data: Seq<u8>, content: Seq<u8>, payloads: Seq<Seq<u8>>)
    requires
        data.len() == content.len(),
        forall|j: int| 0 <= j < payloads.len() ==> right_block(content, #[trigger] payloads[j]),
        forall|k: int|
            0 <= k < request_count(content.len() as int) ==> #[trigger] answered(
                content.len() as int,
                payloads,
                k,
            ),
    ensures
        data_after(data, payloads) == content,
{
    lemma_data_after(data, content, payloads);
    let all = data_after(data, payloads);
    assert forall|i: int| 0 <= i < content.len() implies all[i] == content[i] by {
        let k = i / BLOCK_SIZE_MAX as int;
        assert(answered(content.len() as int, payloads, k));
        let j = choose|j: int|
            0 <= j < payloads.len() && block_begin(#[trigger] payloads[j]) == request_begin(k)
                && block(payloads[j]).len() == request_size(content.len() as int, k);
        assert(block_begin(payloads[j]) <= i < block_begin(payloads[j]) + block(
            payloads[j],
        ).len());
    }
    assert(all =~= content);
}

/// How many bytes the blocks of these messages have together.
pub open spec fn bytes_in(payloads: Seq<Seq<u8>>) -> int
    decreases payloads.len(),
{
    if payloads.len() == 0 {
        0
    } else {
        bytes_in(payloads.drop_last()) + block(payloads.last()).len()
    }
}

/// Whether no two of these blocks have a byte in common.
pub open spec fn blocks_apart(payloads: Seq<Seq<u8>>) -> bool {
    forall|a: int, b: int|
        0 <= a < b < payloads.len() ==> block_begin(#[trigger] payloads[a]) + block(
            payloads[a],
        ).len() <= block_begin(#[trigger] payloads[b]) || block_begin(payloads[b]) + block(
            payloads[b],
        ).len() <= block_begin(payloads[a])
}

/// The positions that these blocks cover.
spec fn positions(payloads: Seq<Seq<u8>>) -> Set<int>
    decreases payloads.len(),
{
    if payloads.len() == 0 {
        Set::empty()
    } else {
        let begin = block_begin(payloads.last());
        positions(payloads.drop_last()).union(
            set_int_range(begin, begin + block(payloads.last()).len()),
        )
    }
}

proof fn lemma_positions(content: Seq<u8>, payloads: Seq<Seq<u8>>)
    requires
        forall|j: int| 0 <= j < payloads.len() ==> right_block(content, #[trigger] payloads[j]),
        blocks_apart(payloads),
    ensures
        positions(payloads).finite(),
        positions(payloads).len() == bytes_in(payloads),
        forall|i: int| #[trigger]
            positions(payloads).contains(i) ==> 0 <= i < content.len() && exists|j: int|
                0 <= j < payloads.len() && block_begin(#[trigger] payloads[j]) <= i < block_begin(
                    payloads[j],
                ) + block(payloads[j]).len(),
    decreases payloads.len(),
{
    if payloads.len() > 0 {
        let rest = payloads.drop_last();
        let n = payloads.len() - 1;
        let last = payloads[n];
        let begin = block_begin(last);
        let range = set_int_range(begin, begin + block(last).len());
        assert(forall|j: int| 0 <= j < rest.len() ==> rest[j] == payloads[j]);
        assert(right_block(content, last));
        lemma_positions(content, rest);
        lemma_int_range(begin, begin + block(last).len());
        assert(positions(rest).disjoint(range)) by {
            assert forall|i: int| positions(rest).contains(i) implies !range.contains(i) by {
                let j = choose|j: int|
                    0 <= j < rest.len() && block_begin(#[trigger] rest[j]) <= i < block_begin(
                        rest[j],
                    ) + block(rest[j]).len();
                assert(payloads[j] == rest[j]);
                assert(payloads[n] == last);
            }
        }
        lemma_set_disjoint_lens(positions(rest), range);
        assert forall|i: int| #[trigger] positions(payloads).contains(i) implies 0 <= i
            < content.len() && exists|j: int|
            0 <= j < payloads.len() && block_begin(#[trigger] payloads[j]) <= i < block_begin(
                payloads[j],
            ) + block(payloads[j]).len() by {
            if range.contains(i) {
                assert(block_begin(payloads[n]) <= i < block_begin(payloads[n]) + block(
                    payloads[n],
                ).len());
            } else {
                assert(positions(rest).contains(i));
                let j = choose|j: int|
                    0 <= j < rest.len() && block_begin(#[trigger] rest[j]) <= i < block_begin(
                        rest[j],
                    ) + block(rest[j]).len();
                assert(payloads[j] == rest[j]);
            }
        }
    }
}

/// A piece that is reported complete is complete: when the blocks that arrived were right
/// and had no byte in common, its data are its content.
pub proof fn law_complete_piece(
    client: ClientView,
    work: PieceWork,
    data: Seq<u8>,
    content: Seq<u8>,
    payloads: Seq<Seq<u8>>,
)
    requires
        data.len() == content.len() == work.length,
        work.data@ == data_after(data, payloads),
        work.downloaded == bytes_in(payloads),
        forall|j: int| 0 <= j < payloads.len() ==> right_block(content, #[trigger] payloads[j]),
        blocks_apart(payloads),
        next_transfer(client, work) is Complete,
    ensures
        work.data@ == content,
{
    let n = content.len() as int;
    lemma_positions(content, payloads);
    lemma_data_after(data, content, payloads);
    lemma_int_range(0, n);
    let covered = positions(payloads);
    assert(covered.subset_of(set_int_range(0, n)));
    lemma_len_subset(covered, set_int_range(0, n));
    lemma_subset_equality(covered, set_int_range(0, n));
    let all = data_after(data, payloads);
    assert forall|i: int| 0 <= i < content.len() implies all[i] == content[i] by {
        assert(set_int_range(0, n).contains(i));
        assert(covered.contains(i));
        let j = choose|j: int|
            0 <= j < payloads.len() && block_begin(#[trigger] payloads[j]) <= i < block_begin(
                payloads[j],
            ) + block(payloads[j]).len();
        assert(block_begin(payloads[j]) <= i);
    }
    assert(all =~= content);
}

/// Each block that is stored adds its bytes to those that have arrived.
pub proof fn law_bytes_extended(
    payloads: Seq<Seq<u8>>,
    work: PieceWork,
    payload: Seq<u8>,
    after: PieceWork,
)
    requires
        work.downloaded == bytes_in(payloads),
        carries_block(7, payload, work),
        can_store(7, payload, work),
        block_stored(work, payload, after),
    ensures
        after.downloaded == bytes_in(payloads.push(payload)),
{
    assert(payloads.push(payload).drop_last() =~= payloads);
}

impl Worker {
    /// The peer to download from.
    pub closed spec fn spec_peer(self) -> Peer {
        self.peer
    }

    /// The identifier of this client.
    pub closed spec fn spec_peer_id(self) -> Seq<u8> {
        self.peer_id@
    }

    /// The hash of the torrent's info dictionary.
    pub closed spec fn spec_info_hash(self) -> Seq<u8> {
        self.info_hash@
    }

    /// Creates a worker for a peer.
    pub fn new(peer: Peer, peer_id: Vec<u8>, info_hash: Vec<u8>) -> (r: Worker)
        ensures
            r.spec_peer() == peer,
            r.spec_peer_id() == peer_id@,
            r.spec_info_hash() == info_hash@,
    {
        Worker { peer, peer_id, info_hash }
    }

    /// The state of a fresh connection to the worker's peer.
    pub fn client(&self) -> (r: Client)
        ensures
            r@ == fresh_client(self.spec_peer(), self.spec_peer_id(), self.spec_info_hash()),
    {
        let peer_id = copy_range(&self.peer_id, 0, self.peer_id.len());
        let info_hash = copy_range(&self.info_hash, 0, self.info_hash.len());
        assert(peer_id@ =~= self.peer_id@);
        assert(info_hash@ =~= self.info_hash@);
        Client::new(self.peer, peer_id, info_hash)
    }

    /// Decides how to go on after an event. A worker starts by connecting to its
    /// peer, in phase `Connecting`.
    pub fn start_download(&self, client: &Client, phase: Phase, event: Event) -> (r: (
        Phase,
        Action,
    ))
        requires
            expected(phase, event),
        ensures
            r == next(client@, phase, event),
    {
        let ok = match event {
            Event::Done => true,
            _ => false,
        };
        match phase {
            Phase::Connecting => if ok {
                (Phase::SettingTimeout, Action::SetTimeout(SETUP_TIMEOUT_SECS))
            } else {
                (Phase::Stopped, Action::Stop)
            },
            Phase::SettingTimeout => if ok {
                (Phase::Handshaking(0), Action::Handshake)
            } else {
                (Phase::Stopped, Action::Stop)
            },
            Phase::Handshaking(failures) => if ok {
                (Phase::ReadingBitfield(0), Action::ReadBitfield)
            } else if failures + 1 < MAX_RETRIES {
                (Phase::ReconnectingToHandshake(failures + 1), Action::Reconnect(RETRY_DELAY_SECS))
            } else {
                (Phase::Stopped, Action::Stop)
            },
            Phase::ReconnectingToHandshake(failures) => (
                Phase::Handshaking(failures),
                Action::Handshake,
            ),
            Phase::ReadingBitfield(failures) => if ok {
                (Phase::SendingUnchoke, Action::SendUnchoke)
            } else if failures + 1 < MAX_RETRIES {
                (
                    Phase::ReconnectingToReadBitfield(failures + 1),
                    Action::Reconnect(RETRY_DELAY_SECS),
                )
            } else {
                (Phase::Stopped, Action::Stop)
            },
            Phase::ReconnectingToReadBitfield(failures) => (
                Phase::ReadingBitfield(failures),
                Action::ReadBitfield,
            ),
            Phase::SendingUnchoke => if ok {
                (Phase::SendingInterested, Action::SendInterested)
            } else {
                (Phase::Stopped, Action::Stop)
            },
            Phase::SendingInterested | Phase::ReturningWork | Phase::Delivering => if ok {
                (Phase::ReceivingWork, Action::ReceiveWork)
            } else {
                (Phase::Stopped, Action::Stop)
            },
            Phase::ReceivingWork => match event {
                Event::Work(work) => if client.has_piece(work.index) {
                    (Phase::Downloading, Action::Download(work))
                } else {
                    (Phase::ReturningWork, Action::ReturnWork(work))
                },
                _ => (Phase::Stopped, Action::Stop),
            },
            Phase::Downloading => match event {
                Event::Downloaded(work) => (Phase::Hashing, Action::Hash(work)),
                Event::NotDownloaded(work) => (
                    Phase::ReturningLastWork,
                    Action::ReturnWork(work),
                ),
                _ => (Phase::Stopped, Action::Stop),
            },
            Phase::Hashing => match event {
                Event::Hashed(work, digest) => if self.verify_piece_integrity(
                    &work,
                    &digest,
                ).is_ok() {
                    let index: u32 = work.index;
                    let result = PieceResult::new(work.index, work.length, work.data);
                    (Phase::Announcing(result), Action::SendHave(index))
                } else {
                    (Phase::ReturningWork, Action::ReturnWork(work))
                },
                _ => (Phase::Stopped, Action::Stop),
            },
            Phase::Announcing(result) => (Phase::Delivering, Action::Deliver(result)),
            Phase::ReturningLastWork | Phase::Stopped => (Phase::Stopped, Action::Stop),
        }
    }

    /// Decides how to go on with the download of a piece after an event.
    ///
    /// Up to five blocks are requested before their content arrives. The download
    /// is complete when as many bytes have arrived as the piece has.
    pub fn download_piece(
        &self,
        client: &mut Client,
        piece_work: &mut PieceWork,
        event: TransferEvent,
    ) -> (r: Result<TransferAction, Error>)
        requires
            match event {
                TransferEvent::Begin => true,
                TransferEvent::TimeoutSet => true,
                TransferEvent::RequestSent => may_request(old(client)@, *old(piece_work)),
                TransferEvent::Received(message) => can_store(
                    message.id,
                    message.payload@,
                    *old(piece_work),
                ),
            },
        ensures
            match event {
                TransferEvent::Begin => {
                    &&& final(client)@ == old(client)@
                    &&& *final(piece_work) == *old(piece_work)
                    &&& r == Ok::<_, Error>(TransferAction::SetTimeout(PIECE_TIMEOUT_SECS))
                },
                TransferEvent::TimeoutSet => {
                    &&& final(client)@ == old(client)@
                    &&& *final(piece_work) == reset(*old(piece_work))
                    &&& r == Ok::<_, Error>(next_transfer(final(client)@, *final(piece_work)))
                },
                TransferEvent::RequestSent => {
                    &&& final(client)@ == old(client)@
                    &&& *final(piece_work) == after_request(*old(piece_work))
                    &&& r == Ok::<_, Error>(next_transfer(final(client)@, *final(piece_work)))
                },
                TransferEvent::Received(message) => {
                    let id = message.id;
                    let payload = message.payload@;
                    let error = message_error(id, payload, *old(piece_work));
                    &&& final(client)@ == heard(old(client)@, id, payload)
                    &&& if carries_block(id, payload, *old(piece_work)) {
                        block_stored(*old(piece_work), payload, *final(piece_work))
                    } else {
                        *final(piece_work) == *old(piece_work)
                    }
                    &&& match r {
                        Ok(action) => error is None && action == next_transfer(
                            final(client)@,
                            *final(piece_work),
                        ),
                        Err(e) => error == Some(e),
                    }
                },
            },
    {
        match event {
            TransferEvent::Begin => {
                return Ok(TransferAction::SetTimeout(PIECE_TIMEOUT_SECS));
            },
            TransferEvent::TimeoutSet => {
                piece_work.requests = 0;
                piece_work.requested = 0;
                piece_work.downloaded = 0;
            },
            TransferEvent::RequestSent => {
                let size: u32 = next_block_size(piece_work);
                piece_work.requests = piece_work.requests + 1;
                piece_work.requested = piece_work.requested + size;
            },
            TransferEvent::Received(message) => {
                let id: u8 = message.id;
                if id == MESSAGE_CHOKE {
                    client.read_choke();
                } else if id == MESSAGE_UNCHOKE {
                    client.read_unchoke();
                } else if id == MESSAGE_HAVE {
                    match client.read_have(message) {
                        Ok(()) => {},
                        Err(e) => {
                            return Err(e);
                        },
                    }
                } else if id == MESSAGE_PIECE {
                    match client.read_piece(message, piece_work) {
                        Ok(()) => {},
                        Err(e) => {
                            return Err(e);
                        },
                    }
                }
            },
        }
        if piece_work.downloaded >= piece_work.length {
            return Ok(TransferAction::Complete);
        }
        if !client.is_choked() && piece_work.requests < NB_REQUESTS_MAX && piece_work.requested
            < piece_work.length {
            return Ok(
                TransferAction::SendRequest {
                    index: piece_work.index,
                    begin: piece_work.requested,
                    length: next_block_size(piece_work),
                },
            );
        }
        Ok(TransferAction::ReadMessage)
    }

    /// Verifies the integrity of a downloaded piece, given the SHA-1 hash of its
    /// data.
    pub fn verify_piece_integrity(&self, piece_work: &PieceWork, digest: &[u8]) -> (r: Result<
        (),
        Error,
    >)
        ensures
            match r {
                Ok(()) => digest@ == piece_work.hash@,
                Err(e) => digest@ != piece_work.hash@ && e == Error::PieceHashMismatch,
            },
    {
        if !same_bytes(digest, &piece_work.hash) {
            return Err(Error::PieceHashMismatch);
        }
        Ok(())
    }
}

/// The size of the next block to request.
fn next_block_size(work: &PieceWork) -> (r: u32)
    requires
        work.requested <= work.length,
    ensures
        r == block_size(*work),
{
    let remaining: u32 = work.length - work.requested;
    if remaining < BLOCK_SIZE_MAX {
        remaining
    } else {
        BLOCK_SIZE_MAX
    }
}

} // verus!
