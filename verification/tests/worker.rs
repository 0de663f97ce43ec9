//! The decisions of a worker.

use xerus::client::Client;
use xerus::error::Error;
use xerus::message::{
    Message, MESSAGE_BITFIELD, MESSAGE_CHOKE, MESSAGE_HAVE, MESSAGE_KEEPALIVE, MESSAGE_PIECE,
    MESSAGE_UNCHOKE,
};
use xerus::peer::{Ipv4Addr, Peer};
use xerus::piece::PieceWork;
use xerus::worker::{Action, Event, Phase, TransferAction, TransferEvent, Worker};

fn worker() -> Worker {
    let peer = Peer { id: 5, ip: Ipv4Addr::new(10, 0, 0, 1), port: 6881 };
    Worker::new(peer, vec![1; 20], vec![2; 20])
}

fn client_with(bitfield: Vec<u8>) -> Client {
    let mut client = worker().client();
    client
        .read_bitfield(Message::new_with_payload(MESSAGE_BITFIELD, bitfield))
        .unwrap();
    client
}

fn block(index: u32, begin: u32, content: &[u8]) -> TransferEvent {
    let mut payload = index.to_be_bytes().to_vec();
    payload.extend_from_slice(&begin.to_be_bytes());
    payload.extend_from_slice(content);
    TransferEvent::Received(Message::new_with_payload(MESSAGE_PIECE, payload))
}

#[test]
fn client_of_a_worker() {
    let client = worker().client();
    assert_eq!(client.peer().id, 5);
    assert!(client.is_choked());
    assert_eq!(&client.handshake_request()[28..48], &[2u8; 20]);
    assert_eq!(&client.handshake_request()[48..68], &[1u8; 20]);
}

#[test]
fn worker_sets_up_the_connection() {
    let (worker, client) = (worker(), client_with(vec![]));
    let (phase, action) = worker.start_download(&client, Phase::Connecting, Event::Done);
    assert!(matches!(action, Action::SetTimeout(5)));
    let (phase, action) = worker.start_download(&client, phase, Event::Done);
    assert!(matches!(action, Action::Handshake));
    let (phase, action) = worker.start_download(&client, phase, Event::Done);
    assert!(matches!(action, Action::ReadBitfield));
    let (phase, action) = worker.start_download(&client, phase, Event::Done);
    assert!(matches!(action, Action::SendUnchoke));
    let (phase, action) = worker.start_download(&client, phase, Event::Done);
    assert!(matches!(action, Action::SendInterested));
    let (phase, action) = worker.start_download(&client, phase, Event::Done);
    assert!(matches!(action, Action::ReceiveWork));
    assert!(matches!(phase, Phase::ReceivingWork));
}

#[test]
fn worker_stops_when_the_setup_fails() {
    let (worker, client) = (worker(), client_with(vec![]));
    for phase in [
        Phase::Connecting,
        Phase::SettingTimeout,
        Phase::SendingUnchoke,
        Phase::SendingInterested,
        Phase::ReturningWork,
        Phase::ReturningLastWork,
        Phase::Delivering,
    ] {
        let (after, action) = worker.start_download(&client, phase, Event::Failed);
        assert!(matches!(action, Action::Stop));
        assert!(matches!(after, Phase::Stopped));
    }
}

#[test]
fn attempts_are_bounded() {
    let (worker, client) = (worker(), client_with(vec![]));
    for start in [Phase::Handshaking(0), Phase::ReadingBitfield(0)] {
        let mut phase = start;
        let mut attempts = 0;
        loop {
            attempts += 1;
            let (waiting, action) = worker.start_download(&client, phase, Event::Failed);
            if matches!(action, Action::Stop) {
                break;
            }
            assert!(matches!(action, Action::Reconnect(5)));
            let (again, action) = worker.start_download(&client, waiting, Event::Failed);
            assert!(matches!(action, Action::Handshake | Action::ReadBitfield));
            phase = again;
        }
        assert_eq!(attempts, 3);
    }
}

#[test]
fn success_after_a_failed_attempt() {
    let (worker, client) = (worker(), client_with(vec![]));
    let (phase, _) = worker.start_download(&client, Phase::Handshaking(0), Event::Failed);
    let (phase, action) = worker.start_download(&client, phase, Event::Done);
    assert!(matches!(action, Action::Handshake));
    assert!(matches!(phase, Phase::Handshaking(1)));
    let (phase, _) = worker.start_download(&client, phase, Event::Done);
    assert!(matches!(phase, Phase::ReadingBitfield(0)));
}

#[test]
fn piece_that_the_peer_lacks_is_put_back() {
    let (worker, client) = (worker(), client_with(vec![0x80]));
    let work = PieceWork::new(1, vec![9; 20], 4);
    let (phase, action) =
        worker.start_download(&client, Phase::ReceivingWork, Event::Work(work));
    assert!(matches!(action, Action::ReturnWork(work) if work.index == 1));
    let (_, action) = worker.start_download(&client, phase, Event::Done);
    assert!(matches!(action, Action::ReceiveWork));
}

#[test]
fn piece_is_downloaded_verified_and_delivered() {
    let (worker, client) = (worker(), client_with(vec![0x40]));
    let mut work = PieceWork::new(1, vec![9; 20], 4);
    work.data = vec![1, 2, 3, 4];
    let (phase, action) =
        worker.start_download(&client, Phase::ReceivingWork, Event::Work(work));
    let work = match action {
        Action::Download(work) => work,
        _ => panic!("no download"),
    };
    let (phase, action) = worker.start_download(&client, phase, Event::Downloaded(work));
    let work = match action {
        Action::Hash(work) => work,
        _ => panic!("no hash"),
    };
    let event = Event::Hashed(work, vec![9; 20]);
    let (phase, action) = worker.start_download(&client, phase, event);
    assert!(matches!(action, Action::SendHave(1)));
    let (phase, action) = worker.start_download(&client, phase, Event::Failed);
    match action {
        Action::Deliver(result) => {
            assert_eq!((result.index, result.length), (1, 4));
            assert_eq!(result.data, vec![1, 2, 3, 4]);
        }
        _ => panic!("no delivery"),
    }
    let (_, action) = worker.start_download(&client, phase, Event::Done);
    assert!(matches!(action, Action::ReceiveWork));
}

#[test]
fn piece_with_the_wrong_hash_is_put_back() {
    let (worker, client) = (worker(), client_with(vec![0x40]));
    let work = PieceWork::new(1, vec![9; 20], 4);
    let event = Event::Hashed(work, vec![8; 20]);
    let (phase, action) = worker.start_download(&client, Phase::Hashing, event);
    assert!(matches!(action, Action::ReturnWork(_)));
    let (_, action) = worker.start_download(&client, phase, Event::Done);
    assert!(matches!(action, Action::ReceiveWork));
}

#[test]
fn worker_stops_after_a_failed_download() {
    let (worker, client) = (worker(), client_with(vec![0x40]));
    let event = Event::NotDownloaded(PieceWork::new(1, vec![9; 20], 4));
    let (phase, action) = worker.start_download(&client, Phase::Downloading, event);
    assert!(matches!(action, Action::ReturnWork(work) if work.index == 1));
    let (_, action) = worker.start_download(&client, phase, Event::Done);
    assert!(matches!(action, Action::Stop));
}

#[test]
fn worker_stops_when_the_queue_is_closed() {
    let (worker, client) = (worker(), client_with(vec![]));
    let (_, action) = worker.start_download(&client, Phase::ReceivingWork, Event::Closed);
    assert!(matches!(action, Action::Stop));
}

#[test]
fn integrity_of_a_piece() {
    let work = PieceWork::new(0, vec![9; 20], 0);
    assert_eq!(worker().verify_piece_integrity(&work, &[9; 20]), Ok(()));
    assert_eq!(
        worker().verify_piece_integrity(&work, &[9; 19]),
        Err(Error::PieceHashMismatch)
    );
}

#[test]
fn requests_cover_the_piece() {
    let (worker, mut client) = (worker(), client_with(vec![0x80]));
    client.read_unchoke();
    let mut work = PieceWork::new(0, vec![0; 20], 100_000);
    work.requested = 77;
    let begin = worker.download_piece(&mut client, &mut work, TransferEvent::Begin);
    assert_eq!(begin, Ok(TransferAction::SetTimeout(120)));
    let mut action = worker.download_piece(&mut client, &mut work, TransferEvent::TimeoutSet);
    let mut requested = Vec::new();
    while let Ok(TransferAction::SendRequest { index, begin, length }) = action {
        assert_eq!(index, 0);
        requested.push((begin, length));
        action = worker.download_piece(&mut client, &mut work, TransferEvent::RequestSent);
    }
    assert_eq!(action, Ok(TransferAction::ReadMessage));
    assert_eq!(
        requested,
        vec![(0, 16384), (16384, 16384), (32768, 16384), (49152, 16384), (65536, 16384)]
    );
    assert_eq!(work.requests, 5);
    let event = block(0, 16384, &[6; 16384]);
    let action = worker.download_piece(&mut client, &mut work, event);
    assert_eq!(
        action,
        Ok(TransferAction::SendRequest { index: 0, begin: 81920, length: 16384 })
    );
    let action = worker.download_piece(&mut client, &mut work, TransferEvent::RequestSent);
    assert_eq!(action, Ok(TransferAction::ReadMessage));
    let action = worker.download_piece(&mut client, &mut work, block(0, 0, &[5; 16384]));
    assert_eq!(
        action,
        Ok(TransferAction::SendRequest { index: 0, begin: 98304, length: 1696 })
    );
}

#[test]
fn whole_piece_is_downloaded() {
    let (worker, mut client) = (worker(), client_with(vec![0x80]));
    client.read_unchoke();
    let content: Vec<u8> = (0..50_000u32).map(|i| (i % 253) as u8).collect();
    let mut work = PieceWork::new(0, vec![0; 20], 50_000);
    let mut waiting = Vec::new();
    let mut event = TransferEvent::TimeoutSet;
    loop {
        match worker.download_piece(&mut client, &mut work, event).unwrap() {
            TransferAction::SendRequest { begin, length, .. } => {
                waiting.push((begin as usize, length as usize));
                event = TransferEvent::RequestSent;
            }
            TransferAction::ReadMessage => {
                let (begin, length) = waiting.pop().unwrap();
                event = block(0, begin as u32, &content[begin..begin + length]);
            }
            TransferAction::Complete => break,
            TransferAction::SetTimeout(_) => panic!("unexpected"),
        }
    }
    assert!(waiting.is_empty());
    assert_eq!(work.data, content);
}

#[test]
fn choked_worker_waits() {
    let (worker, mut client) = (worker(), client_with(vec![0x80]));
    let mut work = PieceWork::new(0, vec![0; 20], 10);
    let action = worker.download_piece(&mut client, &mut work, TransferEvent::TimeoutSet);
    assert_eq!(action, Ok(TransferAction::ReadMessage));
    let unchoke = TransferEvent::Received(Message::new(MESSAGE_UNCHOKE));
    let action = worker.download_piece(&mut client, &mut work, unchoke);
    assert_eq!(
        action,
        Ok(TransferAction::SendRequest { index: 0, begin: 0, length: 10 })
    );
    let choke = TransferEvent::Received(Message::new(MESSAGE_CHOKE));
    let action = worker.download_piece(&mut client, &mut work, choke);
    assert_eq!(action, Ok(TransferAction::ReadMessage));
    let keep_alive = TransferEvent::Received(Message::new(MESSAGE_KEEPALIVE));
    let action = worker.download_piece(&mut client, &mut work, keep_alive);
    assert_eq!(action, Ok(TransferAction::ReadMessage));
}

#[test]
fn bitfield_during_a_download_is_ignored() {
    let (worker, mut client) = (worker(), client_with(vec![0x80]));
    let mut work = PieceWork::new(0, vec![0; 20], 10);
    let message = Message::new_with_payload(MESSAGE_BITFIELD, vec![0]);
    let action =
        worker.download_piece(&mut client, &mut work, TransferEvent::Received(message));
    assert_eq!(action, Ok(TransferAction::ReadMessage));
    assert!(client.has_piece(0));
}

#[test]
fn errors_during_a_download() {
    let (worker, mut client) = (worker(), client_with(vec![0x80]));
    let mut work = PieceWork::new(0, vec![0; 20], 10);
    work.requests = 1;
    let message = Message::new_with_payload(MESSAGE_HAVE, vec![0]);
    assert_eq!(
        worker.download_piece(&mut client, &mut work, TransferEvent::Received(message)),
        Err(Error::InvalidHaveMessage)
    );
    assert_eq!(
        worker.download_piece(&mut client, &mut work, block(1, 0, &[1])),
        Err(Error::InvalidPieceIndex)
    );
    assert_eq!(
        worker.download_piece(&mut client, &mut work, block(0, 5, &[1; 6])),
        Err(Error::InvalidBlockOffset)
    );
    let message = Message::new_with_payload(MESSAGE_HAVE, vec![0, 0, 0, 9]);
    assert_eq!(
        worker.download_piece(&mut client, &mut work, TransferEvent::Received(message)),
        Ok(TransferAction::ReadMessage)
    );
    assert!(client.has_piece(9));
}

#[test]
fn empty_piece_is_complete() {
    let (worker, mut client) = (worker(), client_with(vec![0x80]));
    let mut work = PieceWork::new(0, vec![0; 20], 0);
    let action = worker.download_piece(&mut client, &mut work, TransferEvent::TimeoutSet);
    assert_eq!(action, Ok(TransferAction::Complete));
}

#[test]
fn no_piece_gets_lost() {
    let (worker, client) = (worker(), client_with(vec![0b1010_0000]));
    let mut queue: Vec<PieceWork> =
        (0..4).map(|index| PieceWork::new(index, vec![index as u8; 20], 4)).collect();
    let mut delivered = Vec::new();
    let mut taken = 0;
    let mut returned = 0;
    let mut phase = Phase::SendingInterested;
    let mut event = Event::Done;
    loop {
        let (next, action) = worker.start_download(&client, phase, event);
        phase = next;
        event = match action {
            Action::ReceiveWork if taken < 6 => {
                taken += 1;
                Event::Work(queue.remove(0))
            }
            Action::ReceiveWork => Event::Closed,
            Action::ReturnWork(work) => {
                returned += 1;
                queue.push(work);
                Event::Done
            }
            Action::Download(work) => Event::Downloaded(work),
            Action::Hash(work) => {
                let digest = if work.index == 2 { vec![0; 20] } else { work.hash.clone() };
                Event::Hashed(work, digest)
            }
            Action::SendHave(_) => Event::Done,
            Action::Deliver(result) => {
                delivered.push(result.index);
                Event::Done
            }
            Action::Stop => break,
            _ => panic!("unexpected"),
        };
    }
    assert_eq!(delivered, vec![0]);
    assert_eq!(taken, returned + delivered.len());
    let mut left: Vec<u32> = queue.iter().map(|work| work.index).collect();
    left.sort();
    assert_eq!(left, vec![1, 2, 3]);
}
