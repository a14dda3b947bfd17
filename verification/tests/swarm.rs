//! The per-connection state machines: piece assembly with digest
//! verification, message dispatch, and request pipelining.

use torrent::bitset::Bitmap;
use torrent::connection::{Command, State};
use torrent::inorder::Inorder;
use torrent::metainfo::{Info, Metainfo};
use torrent::peer::Message;
use torrent::receiver::{Chunk, PieceBuilder, PieceBuilderError, Receiver, ReceiverError};
use torrent::selection::SelectorKind;
use torrent::sender::{Sender, SenderError, QUEUE_LENGTH};
use torrent::storage::PieceStore;

fn sha1(data: &[u8]) -> Vec<u8> {
    let mut hasher = crypto::sha1::Sha1::new();
    let mut out = [0u8; 20];
    crypto::digest::Digest::input(&mut hasher, data);
    crypto::digest::Digest::result(&mut hasher, &mut out);
    out.to_vec()
}

/// Three pieces of 4, 4 and 2 bytes, with real digests.
fn meta3() -> (Metainfo, Vec<Vec<u8>>) {
    let payloads = vec![vec![1u8, 2, 3, 4], vec![5u8, 6, 7, 8], vec![9u8, 10]];
    let mut pieces = Vec::new();
    for p in &payloads {
        pieces.extend_from_slice(&sha1(p));
    }
    let m = Metainfo {
        announce: String::new(),
        info: Info { name: b"test".to_vec(), piece_length: 4, pieces, length: 10 },
        creation_date: None,
        comment: None,
        created_by: None,
        encoding: None,
    };
    (m, payloads)
}

#[test]
fn assembler_completes_only_on_matching_digest() {
    let (m, payloads) = meta3();

    // Chunk by chunk; completion arrives with the last byte.
    let mut pb = PieceBuilder::new(&m, 0);
    assert!(matches!(pb.add(Chunk { begin: 0, data: vec![1, 2] }), Ok(None)));
    match pb.add(Chunk { begin: 2, data: vec![3, 4] }) {
        Ok(Some(v)) => assert_eq!(v, payloads[0]),
        _ => assert!(false),
    }

    // A full single chunk is verified too.
    let mut pb = PieceBuilder::new(&m, 1);
    match pb.add(Chunk { begin: 0, data: vec![5, 6, 7, 8] }) {
        Ok(Some(v)) => assert_eq!(v, payloads[1]),
        _ => assert!(false),
    }

    // Wrong bytes of the right size fail the digest.
    let mut pb = PieceBuilder::new(&m, 2);
    assert!(matches!(
        pb.add(Chunk { begin: 0, data: vec![0, 0] }),
        Err(PieceBuilderError::InvalidPiece)
    ));
}

#[test]
fn assembler_rejects_misfitting_chunks() {
    let (m, _) = meta3();
    let mut pb = PieceBuilder::new(&m, 0);
    assert!(matches!(
        pb.add(Chunk { begin: 0, data: vec![0; 5] }),
        Err(PieceBuilderError::InvalidSize(4, 5))
    ));
    assert!(matches!(
        pb.add(Chunk { begin: 4, data: vec![0] }),
        Err(PieceBuilderError::InvalidBegin(4, 4))
    ));
    assert!(matches!(
        pb.add(Chunk { begin: 3, data: vec![0, 0] }),
        Err(PieceBuilderError::InsufficientSize(4, 3, 2))
    ));
}

#[test]
fn receiver_dispatch() {
    let (m, payloads) = meta3();
    let mut store = PieceStore::new(&m, SelectorKind::Inorder(Inorder::default()));
    let mut recv = Receiver::new("peer".to_string(), &m);
    let mut conn = State::default();
    let mut avail = Bitmap::new(3);
    let mut out: Vec<Command> = Vec::new();

    // A bitfield announces pieces 0 and 2; a second one is a violation.
    let mut bf = Bitmap::new(3);
    bf.set(0, true);
    bf.set(2, true);
    recv.handle_message(Message::BitField(bf.clone()), &m, &mut conn, &mut avail, &mut store, &mut out)
        .unwrap();
    assert!(avail.get(0) && !avail.get(1) && avail.get(2));
    assert_eq!(out.pop().unwrap(), Command::BitFieldReceived);
    assert!(matches!(
        recv.handle_message(Message::BitField(bf), &m, &mut conn, &mut avail, &mut store, &mut out),
        Err(ReceiverError::DuplicateBitfield)
    ));

    // Have updates the bitmap; an index out of range is an error.
    recv.handle_message(Message::Have(1), &m, &mut conn, &mut avail, &mut store, &mut out).unwrap();
    assert!(avail.get(1));
    assert_eq!(out.pop().unwrap(), Command::PeerHave(1));
    assert!(matches!(
        recv.handle_message(Message::Have(3), &m, &mut conn, &mut avail, &mut store, &mut out),
        Err(ReceiverError::InvalidIndex(3))
    ));

    // Choke and unchoke flow to the state and the sender.
    recv.handle_message(Message::Choke, &m, &mut conn, &mut avail, &mut store, &mut out).unwrap();
    assert!(conn.peer_choked);
    assert_eq!(out.pop().unwrap(), Command::PeerChoke(true));
    recv.handle_message(Message::Unchoke, &m, &mut conn, &mut avail, &mut store, &mut out).unwrap();
    assert!(!conn.peer_choked);
    assert_eq!(out.pop().unwrap(), Command::PeerChoke(false));

    // Requests are forwarded only while the peer is unchoked by us.
    conn.client_choked = true;
    recv.handle_message(Message::Request(0, 0, 4), &m, &mut conn, &mut avail, &mut store, &mut out)
        .unwrap();
    assert!(out.is_empty());
    conn.client_choked = false;
    recv.handle_message(Message::Request(0, 0, 4), &m, &mut conn, &mut avail, &mut store, &mut out)
        .unwrap();
    assert_eq!(out.pop().unwrap(), Command::SendChunk(0, 0, 4));

    // A verified piece reaches the store; its bytes are counted.
    recv.handle_message(
        Message::Piece(0, 0, payloads[0].clone()),
        &m,
        &mut conn,
        &mut avail,
        &mut store,
        &mut out,
    )
    .unwrap();
    assert_eq!(store.get(0).unwrap(), payloads[0]);
    assert_eq!(store.left, 2);
    assert_eq!(recv.take_downloaded(), 4);
    assert_eq!(recv.take_downloaded(), 0);

    // A piece we already own is refused.
    assert!(matches!(
        recv.handle_message(
            Message::Piece(0, 0, payloads[0].clone()),
            &m,
            &mut conn,
            &mut avail,
            &mut store,
            &mut out,
        ),
        Err(ReceiverError::InvalidIndex(0))
    ));

    // A piece failing its digest never reaches the store.
    assert!(matches!(
        recv.handle_message(
            Message::Piece(2, 0, vec![0, 0]),
            &m,
            &mut conn,
            &mut avail,
            &mut store,
            &mut out,
        ),
        Err(ReceiverError::InvalidPiece(_))
    ));
    assert!(store.get(2).is_none());
}

#[test]
fn request_pipelining() {
    // A fresh connection starts choked.  After a bitfield offering pieces
    // {0, 1, 2} the sender becomes interested, and after an unchoke it
    // queues exactly min(P, QUEUE_LENGTH) requests.
    let (m, _) = meta3();
    let mut store = PieceStore::new(&m, SelectorKind::Inorder(Inorder::default()));
    let mut sender = Sender::new("peer".to_string());
    let mut conn = State::default();
    assert!(conn.client_choked && conn.peer_choked && !conn.client_interested);

    let mut avail = Bitmap::new(3);
    for i in 0..3 {
        avail.set(i, true);
    }
    let mut wire: Vec<u8> = Vec::new();

    sender.handle(Command::BitFieldReceived, &mut conn, &avail, &mut store, &m, &mut wire).unwrap();
    assert!(conn.client_interested);
    // The interest went on the wire, but nothing is requested while choked.
    assert_eq!(wire, vec![0, 0, 0, 1, 2]);
    assert_eq!(sender.pending_len(), 0);

    conn.peer_choked = false;
    sender.handle(Command::PeerChoke(false), &mut conn, &avail, &mut store, &m, &mut wire).unwrap();
    assert_eq!(sender.pending_len(), 3.min(QUEUE_LENGTH));

    // Exactly three request frames are queued.
    let mut frames: Vec<u8> = Vec::new();
    assert!(sender.step_request(&mut frames));
    assert!(sender.step_request(&mut frames));
    assert!(sender.step_request(&mut frames));
    assert!(!sender.step_request(&mut frames));
    assert_eq!(&frames[0..17], &[0, 0, 0, 13, 6, 0, 0, 0, 0, 0, 0, 0, 0, 0, 0, 0, 4]);
}

#[test]
fn sender_serves_chunks() {
    let (m, payloads) = meta3();
    let mut store = PieceStore::new(&m, SelectorKind::Inorder(Inorder::default()));
    store.store("peer", 1, payloads[1].clone());

    let mut sender = Sender::new("peer".to_string());
    // A piece we do not have is refused, as is a range that does not fit.
    assert!(matches!(
        sender.handle_send_chunk(0, 0, 4, &store, &m),
        Err(SenderError::InvalidRequest)
    ));
    assert!(matches!(
        sender.handle_send_chunk(1, 2, 3, &store, &m),
        Err(SenderError::InvalidRequest)
    ));
    assert!(matches!(
        sender.handle_send_chunk(3, 0, 1, &store, &m),
        Err(SenderError::InvalidRequest)
    ));

    // A sub-range of an owned piece goes out as a piece frame.
    sender.handle_send_chunk(1, 1, 2, &store, &m).unwrap();
    let mut wire: Vec<u8> = Vec::new();
    assert!(sender.step_piece(&mut wire));
    assert_eq!(wire, vec![0, 0, 0, 11, 7, 0, 0, 0, 1, 0, 0, 0, 1, 6, 7]);
    assert_eq!(sender.take_uploaded(), 2);
    assert!(!sender.step_piece(&mut wire));
}

#[test]
fn shutdown_stops_the_sender() {
    let (m, _) = meta3();
    let mut store = PieceStore::new(&m, SelectorKind::Inorder(Inorder::default()));
    let mut sender = Sender::new("peer".to_string());
    let mut conn = State::default();
    let avail = Bitmap::new(3);
    let mut wire: Vec<u8> = Vec::new();
    let r = sender.handle(Command::Shutdown, &mut conn, &avail, &mut store, &m, &mut wire);
    assert!(matches!(r, Err(SenderError::Channel)));
    let r = sender.handle(Command::Ping, &mut conn, &avail, &mut store, &m, &mut wire);
    assert!(r.is_ok());
}

#[test]
fn message_lengths_and_ids() {
    let bf = {
        let mut bv = Bitmap::new(9);
        bv.set(0, true);
        bv
    };
    assert_eq!(Message::KeepAlive.len(), 0);
    assert_eq!(Message::KeepAlive.id(), None);
    assert_eq!(Message::Choke.len(), 1);
    assert_eq!(Message::Choke.id(), Some(0));
    assert_eq!(Message::Have(7).len(), 5);
    assert_eq!(Message::Have(7).id(), Some(4));
    assert_eq!(Message::BitField(bf).len(), 3);
    assert_eq!(Message::Piece(0, 0, vec![1, 2, 3]).len(), 12);
    assert_eq!(Message::Port(1).id(), Some(9));
}

#[test]
fn sender_have_suppression() {
    let mut sender = Sender::new("peer".to_string());
    let mut avail = Bitmap::new(3);
    avail.set(1, true);
    let mut wire: Vec<u8> = Vec::new();
    // The peer already has piece 1: no frame.
    sender.handle_client_have(1, &avail, &mut wire);
    assert!(wire.is_empty());
    // It lacks piece 2: a have frame goes out.
    sender.handle_client_have(2, &avail, &mut wire);
    assert_eq!(wire, vec![0, 0, 0, 5, 4, 0, 0, 0, 2]);
}

#[test]
fn sender_choke_commands() {
    let mut sender = Sender::new("peer".to_string());
    let mut conn = State::default();
    let mut wire: Vec<u8> = Vec::new();
    sender.handle_client_choke(false, &mut conn, &mut wire);
    assert!(!conn.client_choked);
    assert_eq!(wire, vec![0, 0, 0, 1, 1]);
    wire.clear();
    sender.handle_client_choke(true, &mut conn, &mut wire);
    assert!(conn.client_choked);
    assert_eq!(wire, vec![0, 0, 0, 1, 0]);
}
