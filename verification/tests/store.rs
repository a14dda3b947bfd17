//! The piece store: status transitions, assignment bookkeeping, the have
//! broadcast, contiguous emission, and seeding bootstrap.

use std::sync::mpsc;
use torrent::bitset::Bitmap;
use torrent::connection::Command;
use torrent::inorder::Inorder;
use torrent::metainfo::{Info, Metainfo};
use torrent::selection::SelectorKind;
use torrent::storage::PieceStore;

fn meta3() -> Metainfo {
    Metainfo {
        announce: String::new(),
        info: Info { name: b"test".to_vec(), piece_length: 100, pieces: vec![0; 60], length: 250 },
        creation_date: None,
        comment: None,
        created_by: None,
        encoding: None,
    }
}

fn all_available(n: usize) -> Bitmap {
    let mut bv = Bitmap::new(n);
    for i in 0..n {
        bv.set(i, true);
    }
    bv
}

#[test]
fn fresh_store_needs_everything() {
    let m = meta3();
    let store = PieceStore::new(&m, SelectorKind::Inorder(Inorder::default()));
    assert_eq!(store.left, 3);
    for i in 0..3 {
        assert!(store.check_if_needed(i));
        assert!(store.get(i).is_none());
    }
    let owned = store.as_bitvec(false);
    assert!(!owned.get(0) && !owned.get(1) && !owned.get(2));
}

#[test]
fn assignment_and_rollback() {
    let m = meta3();
    let mut store = PieceStore::new(&m, SelectorKind::Inorder(Inorder::default()));
    let v = store.request_pieces("peer", all_available(3), 2).unwrap();
    assert_eq!(v, vec![0, 1]);
    // Assigned pieces are no longer needed, but are not owned either.
    assert!(!store.check_if_needed(0));
    assert!(!store.check_if_needed(1));
    assert!(store.check_if_needed(2));
    let advertised = store.as_bitvec(true);
    let owned = store.as_bitvec(false);
    assert!(advertised.get(0) && advertised.get(1) && !advertised.get(2));
    assert!(!owned.get(0) && !owned.get(1) && !owned.get(2));
    // The counter ignores assignments.
    assert_eq!(store.left, 3);

    // A second peer is offered only what is unassigned.
    let v2 = store.request_pieces("other", all_available(3), 5).unwrap();
    assert_eq!(v2, vec![2]);

    // A choke rolls the first peer's assignments back.
    store.clear_requests("peer");
    assert!(store.check_if_needed(0));
    assert!(store.check_if_needed(1));
    assert!(!store.check_if_needed(2));
    assert_eq!(store.left, 3);

    // Nothing selectable is the distinct empty outcome.
    store.clear_requests("other");
    let none = store.request_pieces("peer", Bitmap::new(3), 5);
    assert!(none.is_err());
}

#[test]
fn store_decrements_left_and_broadcasts() {
    let m = meta3();
    let mut store = PieceStore::new(&m, SelectorKind::Inorder(Inorder::default()));
    let (tx, rx) = mpsc::channel();
    store.register(tx);

    store.store("peer", 1, vec![9; 100]);
    assert_eq!(store.left, 2);
    assert_eq!(store.get(1).unwrap(), vec![9; 100]);
    // Every registered connection hears of the new piece.
    assert_eq!(rx.try_recv().unwrap(), Command::ClientHave(1));

    // Piece 1 is not contiguous with the start yet.
    assert!(store.take_ready().is_empty());
    store.store("peer", 0, vec![7; 100]);
    assert_eq!(rx.try_recv().unwrap(), Command::ClientHave(0));
    let ready = store.take_ready();
    assert_eq!(ready.len(), 2);
    assert_eq!(ready[0], vec![7; 100]);
    assert_eq!(ready[1], vec![9; 100]);
    assert!(store.take_ready().is_empty());
}

#[test]
fn dead_channels_are_dropped_silently() {
    let m = meta3();
    let mut store = PieceStore::new(&m, SelectorKind::Inorder(Inorder::default()));
    let (tx_dead, rx_dead) = mpsc::channel::<Command>();
    let (tx_live, rx_live) = mpsc::channel::<Command>();
    store.register(tx_dead);
    store.register(tx_live);
    drop(rx_dead);

    store.store("peer", 0, vec![1; 100]);
    assert_eq!(rx_live.try_recv().unwrap(), Command::ClientHave(0));
    // The dead channel is gone; later stores still reach the live one.
    store.store("peer", 2, vec![2; 50]);
    assert_eq!(rx_live.try_recv().unwrap(), Command::ClientHave(2));
}

#[test]
fn bootstrap_fills_everything() {
    let m = meta3();
    let mut store = PieceStore::new(&m, SelectorKind::Inorder(Inorder::default()));
    let payload: Vec<u8> = (0..250u32).map(|i| (i % 251) as u8).collect();
    store.bootstrap(&m, &payload);
    assert_eq!(store.left, 0);
    assert_eq!(store.get(0).unwrap(), payload[0..100].to_vec());
    assert_eq!(store.get(1).unwrap(), payload[100..200].to_vec());
    assert_eq!(store.get(2).unwrap(), payload[200..250].to_vec());
    // Bootstrapped payload is not re-emitted.
    assert!(store.take_ready().is_empty());
    let owned = store.as_bitvec(false);
    assert!(owned.get(0) && owned.get(1) && owned.get(2));
}
