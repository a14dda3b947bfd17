//! The choking controller's tick over a set of live connections.

use std::sync::mpsc;
use torrent::bitset::Bitmap;
use torrent::choking::{Choke, ChokePeer};
use torrent::connection::{Command, Snapshot, State};

fn snapshot(downloaded: u64, client_choked: bool) -> Snapshot {
    Snapshot {
        downloaded,
        uploaded: 0,
        availability: Bitmap::new(0),
        state: State {
            client_choked,
            client_interested: false,
            peer_choked: false,
            peer_interested: true,
        },
    }
}

#[test]
fn choking_rotation() {
    let mut choke = Choke::new();

    // One early connection takes the optimistic slot on the first tick.
    let (tx0, rx0) = mpsc::channel();
    choke.add(ChokePeer::new(0, tx0));
    choke.download(false);
    // The slot peer is pinged and, being choked, unchoked.
    assert_eq!(rx0.try_recv().unwrap(), Command::Ping);
    assert_eq!(rx0.try_recv().unwrap(), Command::Choke(false));

    // Five live connections with constant download rates.  The top four
    // are currently choked; the fifth is currently unchoked.
    let rates = [100u64, 80, 60, 40, 20];
    let mut rxs = Vec::new();
    for (i, rate) in rates.iter().enumerate() {
        let (tx, rx) = mpsc::channel();
        let handle = (i + 1) as u64;
        choke.add(ChokePeer::new(handle, tx));
        choke.update_snapshot(handle, snapshot(*rate, i < 4));
        rxs.push(rx);
    }

    choke.download(false);

    // The top four by rate are unchoked; the fifth is choked.
    for rx in rxs.iter().take(4) {
        assert_eq!(rx.try_recv().unwrap(), Command::Ping);
        assert_eq!(rx.try_recv().unwrap(), Command::Choke(false));
        assert!(rx.try_recv().is_err());
    }
    assert_eq!(rxs[4].try_recv().unwrap(), Command::Ping);
    assert_eq!(rxs[4].try_recv().unwrap(), Command::Choke(true));
    assert!(rxs[4].try_recv().is_err());

    // A scheduled rotation returns the slot peer to the pool and draws a
    // fresh optimistic unchoke; every live peer is pinged again.
    choke.download(true);
    assert_eq!(rx0.try_recv().unwrap(), Command::Ping);
    for rx in rxs.iter() {
        assert_eq!(rx.try_recv().unwrap(), Command::Ping);
    }
}

#[test]
fn dead_connections_are_pruned() {
    let mut choke = Choke::new();
    let (tx_dead, rx_dead) = mpsc::channel();
    let (tx_live, rx_live) = mpsc::channel();
    choke.add(ChokePeer::new(1, tx_dead));
    choke.add(ChokePeer::new(2, tx_live));
    drop(rx_dead);

    choke.update_snapshot(2, snapshot(10, true));
    choke.download(false);
    // The live peer is pinged; with no competition it is preferred and
    // unchoked (unless it took the optimistic slot, which unchokes too).
    assert_eq!(rx_live.try_recv().unwrap(), Command::Ping);
    assert_eq!(rx_live.try_recv().unwrap(), Command::Choke(false));
}

#[test]
fn seed_phase_ranks_by_upload() {
    let mut choke = Choke::new();
    // Fill the slot deterministically with a throwaway peer first.
    let (tx0, _rx0_keep) = mpsc::channel();
    choke.add(ChokePeer::new(0, tx0));
    choke.upload(false);

    // Five interested peers with distinct upload rates: the four we serve
    // fastest are unchoked, the slowest is left as it is (already choked).
    let mut rxs = Vec::new();
    for i in 1..=5u64 {
        let (tx, rx) = mpsc::channel();
        choke.add(ChokePeer::new(i, tx));
        let mut s = snapshot(0, true);
        s.uploaded = 10 * i;
        choke.update_snapshot(i, s);
        rxs.push(rx);
    }
    choke.upload(false);
    assert_eq!(rxs[0].try_recv().unwrap(), Command::Ping);
    assert!(rxs[0].try_recv().is_err());
    for rx in rxs.iter().skip(1) {
        assert_eq!(rx.try_recv().unwrap(), Command::Ping);
        assert_eq!(rx.try_recv().unwrap(), Command::Choke(false));
    }
}
