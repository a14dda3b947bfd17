//! Types shared by the two threads of a peer connection: the four-boolean
//! protocol state, the snapshot the choking controller samples, and the
//! commands a connection's sender thread accepts on its inbox channel.

use crate::bitset::Bitmap;
use vstd::prelude::*;

verus! {

/// The protocol state of one connection.  Both sides start choking and not
/// interested.
#[derive(Clone, Copy, Debug)]
pub struct State {
    /// We choke the peer: we will not serve its requests.
    pub client_choked: bool,
    /// We want pieces the peer owns.
    pub client_interested: bool,
    /// The peer chokes us.
    pub peer_choked: bool,
    /// The peer wants pieces we own.
    pub peer_interested: bool,
}

impl Default for State {
    fn default() -> (r: Self)
        ensures
            r.client_choked && !r.client_interested && r.peer_choked && !r.peer_interested,
    {
        State {
            client_choked: true,
            client_interested: false,
            peer_choked: true,
            peer_interested: false,
        }
    }
}

/// A point-in-time copy of one connection's metrics, availability and
/// state, taken by the choking controller at the start of a tick.
#[derive(Debug)]
pub struct Snapshot {
    /// Bytes received from the peer since the last sample.
    pub downloaded: u64,
    /// Bytes served to the peer since the last sample.
    pub uploaded: u64,
    /// The pieces the peer claims to hold.
    pub availability: Bitmap,
    /// The connection's protocol state.
    pub state: State,
}

impl Clone for Snapshot {
    fn clone(&self) -> (r: Self)
        ensures
            r.downloaded == self.downloaded,
            r.uploaded == self.uploaded,
            r.availability@ == self.availability@,
            r.state == self.state,
    {
        Snapshot {
            downloaded: self.downloaded,
            uploaded: self.uploaded,
            availability: self.availability.clone(),
            state: self.state,
        }
    }
}

impl Default for Snapshot {
    fn default() -> (r: Self)
        ensures
            r.downloaded == 0,
            r.uploaded == 0,
            r.availability@.len() == 0,
            r.state.client_choked && !r.state.client_interested && r.state.peer_choked
                && !r.state.peer_interested,
    {
        Snapshot {
            downloaded: 0,
            uploaded: 0,
            availability: Bitmap::new(0),
            state: State::default(),
        }
    }
}

/// What a connection's sender thread can be told through its inbox.
#[derive(Clone, Copy, Debug, PartialEq, Eq, Structural)]
pub enum Command {
    /// Liveness probe: sending succeeds exactly while the thread lives.
    Ping,
    /// Exit the sender, closing the socket and thereby the receiver.
    Shutdown,
    /// The client now owns this piece; tell the peer unless it has it.
    ClientHave(u32),
    /// The peer announced this piece.
    PeerHave(u32),
    /// The peer's initial availability bitmap arrived.
    BitFieldReceived,
    /// Choke (`true`) or unchoke (`false`) the peer.
    Choke(bool),
    /// The peer choked (`true`) or unchoked (`false`) us.
    PeerChoke(bool),
    /// The peer asked for this sub-range: piece index, offset, length.
    SendChunk(u32, u32, u32),
}

/// Relies on `std::sync::mpsc::Sender`: the sending half of a channel,
/// carried here only to be handed to the trusted send below.
#[verifier::external_type_specification]
#[verifier::external_body]
#[verifier::reject_recursive_types(T)]
pub struct ExSender<T>(std::sync::mpsc::Sender<T>);

/// Relies on `std::sync::mpsc::Sender::send`: queues the command for the
/// receiving half and reports whether that half still exists.  Nothing is
/// assumed of the outcome; delivery depends on the other thread.
#[verifier::external_body]
pub(crate) fn channel_send(tx: &std::sync::mpsc::Sender<Command>, cmd: Command) -> (ok: bool) {
    tx.send(cmd).is_ok()
}

} // verus!
