//! The sending half of a connection: the outgoing request queue, the set
//! of pending (requested, not yet received) pieces, the outgoing piece
//! queue, and the handling of every inbox command.  Each handler appends
//! ready-to-write wire bytes to an output buffer; the socket itself and
//! the blocking loop around the inbox live outside the library.

use crate::bitset::{intersect, Bitmap};
use crate::connection::{Command, State};
use crate::encoding::clone_bytes;
use crate::metainfo::Metainfo;
use crate::peer::{spec_encode, spec_handshake, Handshake, Message, MessageV};
use crate::storage::{spec_owned, PieceStore};
use vstd::prelude::*;

verus! {

/// The queue length: how many piece requests a connection keeps in flight.
pub const QUEUE_LENGTH: usize = 5;

/// Why the sending side gave up on a connection.
#[derive(Debug)]
pub enum SenderError {
    /// The inbox channel is gone, or a shutdown command arrived.
    Channel,
    /// The connection is shutting down.
    Shutdown,
    /// A chunk request that does not fit any piece we own.
    InvalidRequest,
}

/// One queued outgoing sub-range: which piece, where it starts, how many
/// bytes, and the whole piece payload it is cut from.
pub struct Piece {
    pub index: u32,
    pub begin: u32,
    pub length: u32,
    pub data: Vec<u8>,
}

impl Piece {
    /// The sub-range lies inside the payload, is at least a byte, and the
    /// payload fits a wire frame.
    pub open spec fn wf(&self) -> bool {
        &&& (self.begin as int) < self.data@.len()
        &&& self.begin + self.length <= self.data@.len()
        &&& self.length > 0
        &&& self.data@.len() + 9 <= u32::MAX
    }

    /// The bytes this queued entry will put on the wire.
    pub open spec fn spec_payload(&self) -> Seq<u8> {
        self.data@.subrange(self.begin as int, self.begin + self.length)
    }

    pub fn new(index: u32, begin: u32, length: u32, data: Vec<u8>) -> (r: Self)
        requires
            (begin as int) < data@.len(),
            begin + length <= data@.len(),
            length > 0,
            data@.len() + 9 <= u32::MAX,
        ensures
            r.wf(),
            r.index == index,
            r.begin == begin,
            r.length == length,
            r.data == data,
            r.spec_payload() == data@.subrange(begin as int, begin + length),
    {
        Piece { index, begin, length, data }
    }

    /// The wire message for this entry: the whole payload when the range
    /// covers it, else a copy of the range.
    pub fn into_message(self) -> (r: Message)
        requires
            self.wf(),
        ensures
            r@ == (MessageV::Piece(self.index, self.begin, self.spec_payload())),
            crate::peer::spec_wf(r@),
    {
        if self.data.len() as u32 == self.length && self.begin == 0 {
            proof {
                assert(self.spec_payload() =~= self.data@);
            }
            return Message::Piece(self.index, self.begin, self.data);
        }
        let v = clone_bytes(
            vstd::slice::slice_subrange(
                self.data.as_slice(),
                self.begin as usize,
                self.begin as usize + self.length as usize,
            ),
        );
        Message::Piece(self.index, self.begin, v)
    }
}

/// Every request frame beyond the old queue asks, from offset zero, for
/// one whole piece that was absent and is now assigned to this peer.
pub open spec fn spec_new_requests_ok(
    pre: Sender,
    post: Sender,
    pre_st: Seq<crate::storage::StatusV>,
    post_st: Seq<crate::storage::StatusV>,
    mi: Metainfo,
) -> bool {
    &&& pre.spec_requests().len() <= post.spec_requests().len()
    &&& post.spec_requests().subrange(0, pre.spec_requests().len() as int) == pre.spec_requests()
    &&& forall|k: int|
        pre.spec_requests().len() <= k < post.spec_requests().len() ==> {
            let m = (#[trigger] post.spec_requests()[k])@;
            &&& m matches MessageV::Request(x, b, l)
            &&& b == 0
            &&& (x as int) < pre_st.len()
            &&& pre_st[x as int] is Absent
            &&& l == mi.spec_piece_size(x as int)
            &&& post_st[x as int] == crate::storage::StatusV::Requested(pre.spec_peer_id())
        }
}

/// What one refill attempt leaves behind: new requests were queued, or
/// nothing was selectable — then with nothing pending the interest is
/// dropped and `NotInterested` emitted, and with requests still pending
/// everything stays as it was.
pub open spec fn spec_refill_outcome(
    pre: Sender,
    post: Sender,
    post_conn: State,
    pre_st: Seq<crate::storage::StatusV>,
    post_st: Seq<crate::storage::StatusV>,
    pre_out: Seq<u8>,
    post_out: Seq<u8>,
) -> bool {
    ||| (post.spec_requests().len() > pre.spec_requests().len() && post_out == pre_out)
    ||| (!post_conn.client_interested && post_out == pre_out + spec_encode(
        MessageV::NotInterested,
    ) && post.spec_requests() == pre.spec_requests() && post.spec_pending() == pre.spec_pending()
        && post_st == pre_st)
    ||| (post.spec_pending().len() > 0 && post.spec_pending() == pre.spec_pending()
        && post.spec_requests() == pre.spec_requests() && post_st == pre_st && post_out == pre_out)
}

/// The guard under which a refill attempt does anything at all.
pub open spec fn spec_refill_trigger(pre: Sender, pre_conn: State) -> bool {
    pre_conn.client_interested && !pre_conn.peer_choked && pre.spec_pending().len()
        <= QUEUE_LENGTH / 2
}

/// The sending state machine of one connection.  The caller owns the
/// socket and the inbox channel; it drains commands into `handle`, pops
/// queued frames with `step_request` and `step_piece`, and writes whatever
/// the handlers put into the output buffer.
pub struct Sender {
    requests: Vec<Message>,
    pending: Vec<u32>,
    pieces: Vec<Piece>,
    peer_id: String,
    num_uploaded: u64,
}

impl Sender {
    /// The queued request frames, oldest first.
    pub closed spec fn spec_requests(&self) -> Seq<Message> {
        self.requests@
    }

    /// The distinct piece indices requested and not yet received.
    pub closed spec fn spec_pending(&self) -> Seq<u32> {
        self.pending@
    }

    /// The queued outgoing sub-ranges, oldest first.
    pub closed spec fn spec_pieces(&self) -> Seq<Piece> {
        self.pieces@
    }

    /// The peer this connection talks to.
    pub closed spec fn spec_peer_id(&self) -> Seq<char> {
        self.peer_id@
    }

    /// Bytes served and not yet reported.
    pub closed spec fn spec_uploaded(&self) -> u64 {
        self.num_uploaded
    }

    /// Queued requests are well-formed frames, pending indices are
    /// distinct, and queued sub-ranges fit their payloads.
    pub closed spec fn wf(&self) -> bool {
        &&& (forall|k: int|
            0 <= k < self.requests@.len() ==> crate::peer::spec_wf(
                (#[trigger] self.requests@[k])@,
            ))
        &&& (forall|k1: int, k2: int|
            0 <= k1 < k2 < self.pending@.len() ==> self.pending@[k1] != self.pending@[k2])
        &&& self.pending@.len() <= QUEUE_LENGTH
        &&& (forall|k: int| 0 <= k < self.pieces@.len() ==> (#[trigger] self.pieces@[k]).wf())
    }

    pub fn new(peer_id: String) -> (r: Self)
        ensures
            r.wf(),
            r.spec_peer_id() == peer_id@,
            r.spec_requests().len() == 0,
            r.spec_pending().len() == 0,
            r.spec_pieces().len() == 0,
            r.spec_uploaded() == 0,
    {
        Sender { requests: Vec::new(), pending: Vec::new(), pieces: Vec::new(), peer_id, num_uploaded: 0 }
    }

    /// Report and reset the served-bytes counter.
    pub fn take_uploaded(&mut self) -> (r: u64)
        requires
            old(self).wf(),
        ensures
            final(self).wf(),
            r == old(self).spec_uploaded(),
            final(self).spec_uploaded() == 0,
    {
        let r = self.num_uploaded;
        self.num_uploaded = 0;
        r
    }

    /// The frames a connection opens with: the handshake, then a bitfield
    /// advertising exactly the pieces the client owns.
    pub fn startup(&self, info_hash: &[u8], client_id: &[u8], store: &PieceStore, out: &mut Vec<
        u8,
    >)
        requires
            0 < store.spec_statuses().len() <= u32::MAX - 8,
        ensures
            final(out)@ == old(out)@ + spec_handshake(info_hash@, Some(client_id@)) + spec_encode(
                MessageV::BitField(spec_owned(store.spec_statuses(), false)),
            ),
    {
        Handshake::send(info_hash, Some(client_id), out);
        let bv = store.as_bitvec(false);
        proof {
            vstd::arithmetic::div_mod::lemma_fundamental_div_mod((bv@.len() + 7) as int, 8);
            vstd::arithmetic::div_mod::lemma_mod_bound((bv@.len() + 7) as int, 8);
        }
        let msg = Message::BitField(bv);
        msg.send(out);
    }

    /// A keep-alive frame, sent when nothing else has been for a while.
    pub fn keepalive(&self, out: &mut Vec<u8>)
        ensures
            final(out)@ == old(out)@ + spec_encode(MessageV::KeepAlive),
    {
        Message::KeepAlive.send(out);
    }

    /// Pop and serialise the oldest queued request frame, if any.
    pub fn step_request(&mut self, out: &mut Vec<u8>) -> (sent: bool)
        requires
            old(self).wf(),
        ensures
            final(self).wf(),
            sent == (old(self).spec_requests().len() > 0),
            sent ==> final(self).spec_requests() == old(self).spec_requests().drop_first()
                && final(out)@ == old(out)@ + spec_encode(old(self).spec_requests()[0]@),
            !sent ==> final(self).spec_requests() == old(self).spec_requests() && final(out)@
                == old(out)@,
            final(self).spec_pending() == old(self).spec_pending(),
            final(self).spec_pieces() == old(self).spec_pieces(),
            final(self).spec_uploaded() == old(self).spec_uploaded(),
            final(self).spec_peer_id() == old(self).spec_peer_id(),
    {
        if self.requests.len() == 0 {
            return false;
        }
        let msg = self.requests.remove(0);
        msg.send(out);
        proof {
            assert(self.requests@ =~= old(self).requests@.drop_first());
        }
        true
    }

    /// Pop and serialise the oldest queued piece frame, if any, counting
    /// its bytes as served.
    pub fn step_piece(&mut self, out: &mut Vec<u8>) -> (sent: bool)
        requires
            old(self).wf(),
        ensures
            final(self).wf(),
            sent == (old(self).spec_pieces().len() > 0),
            sent ==> final(self).spec_pieces() == old(self).spec_pieces().drop_first() && final(out)@ == old(out)@ + spec_encode(
                MessageV::Piece(
                    old(self).spec_pieces()[0].index,
                    old(self).spec_pieces()[0].begin,
                    old(self).spec_pieces()[0].spec_payload(),
                ),
            ) && final(self).spec_uploaded() == (if old(self).spec_uploaded() + old(self).spec_pieces()[0].length <= u64::MAX {
                (old(self).spec_uploaded() + old(self).spec_pieces()[0].length) as u64
            } else {
                old(self).spec_uploaded()
            }),
            !sent ==> final(self).spec_pieces() == old(self).spec_pieces() && final(out)@ == old(out)@ && final(self).spec_uploaded() == old(self).spec_uploaded(),
            final(self).spec_requests() == old(self).spec_requests(),
            final(self).spec_pending() == old(self).spec_pending(),
            final(self).spec_peer_id() == old(self).spec_peer_id(),
    {
        if self.pieces.len() == 0 {
            return false;
        }
        let piece = self.pieces.remove(0);
        proof {
            assert(self.pieces@ =~= old(self).pieces@.drop_first());
        }
        let length = piece.length;
        let msg = piece.into_message();
        msg.send(out);
        if self.num_uploaded <= u64::MAX - length as u64 {
            self.num_uploaded = self.num_uploaded + length as u64;
        }
        true
    }

    /// How many requests are outstanding.
    pub fn pending_len(&self) -> (r: usize)
        ensures
            r == self.spec_pending().len(),
    {
        self.pending.len()
    }

    /// Whether both outgoing queues are drained.
    pub fn queues_empty(&self) -> (r: bool)
        ensures
            r == (self.spec_requests().len() == 0 && self.spec_pieces().len() == 0),
    {
        self.requests.len() == 0 && self.pieces.len() == 0
    }

    /// Become interested or not: record it, tell the peer, and when newly
    /// interested immediately try to queue requests.
    fn interested(&mut self, interested: bool, conn: &mut State, availability: &Bitmap,
        store: &mut PieceStore, mi: &Metainfo, out: &mut Vec<u8>)
        requires
            old(self).wf(),
            old(store).wf(),
            mi.valid(),
            old(store).spec_statuses().len() == mi.spec_num_pieces(),
            availability@.len() == mi.spec_num_pieces(),
        ensures
            final(self).wf(),
            final(store).wf(),
            final(store).spec_statuses().len() == old(store).spec_statuses().len(),
            final(self).spec_peer_id() == old(self).spec_peer_id(),
            !interested ==> !final(conn).client_interested && final(self).spec_requests() == old(self).spec_requests() && final(self).spec_pending() == old(self).spec_pending() && final(self).spec_pieces() == old(self).spec_pieces() && final(out)@ == old(out)@ + spec_encode(
                MessageV::NotInterested,
            ) && final(store).spec_statuses() == old(store).spec_statuses(),
            interested ==> final(out)@.len() >= old(out)@.len() + 5 && final(out)@.subrange(
                old(out)@.len() as int,
                old(out)@.len() as int + 5,
            ) == spec_encode(MessageV::Interested) && spec_new_requests_ok(
                *old(self),
                *final(self),
                old(store).spec_statuses(),
                final(store).spec_statuses(),
                *mi,
            ),
            interested && !old(conn).peer_choked && old(self).spec_pending().len() <= QUEUE_LENGTH
                / 2 ==> spec_refill_outcome(
                *old(self),
                *final(self),
                *final(conn),
                old(store).spec_statuses(),
                final(store).spec_statuses(),
                old(out)@ + spec_encode(MessageV::Interested),
                final(out)@,
            ),
            interested && !(!old(conn).peer_choked && old(self).spec_pending().len()
                <= QUEUE_LENGTH / 2) ==> *final(self) == *old(self) && final(out)@ == old(out)@
                + spec_encode(MessageV::Interested) && final(store).spec_statuses() == old(store).spec_statuses() && final(conn).client_interested,
        decreases (if interested {
            2int
        } else {
            0int
        }),
    {
        conn.client_interested = interested;
        if interested {
            Message::Interested.send(out);
            let ghost mid_out = out@;
            self.queue_pieces(conn, availability, store, mi, out);
            proof {
                assert(spec_encode(MessageV::Interested).len() == 5);
                assert(mid_out.subrange(old(out)@.len() as int, old(out)@.len() as int + 5)
                    =~= spec_encode(MessageV::Interested));
                assert(out@.subrange(old(out)@.len() as int, old(out)@.len() as int + 5)
                    =~= spec_encode(MessageV::Interested));
            }
        } else {
            Message::NotInterested.send(out);
        }
    }

    /// The store gained a piece: tell the peer unless it already has it,
    /// and drop the piece from the pending set.
    pub fn handle_client_have(&mut self, index: u32, availability: &Bitmap, out: &mut Vec<u8>)
        requires
            old(self).wf(),
        ensures
            final(self).wf(),
            (index as int) < availability@.len() && availability@[index as int] ==> final(out)@
                == old(out)@,
            !((index as int) < availability@.len() && availability@[index as int]) ==> final(out)@
                == old(out)@ + spec_encode(MessageV::Have(index)),
            forall|x: u32|
                final(self).spec_pending().contains(x) == (old(self).spec_pending().contains(x)
                    && x != index),
            final(self).spec_requests() == old(self).spec_requests(),
            final(self).spec_pieces() == old(self).spec_pieces(),
            final(self).spec_peer_id() == old(self).spec_peer_id(),
    {
        let avail = (index as usize) < availability.len() && availability.get(index as usize);
        if !avail {
            Message::Have(index).send(out);
        }
        let ghost pending_pre = self.pending@;
        self.pending = remove_value(&self.pending, index);
        proof {
            assert forall|x: u32|
                self.pending@.contains(x) == (pending_pre.contains(x) && x != index) by {
                if self.pending@.contains(x) {
                    let t = choose|t: int|
                        0 <= t < self.pending@.len() && self.pending@[t] == x;
                }
                if pending_pre.contains(x) && x != index {
                    let t = choose|t: int| 0 <= t < pending_pre.len() && pending_pre[t] == x;
                }
            }
        }
    }

    /// The peer announced a piece: if the store still needs it, become
    /// interested (emitting the `Interested` frame and trying at once to
    /// queue requests); otherwise nothing moves.
    pub fn handle_peer_have(&mut self, index: u32, conn: &mut State, availability: &Bitmap,
        store: &mut PieceStore, mi: &Metainfo, out: &mut Vec<u8>)
        requires
            old(self).wf(),
            old(store).wf(),
            mi.valid(),
            index < mi.spec_num_pieces(),
            old(store).spec_statuses().len() == mi.spec_num_pieces(),
            availability@.len() == mi.spec_num_pieces(),
        ensures
            final(self).wf(),
            final(store).wf(),
            final(store).spec_statuses().len() == old(store).spec_statuses().len(),
            final(self).spec_peer_id() == old(self).spec_peer_id(),
            spec_new_requests_ok(
                *old(self),
                *final(self),
                old(store).spec_statuses(),
                final(store).spec_statuses(),
                *mi,
            ),
            !(old(store).spec_statuses()[index as int] is Absent) ==> *final(self) == *old(self)
                && *final(conn) == *old(conn) && final(out)@ == old(out)@ && final(store).spec_statuses() == old(store).spec_statuses(),
            old(store).spec_statuses()[index as int] is Absent ==> final(out)@.len() >= old(out)@.len() + 5 && final(out)@.subrange(
                old(out)@.len() as int,
                old(out)@.len() as int + 5,
            ) == spec_encode(MessageV::Interested),
    {
        let needed = store.check_if_needed(index);
        if needed {
            self.interested(true, conn, availability, store, mi, out);
        }
        proof {
            if self.requests@.len() == old(self).requests@.len() {
                assert(self.requests@.subrange(0, old(self).requests@.len() as int)
                    =~= self.requests@);
            }
        }
    }

    /// The peer's initial bitfield arrived: if it offers any piece that is
    /// still absent, become interested (emitting the `Interested` frame and
    /// trying at once to queue requests); otherwise nothing moves.
    pub fn handle_bitfield(&mut self, conn: &mut State, availability: &Bitmap,
        store: &mut PieceStore, mi: &Metainfo, out: &mut Vec<u8>)
        requires
            old(self).wf(),
            old(store).wf(),
            mi.valid(),
            old(store).spec_statuses().len() == mi.spec_num_pieces(),
            availability@.len() == mi.spec_num_pieces(),
        ensures
            final(self).wf(),
            final(store).wf(),
            final(store).spec_statuses().len() == old(store).spec_statuses().len(),
            final(self).spec_peer_id() == old(self).spec_peer_id(),
            spec_new_requests_ok(
                *old(self),
                *final(self),
                old(store).spec_statuses(),
                final(store).spec_statuses(),
                *mi,
            ),
            !(exists|i: int|
                0 <= i < old(store).spec_statuses().len() && (#[trigger] old(store).spec_statuses()[i]) is Absent && availability@[i]) ==> *final(self) == *old(self)
                && *final(conn) == *old(conn) && final(out)@ == old(out)@ && final(store).spec_statuses() == old(store).spec_statuses(),
            (exists|i: int|
                0 <= i < old(store).spec_statuses().len() && (#[trigger] old(store).spec_statuses()[i]) is Absent && availability@[i]) ==> final(out)@.len() >= old(out)@.len() + 5 && final(out)@.subrange(
                old(out)@.len() as int,
                old(out)@.len() as int + 5,
            ) == spec_encode(MessageV::Interested),
    {
        let owned = store.as_bitvec(true);
        let needed = intersect(&owned.complement(), availability);
        proof {
            let st = old(store).spec_statuses();
            assert(forall|i: int|
                0 <= i < st.len() ==> needed@[i] == (((#[trigger] st[i]) is Absent)
                    && availability@[i]));
            if exists|i: int| 0 <= i < needed@.len() && needed@[i] {
                let i = choose|i: int| 0 <= i < needed@.len() && needed@[i];
                assert((st[i] is Absent) && availability@[i]);
            }
            if exists|i: int|
                0 <= i < st.len() && ((#[trigger] st[i]) is Absent) && availability@[i] {
                let i = choose|i: int|
                    0 <= i < st.len() && ((#[trigger] st[i]) is Absent) && availability@[i];
                assert(needed@[i]);
            }
        }
        if needed.any() {
            self.interested(true, conn, availability, store, mi, out);
        }
        proof {
            if self.requests@.len() == old(self).requests@.len() {
                assert(self.requests@.subrange(0, old(self).requests@.len() as int)
                    =~= self.requests@);
            }
        }
    }

    /// We choke or unchoke the peer: record it, tell the peer, and on a
    /// choke drop every queued outgoing piece.
    pub fn handle_client_choke(&mut self, choke: bool, conn: &mut State, out: &mut Vec<u8>)
        requires
            old(self).wf(),
        ensures
            final(self).wf(),
            final(conn).client_choked == choke,
            final(conn).client_interested == old(conn).client_interested,
            final(conn).peer_choked == old(conn).peer_choked,
            final(conn).peer_interested == old(conn).peer_interested,
            choke ==> final(self).spec_pieces().len() == 0 && final(out)@ == old(out)@
                + spec_encode(MessageV::Choke),
            !choke ==> final(self).spec_pieces() == old(self).spec_pieces() && final(out)@ == old(out)@ + spec_encode(MessageV::Unchoke),
            final(self).spec_requests() == old(self).spec_requests(),
            final(self).spec_pending() == old(self).spec_pending(),
            final(self).spec_peer_id() == old(self).spec_peer_id(),
    {
        conn.client_choked = choke;
        if choke {
            self.pieces = Vec::new();
            Message::Choke.send(out);
        } else {
            Message::Unchoke.send(out);
        }
    }

    /// The peer choked or unchoked us.  On a choke, every pending and
    /// queued request is dropped and the store rolls the assignments back;
    /// on an unchoke, we immediately try to queue new requests.
    pub fn handle_peer_choke(&mut self, choke: bool, conn: &mut State, availability: &Bitmap,
        store: &mut PieceStore, mi: &Metainfo, out: &mut Vec<u8>)
        requires
            old(self).wf(),
            old(store).wf(),
            mi.valid(),
            old(store).spec_statuses().len() == mi.spec_num_pieces(),
            availability@.len() == mi.spec_num_pieces(),
        ensures
            final(self).wf(),
            final(store).wf(),
            final(store).spec_statuses().len() == old(store).spec_statuses().len(),
            final(self).spec_peer_id() == old(self).spec_peer_id(),
            choke ==> final(self).spec_pending().len() == 0 && final(self).spec_requests().len()
                == 0 && final(self).spec_pieces() == old(self).spec_pieces() && final(out)@ == old(out)@ && *final(conn) == *old(conn) && (forall|i: int|
                0 <= i < old(store).spec_statuses().len() ==> final(store).spec_statuses()[i] == (
                if old(store).spec_statuses()[i] == crate::storage::StatusV::Requested(
                    old(self).spec_peer_id(),
                ) {
                    crate::storage::StatusV::Absent
                } else {
                    old(store).spec_statuses()[i]
                })),
            // An unchoke is a refill attempt.
            !choke ==> spec_new_requests_ok(
                *old(self),
                *final(self),
                old(store).spec_statuses(),
                final(store).spec_statuses(),
                *mi,
            ),
            !choke && !spec_refill_trigger(*old(self), *old(conn)) ==> *final(self) == *old(self)
                && *final(conn) == *old(conn) && final(out)@ == old(out)@ && final(store).spec_statuses() == old(store).spec_statuses(),
            !choke && spec_refill_trigger(*old(self), *old(conn)) ==> spec_refill_outcome(
                *old(self),
                *final(self),
                *final(conn),
                old(store).spec_statuses(),
                final(store).spec_statuses(),
                old(out)@,
                final(out)@,
            ),
    {
        if choke {
            self.pending = Vec::new();
            self.requests = Vec::new();
            store.clear_requests(self.peer_id.as_str());
        } else {
            self.queue_pieces(conn, availability, store, mi, out);
        }
    }

    /// The peer asked for a sub-range: check it against the piece count
    /// and size, fetch the piece, and queue the range for sending.  The
    /// request is refused when it names a piece we do not have or a range
    /// that does not fit.
    pub fn handle_send_chunk(&mut self, index: u32, begin: u32, length: u32, store: &PieceStore,
        mi: &Metainfo) -> (r: Result<(), SenderError>)
        requires
            old(self).wf(),
            store.wf(),
            mi.valid(),
            store.spec_statuses().len() == mi.spec_num_pieces(),
        ensures
            final(self).wf(),
            final(self).spec_peer_id() == old(self).spec_peer_id(),
            match r {
                // The queued entry carries exactly the asked-for sub-range
                // of the piece the store holds at that index.
                Ok(()) => (index as int) < mi.spec_num_pieces() && length > 0 && begin + length
                    <= mi.spec_piece_size(index as int) && final(self).spec_pieces() == old(self).spec_pieces().push(final(self).spec_pieces().last()) && final(self).spec_pieces().last().index == index && final(self).spec_pieces().last().begin
                    == begin && final(self).spec_pieces().last().length == length && (exists|
                    v: Seq<u8>,
                |
                    {
                        &&& #[trigger] store.spec_statuses()[index as int]
                            == crate::storage::StatusV::Downloaded(v)
                        &&& begin + length <= v.len()
                        &&& final(self).spec_pieces().last().spec_payload() == v.subrange(
                            begin as int,
                            begin + length,
                        )
                    }),
                // A request is refused exactly when it misses the piece
                // count, asks for nothing, runs past the piece, or names a
                // piece we do not hold in a frame-sized payload.
                Err(SenderError::InvalidRequest) => final(self).spec_pieces() == old(self).spec_pieces() && ((index as int) >= mi.spec_num_pieces() || length == 0 || begin
                    + length > mi.spec_piece_size(index as int) || !(
                store.spec_statuses()[index as int] is Downloaded) || (
                store.spec_statuses()[index as int] matches crate::storage::StatusV::Downloaded(v)
                    && (begin + length > v.len() || v.len() + 9 > u32::MAX))),
                Err(_) => false,
            },
    {
        if index >= mi.num_pieces() {
            return Err(SenderError::InvalidRequest);
        }
        if length == 0 || begin >= mi.get_piece_size(index) || length > mi.get_piece_size(index)
            - begin {
            return Err(SenderError::InvalidRequest);
        }
        let piece = match store.get(index) {
            Some(v) => v,
            None => {
                return Err(SenderError::InvalidRequest);
            },
        };
        if (begin as usize) >= piece.len() || (length as usize) > piece.len() - begin as usize
            || piece.len() > (u32::MAX - 9) as usize {
            return Err(SenderError::InvalidRequest);
        }
        let ghost payload = piece@;
        let entry = Piece::new(index, begin, length, piece);
        self.pieces.push(entry);
        proof {
            assert(self.pieces@ =~= old(self).pieces@.push(self.pieces@.last()));
            assert(store.spec_statuses()[index as int] == crate::storage::StatusV::Downloaded(
                payload,
            ));
        }
        Ok(())
    }

    /// When interested, unchoked and below half the queue length, ask the
    /// store for pieces up to the queue length and queue one whole-piece
    /// request per returned index; when the store has nothing for us and
    /// nothing is pending, declare the interest gone.
    pub fn queue_pieces(&mut self, conn: &mut State, availability: &Bitmap,
        store: &mut PieceStore, mi: &Metainfo, out: &mut Vec<u8>)
        requires
            old(self).wf(),
            old(store).wf(),
            mi.valid(),
            old(store).spec_statuses().len() == mi.spec_num_pieces(),
            availability@.len() == mi.spec_num_pieces(),
        ensures
            final(self).wf(),
            final(store).wf(),
            final(store).spec_statuses().len() == old(store).spec_statuses().len(),
            final(self).spec_pending().len() <= QUEUE_LENGTH,
            final(self).spec_peer_id() == old(self).spec_peer_id(),
            // The request queue only grows, and every queued frame asks for
            // one whole piece that was absent and is now assigned to this
            // peer.
            spec_new_requests_ok(
                *old(self),
                *final(self),
                old(store).spec_statuses(),
                final(store).spec_statuses(),
                *mi,
            ),
            // Without the guard nothing moves; under it, requests are
            // queued or the empty selection is answered.
            !spec_refill_trigger(*old(self), *old(conn)) ==> *final(self) == *old(self) && *final(conn) == *old(conn) && final(out)@ == old(out)@ && final(store).spec_statuses() == old(store).spec_statuses(),
            spec_refill_trigger(*old(self), *old(conn)) ==> spec_refill_outcome(
                *old(self),
                *final(self),
                *final(conn),
                old(store).spec_statuses(),
                final(store).spec_statuses(),
                old(out)@,
                final(out)@,
            ),
        decreases 1int,
    {
        if conn.client_interested && !conn.peer_choked && self.pending.len() <= QUEUE_LENGTH / 2 {
            let want = (QUEUE_LENGTH - self.pending.len()) as u32;
            let ghost requests_pre = self.requests@;
            let res = store.request_pieces(self.peer_id.as_str(), availability.clone(), want);
            match res {
                Ok(v) => {
                    let ghost vv = v@;
                    let ghost store_mid = *store;
                    let vlen = v.len();
                    let mut k: usize = 0;
                    while k < vlen
                        invariant
                            k <= vlen,
                            vlen == vv.len(),
                            v@ == vv,
                            self.wf(),
                            mi.valid(),
                            self.peer_id@ == old(self).peer_id@,
                            requests_pre == old(self).requests@,
                            *store == store_mid,
                            store_mid.spec_statuses().len() == old(store).spec_statuses().len(),
                            old(store).spec_statuses().len() == mi.spec_num_pieces(),
                            forall|t: int|
                                0 <= t < vv.len() ==> (vv[t] as int) < old(store).spec_statuses().len() && old(store).spec_statuses()[vv[t] as int]
                                    is Absent && store_mid.spec_statuses()[vv[t] as int]
                                    == crate::storage::StatusV::Requested(old(self).peer_id@),
                            forall|t1: int, t2: int| 0 <= t1 < t2 < vv.len() ==> vv[t1] != vv[t2],
                            self.pending@.len() <= old(self).pending@.len() + k,
                            old(self).pending@.len() <= QUEUE_LENGTH / 2,
                            vlen <= QUEUE_LENGTH - old(self).pending@.len(),
                            conn.client_interested == old(conn).client_interested,
                            self.requests@.len() == requests_pre.len() + k,
                            self.requests@.subrange(0, requests_pre.len() as int) == requests_pre,
                            forall|t: int|
                                requests_pre.len() <= t < self.requests@.len() ==> (
                                #[trigger] self.requests@[t])@ == MessageV::Request(
                                    vv[t - requests_pre.len()],
                                    0,
                                    mi.spec_piece_size(vv[t - requests_pre.len()] as int) as u32,
                                ),
                        decreases vlen - k,
                    {
                        let x = v[k];
                        self.push_pending(x);
                        let size = mi.get_piece_size(x);
                        let ghost reqs = self.requests@;
                        self.requests.push(Message::Request(x, 0, size));
                        proof {
                            assert(self.requests@.subrange(0, requests_pre.len() as int)
                                =~= reqs.subrange(0, requests_pre.len() as int));
                        }
                        k = k + 1;
                    }
                    proof {
                        assert forall|t: int|
                            requests_pre.len() <= t < self.requests@.len() implies {
                            let m = (#[trigger] self.requests@[t])@;
                            &&& m matches MessageV::Request(x, b, l)
                            &&& b == 0
                            &&& (x as int) < old(store).spec_statuses().len()
                            &&& old(store).spec_statuses()[x as int] is Absent
                            &&& l == mi.spec_piece_size(x as int)
                            &&& store.spec_statuses()[x as int]
                                == crate::storage::StatusV::Requested(old(self).spec_peer_id())
                        } by {
                            let x = vv[t - requests_pre.len()];
                            mi.info.lemma_piece_size_bounds(x as int);
                        }
                    }
                },
                Err(()) => {
                    if self.pending.len() == 0 {
                        self.interested(false, conn, availability, store, mi, out);
                    }
                },
            }
        }
        proof {
            if self.requests@.len() == old(self).requests@.len() {
                assert(self.requests@.subrange(0, old(self).requests@.len() as int)
                    =~= self.requests@);
            }
        }
    }

    /// Add one index to the pending set unless it is already there,
    /// keeping the indices distinct.
    fn push_pending(&mut self, x: u32)
        requires
            old(self).wf(),
            old(self).spec_pending().len() < QUEUE_LENGTH,
        ensures
            final(self).wf(),
            old(self).spec_pending().len() <= final(self).spec_pending().len() <= old(self).spec_pending().len() + 1,
            final(self).spec_pending().contains(x),
            final(self).spec_requests() == old(self).spec_requests(),
            final(self).spec_pieces() == old(self).spec_pieces(),
            final(self).spec_peer_id() == old(self).spec_peer_id(),
            final(self).spec_uploaded() == old(self).spec_uploaded(),
    {
        let plen = self.pending.len();
        let mut k: usize = 0;
        while k < plen
            invariant
                k <= plen,
                plen == self.pending@.len(),
                forall|t: int| 0 <= t < k ==> self.pending@[t] != x,
                *self == *old(self),
                old(self).wf(),
            decreases plen - k,
        {
            if self.pending[k] == x {
                proof {
                    assert(self.pending@.contains(x));
                }
                return ;
            }
            k = k + 1;
        }
        self.pending.push(x);
        proof {
            assert(self.pending@[self.pending@.len() - 1] == x);
            assert(self.pending@.contains(x));
        }
    }

    /// Dispatch one inbox command.
    pub fn handle(&mut self, cmd: Command, conn: &mut State, availability: &Bitmap,
        store: &mut PieceStore, mi: &Metainfo, out: &mut Vec<u8>) -> (r: Result<(), SenderError>)
        requires
            old(self).wf(),
            old(store).wf(),
            mi.valid(),
            old(store).spec_statuses().len() == mi.spec_num_pieces(),
            availability@.len() == mi.spec_num_pieces(),
        ensures
            final(self).wf(),
            final(store).wf(),
            final(store).spec_statuses().len() == old(store).spec_statuses().len(),
            final(self).spec_peer_id() == old(self).spec_peer_id(),
            match r {
                Ok(()) => !(cmd is Shutdown),
                Err(SenderError::Channel) => cmd is Shutdown,
                Err(SenderError::InvalidRequest) => cmd is SendChunk,
                Err(_) => false,
            },
            // A ping or a shutdown moves nothing.
            (cmd is Ping || cmd is Shutdown) ==> *final(self) == *old(self) && *final(conn)
                == *old(conn) && final(out)@ == old(out)@ && final(store).spec_statuses() == old(store).spec_statuses(),
            // A fresh piece of ours: tell the peer unless it has it, and
            // drop it from the pending set.
            cmd matches Command::ClientHave(i) ==> *final(conn) == *old(conn) && final(store).spec_statuses() == old(store).spec_statuses() && ((i as int) < availability@.len()
                && availability@[i as int] ==> final(out)@ == old(out)@) && (!((i as int)
                < availability@.len() && availability@[i as int]) ==> final(out)@ == old(out)@
                + spec_encode(MessageV::Have(i))) && (forall|x: u32|
                final(self).spec_pending().contains(x) == (old(self).spec_pending().contains(x)
                    && x != i)),
            // A peer announcement within range is an interest check; one
            // out of range is ignored.
            cmd matches Command::PeerHave(i) && (i as int) < mi.spec_num_pieces() && !(old(store).spec_statuses()[i as int] is Absent) ==> *final(self) == *old(self) && *final(conn)
                == *old(conn) && final(out)@ == old(out)@ && final(store).spec_statuses() == old(store).spec_statuses(),
            cmd matches Command::PeerHave(i) && (i as int) >= mi.spec_num_pieces() ==> *final(self)
                == *old(self) && *final(conn) == *old(conn) && final(out)@ == old(out)@ && final(store).spec_statuses() == old(store).spec_statuses(),
            // The initial bitfield is an interest check over everything
            // absent and available.
            cmd is BitFieldReceived && !(exists|i: int|
                0 <= i < old(store).spec_statuses().len() && (#[trigger] old(store).spec_statuses()[i]) is Absent && availability@[i]) ==> *final(self) == *old(self)
                && *final(conn) == *old(conn) && final(out)@ == old(out)@ && final(store).spec_statuses() == old(store).spec_statuses(),
            // Our own choking decision is recorded and sent.
            cmd matches Command::Choke(b) ==> final(conn).client_choked == b && final(store).spec_statuses() == old(store).spec_statuses() && (b ==> final(self).spec_pieces().len() == 0 && final(out)@ == old(out)@ + spec_encode(MessageV::Choke))
                && (!b ==> final(self).spec_pieces() == old(self).spec_pieces() && final(out)@
                == old(out)@ + spec_encode(MessageV::Unchoke)),
            // The peer's choke rolls our requests back; its unchoke is a
            // refill attempt.
            cmd matches Command::PeerChoke(b) && b ==> final(self).spec_pending().len() == 0
                && final(self).spec_requests().len() == 0 && final(out)@ == old(out)@ && (forall|
                i: int,
            |
                0 <= i < old(store).spec_statuses().len() ==> final(store).spec_statuses()[i] == (
                if old(store).spec_statuses()[i] == crate::storage::StatusV::Requested(
                    old(self).spec_peer_id(),
                ) {
                    crate::storage::StatusV::Absent
                } else {
                    old(store).spec_statuses()[i]
                })),
            cmd matches Command::PeerChoke(b) && !b && spec_refill_trigger(*old(self), *old(conn))
                ==> spec_refill_outcome(
                *old(self),
                *final(self),
                *final(conn),
                old(store).spec_statuses(),
                final(store).spec_statuses(),
                old(out)@,
                final(out)@,
            ),
            // A chunk request queues the asked-for range or is refused; the
            // queue and the wire are otherwise untouched.
            cmd matches Command::SendChunk(i, b, l) ==> final(out)@ == old(out)@ && *final(conn)
                == *old(conn) && final(store).spec_statuses() == old(store).spec_statuses() && (
            match r {
                Ok(()) => final(self).spec_pieces() == old(self).spec_pieces().push(
                    final(self).spec_pieces().last(),
                ) && final(self).spec_pieces().last().index == i && final(self).spec_pieces().last().begin == b && final(self).spec_pieces().last().length == l,
                Err(_) => final(self).spec_pieces() == old(self).spec_pieces(),
            }),
    {
        match cmd {
            Command::Ping => Ok(()),
            Command::Shutdown => Err(SenderError::Channel),
            Command::ClientHave(index) => {
                self.handle_client_have(index, availability, out);
                Ok(())
            },
            Command::PeerHave(index) => {
                if index < mi.num_pieces() {
                    self.handle_peer_have(index, conn, availability, store, mi, out);
                }
                Ok(())
            },
            Command::BitFieldReceived => {
                self.handle_bitfield(conn, availability, store, mi, out);
                Ok(())
            },
            Command::Choke(b) => {
                self.handle_client_choke(b, conn, out);
                Ok(())
            },
            Command::PeerChoke(b) => {
                self.handle_peer_choke(b, conn, availability, store, mi, out);
                Ok(())
            },
            Command::SendChunk(index, begin, length) => {
                match self.handle_send_chunk(index, begin, length, store, mi) {
                    Ok(()) => Ok(()),
                    Err(e) => Err(e),
                }
            },
        }
    }
}

/// The list without every occurrence of `x`, order kept.
fn remove_value(v: &Vec<u32>, x: u32) -> (r: Vec<u32>)
    requires
        forall|t1: int, t2: int| 0 <= t1 < t2 < v@.len() ==> v@[t1] != v@[t2],
    ensures
        forall|t: int| 0 <= t < r@.len() ==> r@[t] != x && v@.contains(r@[t]),
        forall|t: int| 0 <= t < v@.len() && v@[t] != x ==> r@.contains(v@[t]),
        forall|t1: int, t2: int| 0 <= t1 < t2 < r@.len() ==> r@[t1] != r@[t2],
        r@.len() <= v@.len(),
{
    let mut out: Vec<u32> = Vec::new();
    let mut i: usize = 0;
    while i < v.len()
        invariant
            i <= v@.len(),
            out@.len() <= i,
            forall|t1: int, t2: int| 0 <= t1 < t2 < v@.len() ==> v@[t1] != v@[t2],
            forall|t: int|
                0 <= t < out@.len() ==> out@[t] != x && v@.take(i as int).contains(out@[t]),
            forall|t: int| 0 <= t < i && v@[t] != x ==> out@.contains(v@[t]),
            forall|t1: int, t2: int| 0 <= t1 < t2 < out@.len() ==> out@[t1] != out@[t2],
        decreases v@.len() - i,
    {
        let y = v[i];
        let ghost out_pre = out@;
        if y != x {
            proof {
                assert forall|t: int| 0 <= t < out@.len() implies out@[t] != y by {
                    let u = choose|u: int|
                        0 <= u < v@.take(i as int).len() && v@.take(i as int)[u] == out@[t];
                    assert(v@[u] == out@[t]);
                }
            }
            out.push(y);
        }
        proof {
            assert forall|t: int|
                0 <= t < out@.len() implies out@[t] != x && v@.take(i + 1).contains(out@[t]) by {
                if t < out_pre.len() {
                    let u = choose|u: int|
                        0 <= u < v@.take(i as int).len() && v@.take(i as int)[u] == out_pre[t];
                    assert(v@.take(i + 1)[u] == out@[t]);
                } else {
                    assert(out@[t] == y);
                    assert(v@.take(i + 1)[i as int] == out@[t]);
                }
            }
            assert forall|t: int| 0 <= t < i + 1 && v@[t] != x implies out@.contains(v@[t]) by {
                if t < i {
                    let u = choose|u: int| 0 <= u < out_pre.len() && out_pre[u] == v@[t];
                    assert(out@[u] == v@[t]);
                } else {
                    assert(out@[out@.len() - 1] == v@[t]);
                }
            }
        }
        i = i + 1;
    }
    proof {
        assert forall|t: int| 0 <= t < out@.len() implies out@[t] != x && v@.contains(out@[t]) by {
            let u = choose|u: int|
                0 <= u < v@.take(v@.len() as int).len() && v@.take(v@.len() as int)[u] == out@[t];
            assert(v@[u] == out@[t]);
        }
    }
    out
}

} // verus!
