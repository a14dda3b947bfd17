//! The receiving half of a connection: per-piece assembly of sub-range
//! chunks with SHA-1 verification, and the dispatch of every parsed wire
//! message into state updates, commands for the sender thread, and store
//! calls.  The socket loop that feeds it lives outside the library.

use crate::bitset::Bitmap;
use crate::connection::{Command, State};
use crate::digest::{sha1, sha1_of};
use crate::metainfo::Metainfo;
use crate::peer;
use crate::peer::{Message, MessageV};
use crate::storage::{PieceStore, StatusV};
use vstd::prelude::*;

verus! {

/// One received sub-range of a piece.
pub struct Chunk {
    pub begin: u32,
    pub data: Vec<u8>,
}

/// The mathematical shape of a chunk.
pub struct ChunkV {
    pub begin: u32,
    pub data: Seq<u8>,
}

impl View for Chunk {
    type V = ChunkV;

    open spec fn view(&self) -> ChunkV {
        ChunkV { begin: self.begin, data: self.data@ }
    }
}

/// Why a chunk was refused or a piece rejected.
#[derive(Debug)]
pub enum PieceBuilderError {
    /// The chunk is larger than what remains: (remaining, got).
    InvalidSize(u32, u32),
    /// The chunk starts at or past the end: (piece size, begin).
    InvalidBegin(u32, u32),
    /// The chunk runs past the end: (piece size, begin, length).
    InsufficientSize(u32, u32, u32),
    /// The assembled piece does not hash to the recorded digest.
    InvalidPiece,
}

/// The byte at offset `i` of the assembled buffer: the byte of the latest
/// chunk covering `i`, or zero where no chunk does.
pub open spec fn spec_assembled_byte(chunks: Seq<ChunkV>, i: int) -> u8
    decreases chunks.len(),
{
    if chunks.len() == 0 {
        0
    } else {
        let c = chunks.last();
        if c.begin <= i < c.begin + c.data.len() {
            c.data[i - c.begin]
        } else {
            spec_assembled_byte(chunks.drop_last(), i)
        }
    }
}

/// The whole assembled buffer of a piece of `size` bytes.
pub open spec fn spec_assembled(chunks: Seq<ChunkV>, size: int) -> Seq<u8> {
    Seq::new(size as nat, |i: int| spec_assembled_byte(chunks, i))
}

/// Total bytes held by the chunks.
pub open spec fn spec_chunks_len(chunks: Seq<ChunkV>) -> int
    decreases chunks.len(),
{
    if chunks.len() == 0 {
        0
    } else {
        spec_chunks_len(chunks.drop_last()) + chunks.last().data.len()
    }
}

/// The accumulator for one in-flight piece.
pub struct PieceBuilder {
    /// The piece being assembled.
    pub index: u32,
    remaining: u32,
    size: u32,
    chunks: Vec<Chunk>,
    digest: Vec<u8>,
}

impl PieceBuilder {
    /// The chunks received so far.
    pub closed spec fn spec_chunks(&self) -> Seq<ChunkV> {
        Seq::new(self.chunks@.len(), |k: int| self.chunks@[k]@)
    }

    /// The piece this accumulator is for.
    pub closed spec fn spec_index(&self) -> u32 {
        self.index
    }

    /// The piece size being assembled.
    pub closed spec fn spec_size(&self) -> u32 {
        self.size
    }

    /// Bytes still missing.
    pub closed spec fn spec_remaining(&self) -> u32 {
        self.remaining
    }

    /// The 20-byte digest this piece must hash to.
    pub closed spec fn spec_digest(&self) -> Seq<u8> {
        self.digest@
    }

    /// The accumulator's invariant: the received bytes and the missing
    /// bytes always add up to the piece size, and every chunk lies inside
    /// the piece.
    pub closed spec fn wf(&self) -> bool {
        &&& self.remaining <= self.size
        &&& spec_chunks_len(self.spec_chunks()) + self.remaining == self.size
        &&& (forall|k: int|
            0 <= k < self.spec_chunks().len() ==> (#[trigger] self.spec_chunks()[k]).begin
                < self.size && self.spec_chunks()[k].begin + self.spec_chunks()[k].data.len()
                <= self.size)
    }

    /// A fresh accumulator for piece `index`, remembering its size and its
    /// expected digest.
    pub fn new(mi: &Metainfo, index: u32) -> (r: Self)
        requires
            mi.valid(),
            index < mi.spec_num_pieces(),
        ensures
            r.wf(),
            r.spec_index() == index,
            r.spec_size() == mi.spec_piece_size(index as int),
            r.spec_remaining() == r.spec_size(),
            r.spec_chunks().len() == 0,
            r.spec_digest() == mi.info.pieces@.subrange(index as int * 20, index as int * 20 + 20),
    {
        let size = mi.get_piece_size(index);
        let plen = mi.info.pieces.len();
        proof {
            vstd::arithmetic::div_mod::lemma_fundamental_div_mod(plen as int, 20);
            vstd::arithmetic::div_mod::lemma_mod_bound(plen as int, 20);
            assert(plen as int == 20 * mi.spec_num_pieces());
            assert(index as int * 20 + 20 <= plen as int);
        }
        let digest = crate::encoding::clone_bytes(
            vstd::slice::slice_subrange(
                mi.info.pieces.as_slice(),
                index as usize * 20,
                index as usize * 20 + 20,
            ),
        );
        let r = PieceBuilder { index, remaining: size, size, chunks: Vec::new(), digest };
        proof {
            assert(r.spec_chunks() =~= Seq::<ChunkV>::empty());
        }
        r
    }

    /// Write every chunk, in arrival order, into a zeroed buffer of the
    /// piece size.
    fn assemble(&self) -> (r: Vec<u8>)
        requires
            self.wf(),
        ensures
            r@ == spec_assembled(self.spec_chunks(), self.spec_size() as int),
    {
        let size = self.size as usize;
        let mut buf: Vec<u8> = Vec::new();
        let mut i: usize = 0;
        while i < size
            invariant
                i <= size,
                buf@ == Seq::new(i as nat, |j: int| 0u8),
            decreases size - i,
        {
            buf.push(0);
            proof {
                assert(buf@ =~= Seq::new((i + 1) as nat, |j: int| 0u8));
            }
            i = i + 1;
        }
        proof {
            assert forall|j: int|
                0 <= j < size implies spec_assembled_byte(self.spec_chunks().take(0), j) == 0 by {
                assert(self.spec_chunks().take(0).len() == 0);
            }
            assert(buf@ =~= spec_assembled(self.spec_chunks().take(0), self.spec_size() as int));
        }
        let nchunks = self.chunks.len();
        let mut k: usize = 0;
        while k < nchunks
            invariant
                k <= nchunks,
                self.wf(),
                nchunks == self.spec_chunks().len(),
                buf@.len() == self.spec_size(),
                buf@ == spec_assembled(self.spec_chunks().take(k as int), self.spec_size() as int),
            decreases nchunks - k,
        {
            let begin = self.chunks[k].begin as usize;
            let dlen = self.chunks[k].data.len();
            proof {
                assert(self.spec_chunks()[k as int] == self.chunks@[k as int]@);
            }
            let mut j: usize = 0;
            while j < dlen
                invariant
                    j <= dlen,
                    k < nchunks,
                    self.wf(),
                    nchunks == self.spec_chunks().len(),
                    begin == self.spec_chunks()[k as int].begin,
                    dlen == self.spec_chunks()[k as int].data.len(),
                    dlen == self.chunks@[k as int].data@.len(),
                    begin + dlen <= self.spec_size(),
                    buf@.len() == self.spec_size(),
                    forall|t: int|
                        0 <= t < buf@.len() && !(begin <= t < begin + j) ==> buf@[t]
                            == spec_assembled(
                            self.spec_chunks().take(k as int),
                            self.spec_size() as int,
                        )[t],
                    forall|t: int|
                        begin <= t < begin + j ==> buf@[t] == self.spec_chunks()[k as int].data[t
                            - begin],
                decreases dlen - j,
            {
                buf.set(begin + j, self.chunks[k].data[j]);
                j = j + 1;
            }
            proof {
                assert(self.spec_chunks().take(k + 1).last() == self.spec_chunks()[k as int]);
                assert(self.spec_chunks().take(k + 1).drop_last() =~= self.spec_chunks().take(
                    k as int,
                ));
                assert forall|t: int|
                    0 <= t < buf@.len() implies buf@[t] == spec_assembled_byte(
                    self.spec_chunks().take(k + 1),
                    t,
                ) by {}
                assert(buf@ =~= spec_assembled(
                    self.spec_chunks().take(k + 1),
                    self.spec_size() as int,
                ));
            }
            k = k + 1;
        }
        proof {
            assert(self.spec_chunks().take(nchunks as int) =~= self.spec_chunks());
        }
        buf
    }

    /// Fold one chunk in.  The complete, digest-checked payload comes back
    /// exactly when this chunk supplies the last missing byte and the
    /// assembled buffer hashes to the recorded digest; a chunk that does
    /// not fit, or a failing digest, is an error; otherwise the piece is
    /// still incomplete.
    pub fn add(&mut self, chunk: Chunk) -> (r: Result<Option<Vec<u8>>, PieceBuilderError>)
        requires
            old(self).wf(),
            chunk@.data.len() <= u32::MAX,
        ensures
            final(self).wf(),
            final(self).spec_index() == old(self).spec_index(),
            final(self).spec_size() == old(self).spec_size(),
            final(self).spec_digest() == old(self).spec_digest(),
            match r {
                Ok(Some(v)) => {
                    &&& chunk@.data.len() <= old(self).spec_remaining()
                    &&& chunk@.begin < old(self).spec_size()
                    &&& chunk@.begin + chunk@.data.len() <= old(self).spec_size()
                    &&& final(self).spec_remaining() == 0
                    &&& final(self).spec_chunks() == old(self).spec_chunks().push(chunk@)
                    &&& v@ == spec_assembled(
                        final(self).spec_chunks(),
                        old(self).spec_size() as int,
                    )
                    &&& sha1_of(v@) == old(self).spec_digest()
                },
                Ok(None) => {
                    &&& chunk@.data.len() <= old(self).spec_remaining()
                    &&& chunk@.begin < old(self).spec_size()
                    &&& chunk@.begin + chunk@.data.len() <= old(self).spec_size()
                    &&& final(self).spec_remaining() == old(self).spec_remaining()
                        - chunk@.data.len() > 0
                    &&& final(self).spec_chunks() == old(self).spec_chunks().push(chunk@)
                },
                Err(PieceBuilderError::InvalidSize(rem, got)) => rem == old(self).spec_remaining()
                    && got == chunk@.data.len() && chunk@.data.len() > old(self).spec_remaining()
                    && *final(self) == *old(self),
                Err(PieceBuilderError::InvalidBegin(size, begin)) => size == old(self).spec_size()
                    && begin == chunk@.begin && chunk@.data.len() <= old(self).spec_remaining()
                    && chunk@.begin >= old(self).spec_size() && *final(self) == *old(self),
                Err(PieceBuilderError::InsufficientSize(size, begin, len)) => size == old(self).spec_size() && begin == chunk@.begin && len == chunk@.data.len()
                    && chunk@.data.len() <= old(self).spec_remaining() && chunk@.begin < old(self).spec_size() && chunk@.begin + chunk@.data.len() > old(self).spec_size()
                    && *final(self) == *old(self),
                Err(PieceBuilderError::InvalidPiece) => {
                    &&& chunk@.data.len() <= old(self).spec_remaining()
                    &&& chunk@.begin < old(self).spec_size()
                    &&& chunk@.begin + chunk@.data.len() <= old(self).spec_size()
                    &&& final(self).spec_remaining() == 0
                    &&& final(self).spec_chunks() == old(self).spec_chunks().push(chunk@)
                    &&& sha1_of(
                        spec_assembled(final(self).spec_chunks(), old(self).spec_size() as int),
                    ) != old(self).spec_digest()
                },
            },
    {
        let dlen32 = chunk.data.len() as u32;
        if chunk.data.len() > self.remaining as usize {
            return Err(PieceBuilderError::InvalidSize(self.remaining, dlen32));
        } else if chunk.begin >= self.size {
            return Err(PieceBuilderError::InvalidBegin(self.size, chunk.begin));
        } else if dlen32 > self.size - chunk.begin {
            return Err(PieceBuilderError::InsufficientSize(self.size, chunk.begin, dlen32));
        }

        self.remaining = self.remaining - dlen32;
        let ghost chunks_pre = self.spec_chunks();
        self.chunks.push(chunk);
        proof {
            assert(self.spec_chunks() =~= chunks_pre.push(self.chunks@.last()@));
            assert(self.spec_chunks().drop_last() =~= chunks_pre);
        }
        if self.remaining == 0 {
            let v = self.assemble();
            let hash = sha1(v.as_slice());
            let ok = crate::encoding::bytes_eq(hash.as_slice(), self.digest.as_slice());
            if !ok {
                return Err(PieceBuilderError::InvalidPiece);
            }
            return Ok(Some(v));
        }
        Ok(None)
    }
}

/// Why the receiving side gave up on a connection.
#[derive(Debug)]
pub enum ReceiverError {
    /// The command channel to the sender thread is gone.
    Channel,
    /// The peer sent a second bitfield.
    DuplicateBitfield,
    /// The inbound handshake was malformed, carried the wrong info-hash,
    /// or came from ourselves.
    InvalidHandshake,
    /// A piece or have index at or past the piece count, or a piece the
    /// store already holds.
    InvalidIndex(u32),
    /// A chunk that does not fit, or a failing digest.
    InvalidPiece(PieceBuilderError),
    /// A malformed frame.
    Message(peer::Error),
}

/// A builder that is internally consistent and assembles one piece of the
/// torrent `mi` against that piece's recorded digest.
pub open spec fn spec_builder_ok(mi: Metainfo, pb: PieceBuilder) -> bool {
    &&& pb.wf()
    &&& (pb.spec_index() as int) < mi.spec_num_pieces()
    &&& pb.spec_size() == mi.spec_piece_size(pb.spec_index() as int)
    &&& pb.spec_digest() == mi.info.pieces@.subrange(
        pb.spec_index() as int * 20,
        pb.spec_index() as int * 20 + 20,
    )
}

/// Whether some builder in `buffer` assembles piece `index`.
pub open spec fn spec_has_builder(buffer: Seq<PieceBuilder>, index: u32) -> bool {
    exists|k: int| 0 <= k < buffer.len() && (#[trigger] buffer[k]).spec_index() == index
}

/// The position of the builder for piece `index` (unique while the buffer
/// is well formed).
pub open spec fn spec_builder_at(buffer: Seq<PieceBuilder>, index: u32) -> int {
    choose|k: int| 0 <= k < buffer.len() && (#[trigger] buffer[k]).spec_index() == index
}

/// How many bytes of piece `index` are still missing: what its builder
/// says, or the whole piece where no builder exists yet.
pub open spec fn spec_builder_remaining(buffer: Seq<PieceBuilder>, mi: Metainfo, index: u32) -> int {
    if spec_has_builder(buffer, index) {
        buffer[spec_builder_at(buffer, index)].spec_remaining() as int
    } else {
        mi.spec_piece_size(index as int)
    }
}

/// The chunks gathered so far for piece `index`; none where no builder
/// exists yet.
pub open spec fn spec_builder_chunks(buffer: Seq<PieceBuilder>, index: u32) -> Seq<ChunkV> {
    if spec_has_builder(buffer, index) {
        buffer[spec_builder_at(buffer, index)].spec_chunks()
    } else {
        Seq::empty()
    }
}

/// What one piece message does, exactly.  An index at or past the piece
/// count, or one the store already holds, is refused with everything
/// unchanged.  Otherwise the chunk goes to the builder for that piece (a
/// fresh one when none exists): a chunk that does not fit is refused with
/// the builder kept as it was; a fitting chunk that leaves bytes missing
/// is buffered; a chunk supplying the last missing byte assembles the
/// piece, and the store gains it exactly when the assembled bytes hash to
/// the recorded digest.
pub open spec fn spec_piece_outcome(
    pre: Receiver,
    post: Receiver,
    pre_st: Seq<StatusV>,
    post_st: Seq<StatusV>,
    mi: Metainfo,
    index: u32,
    begin: u32,
    data: Seq<u8>,
    r: Result<(), ReceiverError>,
) -> bool {
    let np = mi.spec_num_pieces();
    let size = mi.spec_piece_size(index as int);
    let rem0 = spec_builder_remaining(pre.spec_buffer(), mi, index);
    let chunks1 = spec_builder_chunks(pre.spec_buffer(), index).push(ChunkV { begin, data });
    let fits = data.len() <= rem0 && (begin as int) < size && begin + data.len() <= size;
    let digest = mi.info.pieces@.subrange(index as int * 20, index as int * 20 + 20);
    let assembled = spec_assembled(chunks1, size);
    &&& post.spec_bitfield_received() == pre.spec_bitfield_received()
    &&& post.spec_peer_id() == pre.spec_peer_id()
    &&& post.spec_mi() == pre.spec_mi()
    // Every remaining builder assembles this piece or was already there.
    &&& (forall|k: int|
        0 <= k < post.spec_buffer().len() ==> (#[trigger] post.spec_buffer()[k]).spec_index()
            == index || pre.spec_buffer().contains(post.spec_buffer()[k]))
    &&& if (index as int) >= np || pre_st[index as int] is Downloaded {
        &&& r == Err::<(), ReceiverError>(ReceiverError::InvalidIndex(index))
        &&& post_st == pre_st
        &&& post == pre
    } else if !fits {
        &&& r == Err::<(), ReceiverError>(
            ReceiverError::InvalidPiece(
                if data.len() > rem0 {
                    PieceBuilderError::InvalidSize(rem0 as u32, data.len() as u32)
                } else if begin as int >= size {
                    PieceBuilderError::InvalidBegin(size as u32, begin)
                } else {
                    PieceBuilderError::InsufficientSize(size as u32, begin, data.len() as u32)
                },
            ),
        )
        &&& post_st == pre_st
        &&& post.spec_downloaded() == pre.spec_downloaded()
        &&& spec_has_builder(post.spec_buffer(), index)
        &&& spec_builder_remaining(post.spec_buffer(), mi, index) == rem0
        &&& spec_builder_chunks(post.spec_buffer(), index) == spec_builder_chunks(
            pre.spec_buffer(),
            index,
        )
    } else if data.len() < rem0 {
        &&& r == Ok::<(), ReceiverError>(())
        &&& post_st == pre_st
        &&& post.spec_downloaded() == pre.spec_downloaded()
        &&& spec_has_builder(post.spec_buffer(), index)
        &&& spec_builder_remaining(post.spec_buffer(), mi, index) == rem0 - data.len()
        &&& spec_builder_chunks(post.spec_buffer(), index) == chunks1
    } else if sha1_of(assembled) == digest {
        &&& r == Ok::<(), ReceiverError>(())
        &&& post_st == pre_st.update(index as int, StatusV::Downloaded(assembled))
        &&& !spec_has_builder(post.spec_buffer(), index)
        &&& post.spec_downloaded() == (if pre.spec_downloaded() + data.len() <= u64::MAX {
            (pre.spec_downloaded() + data.len()) as u64
        } else {
            pre.spec_downloaded()
        })
    } else {
        &&& r == Err::<(), ReceiverError>(
            ReceiverError::InvalidPiece(PieceBuilderError::InvalidPiece),
        )
        &&& post_st == pre_st
        &&& post.spec_downloaded() == pre.spec_downloaded()
        &&& spec_has_builder(post.spec_buffer(), index)
        &&& spec_builder_remaining(post.spec_buffer(), mi, index) == 0
        &&& spec_builder_chunks(post.spec_buffer(), index) == chunks1
    }
}

/// After pushing a builder for `index` onto a buffer holding none, the
/// buffer holds exactly that builder for `index`.
proof fn lemma_pushed_builder(rest: Seq<PieceBuilder>, pb: PieceBuilder, index: u32)
    requires
        pb.spec_index() == index,
        forall|k: int| 0 <= k < rest.len() ==> (#[trigger] rest[k]).spec_index() != index,
    ensures
        spec_has_builder(rest.push(pb), index),
        spec_builder_at(rest.push(pb), index) == rest.len(),
        rest.push(pb)[spec_builder_at(rest.push(pb), index)] == pb,
{
    let buf = rest.push(pb);
    assert(buf[rest.len() as int].spec_index() == index);
    assert(spec_has_builder(buf, index));
    let t = spec_builder_at(buf, index);
    assert(0 <= t < buf.len() && buf[t].spec_index() == index);
    if t < rest.len() {
        assert(rest[t].spec_index() != index);
    }
}

/// The receiving state machine of one connection: which pieces are being
/// assembled, and whether the initial bitfield has arrived.  The caller
/// owns the socket, parses frames with `Message::recv`, and hands every
/// message to `handle_message` together with the shared pieces of state it
/// holds locked; commands for the sender thread come back in `out`.
pub struct Receiver {
    peer_id: String,
    piece_buffer: Vec<PieceBuilder>,
    bitfield_received: bool,
    num_downloaded: u64,
    metainfo: Ghost<Metainfo>,
}

impl Receiver {
    /// Builders currently assembling, at most one per piece.
    pub closed spec fn spec_buffer(&self) -> Seq<PieceBuilder> {
        self.piece_buffer@
    }

    /// Whether the initial bitfield has arrived.
    pub closed spec fn spec_bitfield_received(&self) -> bool {
        self.bitfield_received
    }

    /// Bytes of verified payload received and not yet reported.
    pub closed spec fn spec_downloaded(&self) -> u64 {
        self.num_downloaded
    }

    /// The peer this connection talks to; the store tracks assignments
    /// under this name.
    pub closed spec fn spec_peer_id(&self) -> Seq<char> {
        self.peer_id@
    }

    /// The metadata this connection was opened under.
    pub closed spec fn spec_mi(&self) -> Metainfo {
        self.metainfo@
    }

    /// Every builder in the buffer is internally consistent, assembles a
    /// piece of this torrent against that piece's recorded digest, and no
    /// two builders assemble the same piece.
    pub closed spec fn wf(&self) -> bool {
        &&& (forall|k: int|
            0 <= k < self.piece_buffer@.len() ==> spec_builder_ok(
                self.metainfo@,
                #[trigger] self.piece_buffer@[k],
            ))
        &&& (forall|k1: int, k2: int|
            0 <= k1 < k2 < self.piece_buffer@.len() ==> self.piece_buffer@[k1].spec_index()
                != self.piece_buffer@[k2].spec_index())
    }

    pub fn new(peer_id: String, mi: &Metainfo) -> (r: Self)
        ensures
            r.wf(),
            r.spec_peer_id() == peer_id@,
            r.spec_mi() == *mi,
            r.spec_buffer().len() == 0,
            !r.spec_bitfield_received(),
            r.spec_downloaded() == 0,
    {
        Receiver {
            peer_id,
            piece_buffer: Vec::new(),
            bitfield_received: false,
            num_downloaded: 0,
            metainfo: Ghost(*mi),
        }
    }

    /// Report and reset the received-bytes counter.
    pub fn take_downloaded(&mut self) -> (r: u64)
        requires
            old(self).wf(),
        ensures
            r == old(self).spec_downloaded(),
            final(self).spec_downloaded() == 0,
            final(self).wf(),
            final(self).spec_buffer() == old(self).spec_buffer(),
            final(self).spec_bitfield_received() == old(self).spec_bitfield_received(),
            final(self).spec_mi() == old(self).spec_mi(),
            final(self).spec_peer_id() == old(self).spec_peer_id(),
    {
        let r = self.num_downloaded;
        self.num_downloaded = 0;
        r
    }

    /// The peer chokes or unchokes us: record it, tell the sender, and on
    /// a choke drop every partial piece.
    pub fn choke(&mut self, state: bool, conn: &mut State, out: &mut Vec<Command>)
        requires
            old(self).wf(),
        ensures
            final(self).wf(),
            final(conn).peer_choked == state,
            final(conn).client_choked == old(conn).client_choked,
            final(conn).client_interested == old(conn).client_interested,
            final(conn).peer_interested == old(conn).peer_interested,
            final(out)@ == old(out)@.push(Command::PeerChoke(state)),
            state ==> final(self).spec_buffer().len() == 0,
            !state ==> final(self).spec_buffer() == old(self).spec_buffer(),
    {
        conn.peer_choked = state;
        out.push(Command::PeerChoke(state));
        if state {
            self.piece_buffer = Vec::new();
        }
    }

    /// The peer declares or withdraws interest: record it.
    pub fn interest(&self, state: bool, conn: &mut State)
        ensures
            final(conn).peer_interested == state,
            final(conn).client_choked == old(conn).client_choked,
            final(conn).client_interested == old(conn).client_interested,
            final(conn).peer_choked == old(conn).peer_choked,
    {
        conn.peer_interested = state;
    }

    /// The peer announces one piece: check the index, set the bit, and
    /// tell the sender.
    pub fn have(&self, index: u32, mi: &Metainfo, availability: &mut Bitmap, out: &mut Vec<
        Command,
    >) -> (r: Result<(), ReceiverError>)
        requires
            mi.valid(),
            old(availability)@.len() == mi.spec_num_pieces(),
        ensures
            match r {
                Ok(()) => index < mi.spec_num_pieces() && final(availability)@ == old(availability)@.update(index as int, true) && final(out)@ == old(out)@.push(
                    Command::PeerHave(index),
                ),
                Err(e) => e matches ReceiverError::InvalidIndex(i) && i == index && index
                    >= mi.spec_num_pieces() && final(availability)@ == old(availability)@ && final(out)@ == old(out)@,
            },
    {
        if index >= mi.num_pieces() {
            return Err(ReceiverError::InvalidIndex(index));
        }
        availability.set(index as usize, true);
        out.push(Command::PeerHave(index));
        Ok(())
    }

    /// The peer asks for a sub-range: forward it to the sender unless we
    /// choke the peer, in which case the request is silently dropped.
    pub fn request(&self, index: u32, begin: u32, length: u32, conn: &State, out: &mut Vec<
        Command,
    >)
        ensures
            !conn.client_choked ==> final(out)@ == old(out)@.push(
                Command::SendChunk(index, begin, length),
            ),
            conn.client_choked ==> final(out)@ == old(out)@,
    {
        if !conn.client_choked {
            out.push(Command::SendChunk(index, begin, length));
        }
    }

    /// The peer's initial availability: keep its first `P` bits, padded
    /// with zero bits if it was short, and tell the sender.  A second
    /// bitfield on the same connection is a protocol violation.
    pub fn bitfield(&mut self, bv: Bitmap, mi: &Metainfo, availability: &mut Bitmap, out: &mut Vec<
        Command,
    >) -> (r: Result<(), ReceiverError>)
        requires
            old(self).wf(),
            mi.valid(),
        ensures
            final(self).wf(),
            match r {
                Ok(()) => {
                    &&& !old(self).spec_bitfield_received()
                    &&& final(self).spec_bitfield_received()
                    &&& final(availability)@ == Seq::new(
                        mi.spec_num_pieces() as nat,
                        |i: int| i < bv@.len() && bv@[i],
                    )
                    &&& final(out)@ == old(out)@.push(Command::BitFieldReceived)
                },
                Err(e) => e is DuplicateBitfield && old(self).spec_bitfield_received() && final(availability)@ == old(availability)@ && final(out)@ == old(out)@ && final(self).spec_buffer()
                    == old(self).spec_buffer(),
            },
    {
        if !self.bitfield_received {
            let np = mi.num_pieces() as usize;
            let mut trimmed = bv;
            trimmed.truncate(np);
            let mut i = trimmed.len();
            proof {
                assert(forall|j: int| 0 <= j < i ==> trimmed@[j] == (j < bv@.len() && bv@[j]));
            }
            while i < np
                invariant
                    i <= np,
                    i == trimmed@.len(),
                    i >= bv@.len() || i >= np,
                    forall|j: int|
                        0 <= j < i ==> trimmed@[j] == (j < bv@.len() && bv@[j]),
                decreases np - i,
            {
                trimmed.push(false);
                i = i + 1;
            }
            proof {
                assert(trimmed@ =~= Seq::new(
                    mi.spec_num_pieces() as nat,
                    |i: int| i < bv@.len() && bv@[i],
                ));
            }
            *availability = trimmed;
            out.push(Command::BitFieldReceived);
            self.bitfield_received = true;
            return Ok(());
        }
        Err(ReceiverError::DuplicateBitfield)
    }

    /// A chunk of a piece arrived: check the index against the piece count
    /// and the store, drop builders for pieces meanwhile completed, route
    /// the chunk to this piece's builder, and on completion hand the
    /// verified payload to the store.  `spec_piece_outcome` pins every
    /// outcome down.
    #[verifier::rlimit(100)]
    pub fn piece(&mut self, index: u32, begin: u32, data: Vec<u8>, mi: &Metainfo,
        store: &mut PieceStore) -> (r: Result<(), ReceiverError>)
        requires
            old(self).wf(),
            mi.valid(),
            *mi == old(self).spec_mi(),
            old(store).wf(),
            old(store).spec_statuses().len() == mi.spec_num_pieces(),
            data@.len() <= u32::MAX,
        ensures
            final(self).wf(),
            final(store).wf(),
            final(store).spec_statuses().len() == old(store).spec_statuses().len(),
            spec_piece_outcome(
                *old(self),
                *final(self),
                old(store).spec_statuses(),
                final(store).spec_statuses(),
                *mi,
                index,
                begin,
                data@,
                r,
            ),
    {
        let ghost data_v = data@;
        if index >= mi.num_pieces() {
            return Err(ReceiverError::InvalidIndex(index));
        }
        let bv = store.as_bitvec(false);
        if bv.get(index as usize) {
            return Err(ReceiverError::InvalidIndex(index));
        }

        // Drop builders for pieces the store meanwhile owns.  The builder
        // for this piece, if any, survives: its piece is not downloaded.
        let mut kept: Vec<PieceBuilder> = Vec::new();
        let ghost buf_pre = self.piece_buffer@;
        loop
            invariant
                old(self).wf(),
                buf_pre == old(self).piece_buffer@,
                self.metainfo@ == old(self).spec_mi(),
                self.peer_id == old(self).peer_id,
                self.bitfield_received == old(self).bitfield_received,
                self.num_downloaded == old(self).num_downloaded,
                self.piece_buffer@.len() <= buf_pre.len(),
                self.piece_buffer@ == buf_pre.take(self.piece_buffer@.len() as int),
                forall|k: int| 0 <= k < kept@.len() ==> buf_pre.contains(#[trigger] kept@[k]),
                forall|k: int|
                    0 <= k < kept@.len() ==> !self.piece_buffer@.contains(#[trigger] kept@[k]),
                forall|j: int|
                    self.piece_buffer@.len() <= j < buf_pre.len() && (buf_pre[j].spec_index()
                        as int) < bv@.len() && !bv@[buf_pre[j].spec_index() as int]
                        ==> kept@.contains(#[trigger] buf_pre[j]),
                forall|k1: int, k2: int|
                    0 <= k1 < k2 < kept@.len() ==> kept@[k1].spec_index() != kept@[k2].spec_index(),
            ensures
                self.piece_buffer@.len() == 0,
                buf_pre == old(self).piece_buffer@,
                self.metainfo@ == old(self).spec_mi(),
                self.peer_id == old(self).peer_id,
                self.bitfield_received == old(self).bitfield_received,
                self.num_downloaded == old(self).num_downloaded,
                forall|k: int| 0 <= k < kept@.len() ==> buf_pre.contains(#[trigger] kept@[k]),
                forall|j: int|
                    0 <= j < buf_pre.len() && (buf_pre[j].spec_index() as int) < bv@.len()
                        && !bv@[buf_pre[j].spec_index() as int] ==> kept@.contains(
                        #[trigger] buf_pre[j],
                    ),
                forall|k1: int, k2: int|
                    0 <= k1 < k2 < kept@.len() ==> kept@[k1].spec_index() != kept@[k2].spec_index(),
            decreases self.piece_buffer@.len(),
        {
            let ghost before = self.piece_buffer@;
            let pb = match self.piece_buffer.pop() {
                Some(pb) => pb,
                None => { break ; },
            };
            proof {
                assert(before == buf_pre.take(before.len() as int));
                assert(pb == buf_pre[before.len() - 1]);
                assert(self.piece_buffer@ =~= buf_pre.take(self.piece_buffer@.len() as int));
            }
            let ghost kept_before = kept@;
            if (pb.index as usize) < bv.len() && !bv.get(pb.index as usize) {
                proof {
                    assert forall|k: int|
                        0 <= k < kept@.len() implies kept@[k].spec_index() != pb.spec_index() by {
                        let j = choose|j: int| 0 <= j < buf_pre.len() && buf_pre[j] == kept@[k];
                        assert(!buf_pre.take(before.len() as int).contains(kept@[k]));
                        assert(j >= before.len()) by {
                            if j < before.len() {
                                assert(buf_pre.take(before.len() as int)[j] == kept@[k]);
                            }
                        }
                        assert(buf_pre[before.len() - 1].spec_index() != buf_pre[j].spec_index());
                    }
                }
                kept.push(pb);
            }
            proof {
                assert forall|j: int|
                    self.piece_buffer@.len() <= j < buf_pre.len() && (buf_pre[j].spec_index()
                        as int) < bv@.len() && !bv@[buf_pre[j].spec_index() as int] implies kept@.contains(
                    #[trigger] buf_pre[j],
                ) by {
                    if j == self.piece_buffer@.len() {
                        assert(kept@[kept@.len() - 1] == buf_pre[j]);
                    } else {
                        assert(kept_before.contains(buf_pre[j]));
                        let t = choose|t: int|
                            0 <= t < kept_before.len() && kept_before[t] == buf_pre[j];
                        assert(kept@[t] == buf_pre[j]);
                    }
                }
                assert forall|k: int|
                    0 <= k < kept@.len() implies buf_pre.contains(#[trigger] kept@[k]) by {
                    if k >= kept_before.len() {
                        assert(buf_pre[before.len() - 1] == kept@[k]);
                    }
                }
                assert forall|k: int|
                    0 <= k < kept@.len() implies !self.piece_buffer@.contains(
                    #[trigger] kept@[k],
                ) by {
                    if self.piece_buffer@.contains(kept@[k]) {
                        let j = choose|j: int|
                            0 <= j < self.piece_buffer@.len() && self.piece_buffer@[j] == kept@[k];
                        assert(before[j] == kept@[k]);
                        assert(before.contains(kept@[k]));
                        if k >= kept_before.len() {
                            // The just-kept builder came off the end of the
                            // remaining prefix; equal values would repeat an
                            // index in the old buffer.
                            assert(buf_pre[j] == buf_pre[before.len() - 1]);
                            assert(buf_pre[j].spec_index() == buf_pre[before.len()
                                - 1].spec_index());
                        }
                    }
                }
            }
        }
        self.piece_buffer = kept;
        proof {
            // The purged buffer keeps this piece's builder exactly when
            // there was one, with its state intact.
            if spec_has_builder(buf_pre, index) {
                let at = spec_builder_at(buf_pre, index);
                assert(buf_pre[at].spec_index() == index);
                assert(spec_builder_ok(self.metainfo@, buf_pre[at]));
                assert((buf_pre[at].spec_index() as int) < bv@.len());
                assert(!bv@[index as int]);
                assert(kept@.contains(buf_pre[at]));
                let t = choose|t: int| 0 <= t < kept@.len() && kept@[t] == buf_pre[at];
                assert(spec_has_builder(kept@, index));
            }
            if spec_has_builder(kept@, index) {
                let t = spec_builder_at(kept@, index);
                assert(kept@[t].spec_index() == index);
                let j = choose|j: int| 0 <= j < buf_pre.len() && buf_pre[j] == kept@[t];
                assert(spec_has_builder(buf_pre, index));
                assert(buf_pre[spec_builder_at(buf_pre, index)].spec_index() == index);
                assert(buf_pre[spec_builder_at(buf_pre, index)] == buf_pre[j]);
                assert(spec_builder_remaining(kept@, *mi, index) == spec_builder_remaining(
                    buf_pre,
                    *mi,
                    index,
                ));
                assert(spec_builder_chunks(kept@, index) == spec_builder_chunks(buf_pre, index));
            }
        }

        // Find or create the builder for this piece.
        let ghost rem0 = spec_builder_remaining(buf_pre, *mi, index);
        let ghost chunks0 = spec_builder_chunks(buf_pre, index);
        let mut fk: usize = 0;
        let mut found = false;
        let blen = self.piece_buffer.len();
        let mut k: usize = 0;
        while k < blen
            invariant
                k <= blen,
                blen == self.piece_buffer@.len(),
                found ==> fk < blen && self.piece_buffer@[fk as int].spec_index() == index,
                !found ==> forall|j: int|
                    0 <= j < k ==> self.piece_buffer@[j].spec_index() != index,
            decreases blen - k,
        {
            if self.piece_buffer[k].index == index {
                fk = k;
                found = true;
            }
            k = k + 1;
        }
        proof {
            assert(found == spec_has_builder(self.piece_buffer@, index));
        }
        if !found {
            self.piece_buffer.push(PieceBuilder::new(mi, index));
            fk = self.piece_buffer.len() - 1;
        }

        // Route the chunk; take the builder out, feed it, put it back
        // unless the piece is done.
        let ghost buf_mid = self.piece_buffer@;
        let mut pb = self.piece_buffer.swap_remove(fk);
        proof {
            assert(pb.spec_index() == index);
            assert(pb.spec_remaining() == rem0);
            assert(pb.spec_chunks() == chunks0);
            assert(spec_builder_ok(self.metainfo@, pb));
            mi.info.lemma_piece_size_bounds(index as int);
            // The rest of the buffer holds no builder for this piece, and
            // every entry was in the buffer before this call.
            assert forall|k: int|
                0 <= k < self.piece_buffer@.len() implies self.piece_buffer@[k].spec_index()
                != index && buf_pre.contains(#[trigger] self.piece_buffer@[k]) by {
                let pos = if k == fk {
                    buf_mid.len() - 1
                } else {
                    k
                };
                assert(self.piece_buffer@[k] == buf_mid[pos]);
                if pos < kept@.len() {
                    assert(buf_mid[pos] == kept@[pos]);
                }
            }
        }
        let ghost rest = self.piece_buffer@;
        let dlen = data.len();
        let outcome = pb.add(Chunk { begin, data });
        let ghost pb_post = pb;
        match outcome {
            Ok(Some(v)) => {
                proof {
                    assert(!(old(store).spec_statuses()[index as int] is Downloaded));
                }
                if self.num_downloaded <= u64::MAX - dlen as u64 {
                    self.num_downloaded = self.num_downloaded + dlen as u64;
                }
                let ghost vv = v@;
                store.store(self.peer_id.as_str(), index, v);
                proof {
                    assert(self.piece_buffer@ == rest);
                    assert(!spec_has_builder(self.piece_buffer@, index));
                    assert forall|k: int|
                        0 <= k < self.piece_buffer@.len() implies (#[trigger] self.piece_buffer@[k]).spec_index()
                        == index || buf_pre.contains(self.piece_buffer@[k]) by {
                        if k < rest.len() {
                            assert(self.piece_buffer@[k] == rest[k]);
                        }
                    }
                    let ghost chv = ChunkV { begin, data: data_v };
                    assert(pb_post.spec_chunks() == chunks0.push(chv));
                    assert(chunks0.push(chv).drop_last() =~= chunks0);
                    assert(spec_chunks_len(chunks0.push(chv)) == spec_chunks_len(chunks0)
                        + data_v.len());
                    assert(data_v.len() == rem0);
                    assert(vv == spec_assembled(
                        chunks0.push(ChunkV { begin, data: data_v }),
                        mi.spec_piece_size(index as int),
                    ));
                    assert(sha1_of(vv) == mi.info.pieces@.subrange(
                        index as int * 20,
                        index as int * 20 + 20,
                    ));
                    assert(spec_piece_outcome(
                        *old(self),
                        *self,
                        old(store).spec_statuses(),
                        store.spec_statuses(),
                        *mi,
                        index,
                        begin,
                        data_v,
                        Ok(()),
                    ));
                }
                Ok(())
            },
            Ok(None) => {
                self.piece_buffer.push(pb);
                proof {
                    lemma_pushed_builder(rest, pb_post, index);
                    assert(self.piece_buffer@ == rest.push(pb_post));
                    assert(spec_builder_remaining(self.piece_buffer@, *mi, index) == pb_post.spec_remaining());
                    assert(spec_builder_chunks(self.piece_buffer@, index) == pb_post.spec_chunks());
                    assert(pb_post.spec_chunks() == chunks0.push(ChunkV { begin, data: data_v }));
                    assert forall|k: int|
                        0 <= k < self.piece_buffer@.len() implies (#[trigger] self.piece_buffer@[k]).spec_index()
                        == index || buf_pre.contains(self.piece_buffer@[k]) by {
                        if k < rest.len() {
                            assert(self.piece_buffer@[k] == rest[k]);
                        }
                    }
                    assert(spec_piece_outcome(
                        *old(self),
                        *self,
                        old(store).spec_statuses(),
                        store.spec_statuses(),
                        *mi,
                        index,
                        begin,
                        data_v,
                        Ok(()),
                    ));
                }
                Ok(())
            },
            Err(e) => {
                self.piece_buffer.push(pb);
                proof {
                    lemma_pushed_builder(rest, pb_post, index);
                    assert(self.piece_buffer@ == rest.push(pb_post));
                    assert(spec_builder_remaining(self.piece_buffer@, *mi, index) == pb_post.spec_remaining());
                    assert(spec_builder_chunks(self.piece_buffer@, index) == pb_post.spec_chunks());
                    assert forall|k: int|
                        0 <= k < self.piece_buffer@.len() implies (#[trigger] self.piece_buffer@[k]).spec_index()
                        == index || buf_pre.contains(self.piece_buffer@[k]) by {
                        if k < rest.len() {
                            assert(self.piece_buffer@[k] == rest[k]);
                        }
                    }
                    let ghost chv = ChunkV { begin, data: data_v };
                    match e {
                        PieceBuilderError::InvalidPiece => {
                            // The digest failed on a completing chunk: the
                            // chunk supplied exactly the missing bytes.
                            assert(pb_post.spec_chunks() == chunks0.push(chv));
                            assert(chunks0.push(chv).drop_last() =~= chunks0);
                            assert(spec_chunks_len(chunks0.push(chv)) == spec_chunks_len(chunks0)
                                + data_v.len());
                            assert(data_v.len() == rem0);
                        },
                        _ => {},
                    }
                    assert(spec_piece_outcome(
                        *old(self),
                        *self,
                        old(store).spec_statuses(),
                        store.spec_statuses(),
                        *mi,
                        index,
                        begin,
                        data_v,
                        Err(ReceiverError::InvalidPiece(e)),
                    ));
                }
                Err(ReceiverError::InvalidPiece(e))
            },
        }
    }

    /// Dispatch one parsed message, exactly as the protocol asks:
    /// keep-alives, cancels and ports are ignored, everything else updates
    /// the connection, the availability, the store, or the sender's inbox.
    pub fn handle_message(&mut self, m: Message, mi: &Metainfo, conn: &mut State,
        availability: &mut Bitmap, store: &mut PieceStore, out: &mut Vec<Command>) -> (r: Result<
        (),
        ReceiverError,
    >)
        requires
            old(self).wf(),
            mi.valid(),
            *mi == old(self).spec_mi(),
            old(store).wf(),
            old(store).spec_statuses().len() == mi.spec_num_pieces(),
            old(availability)@.len() == mi.spec_num_pieces(),
            peer::spec_wf(m@),
        ensures
            final(self).wf(),
            final(store).wf(),
            final(store).spec_statuses().len() == old(store).spec_statuses().len(),
            final(availability)@.len() == old(availability)@.len(),
            // Keep-alives, cancels and ports change nothing.
            (m@ is KeepAlive || m@ is Cancel || m@ is Port) ==> r is Ok && *final(self) == *old(self) && *final(conn) == *old(conn) && final(availability)@ == old(availability)@ && final(out)@ == old(out)@ && final(store).spec_statuses() == old(store).spec_statuses(),
            // Chokes record the peer's state and are forwarded; a choke
            // also discards every partial piece.
            m@ is Choke ==> r is Ok && final(conn).peer_choked && final(out)@ == old(out)@.push(
                Command::PeerChoke(true),
            ) && final(self).spec_buffer().len() == 0,
            m@ is Unchoke ==> r is Ok && !final(conn).peer_choked && final(out)@ == old(out)@.push(Command::PeerChoke(false)),
            // Interest is recorded and nothing else moves.
            m@ is Interested ==> r is Ok && final(conn).peer_interested && final(out)@ == old(out)@,
            m@ is NotInterested ==> r is Ok && !final(conn).peer_interested && final(out)@ == old(out)@,
            // A have is checked against the piece count, recorded and
            // forwarded.
            m@ matches MessageV::Have(i) ==> match r {
                Ok(()) => (i as int) < mi.spec_num_pieces() && final(availability)@ == old(availability)@.update(i as int, true) && final(out)@ == old(out)@.push(Command::PeerHave(i)),
                Err(e) => e == ReceiverError::InvalidIndex(i) && (i as int)
                    >= mi.spec_num_pieces() && final(availability)@ == old(availability)@ && final(out)@ == old(out)@,
            },
            // A request is forwarded exactly while we do not choke the peer.
            m@ matches MessageV::Request(i, b, l) ==> r is Ok && *final(conn) == *old(conn)
                && final(availability)@ == old(availability)@ && final(store).spec_statuses()
                == old(store).spec_statuses() && (if old(conn).client_choked {
                final(out)@ == old(out)@
            } else {
                final(out)@ == old(out)@.push(Command::SendChunk(i, b, l))
            }),
            // The first bitfield becomes the availability, truncated or
            // zero-padded to the piece count; a second one is refused.
            m@ matches MessageV::BitField(bits) ==> match r {
                Ok(()) => !old(self).spec_bitfield_received() && final(self).spec_bitfield_received() && final(availability)@ == Seq::new(
                    mi.spec_num_pieces() as nat,
                    |i: int| i < bits.len() && bits[i],
                ) && final(out)@ == old(out)@.push(Command::BitFieldReceived),
                Err(e) => e is DuplicateBitfield && old(self).spec_bitfield_received() && final(availability)@ == old(availability)@ && final(out)@ == old(out)@,
            },
            // A piece routes through the assembler; `spec_piece_outcome`
            // pins every outcome down.
            m@ matches MessageV::Piece(i, b, d) ==> spec_piece_outcome(
                *old(self),
                *final(self),
                old(store).spec_statuses(),
                final(store).spec_statuses(),
                *mi,
                i,
                b,
                d,
                r,
            ) && *final(conn) == *old(conn) && final(availability)@ == old(availability)@ && final(out)@ == old(out)@,
    {
        match m {
            Message::KeepAlive => Ok(()),
            Message::Choke => {
                self.choke(true, conn, out);
                Ok(())
            },
            Message::Unchoke => {
                self.choke(false, conn, out);
                Ok(())
            },
            Message::Interested => {
                self.interest(true, conn);
                Ok(())
            },
            Message::NotInterested => {
                self.interest(false, conn);
                Ok(())
            },
            Message::Have(index) => self.have(index, mi, availability, out),
            Message::Request(index, begin, length) => {
                self.request(index, begin, length, conn, out);
                Ok(())
            },
            Message::BitField(bv) => self.bitfield(bv, mi, availability, out),
            Message::Piece(index, begin, data) => self.piece(index, begin, data, mi, store),
            Message::Cancel(_, _, _) => Ok(()),
            Message::Port(_) => Ok(()),
        }
    }
}

} // verus!
