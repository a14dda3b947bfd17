//! The peer wire protocol: the handshake and the ten numbered message
//! kinds.  Every message is framed as a 4-byte big-endian length, then (for
//! a nonzero length) a one-byte type id and the payload.  This module
//! serialises messages to bytes and parses whole frames back, with an exact
//! description of both directions and a proof that they are inverses.

use crate::bitset::{spec_pack_bits, spec_unpack_bits, Bitmap};
use crate::encoding::{
    append_bytes, bytes_eq, lemma_u16_be_round, lemma_u32_be_round, spec_u16_be, spec_u16_from_2,
    spec_u32_be, spec_u32_from_4, u16_from_2, u16_to_be, u32_from_4, u32_to_be,
};
use vstd::arithmetic::div_mod::{
    lemma_fundamental_div_mod, lemma_fundamental_div_mod_converse_div, lemma_mod_bound,
};
use vstd::prelude::*;
use vstd::slice::{slice_subrange, slice_to_vec};

verus! {

/// Why a frame was rejected.
#[derive(Debug, PartialEq, Eq, Structural)]
pub enum Error {
    /// The type id is not one of the ten defined kinds.
    Invalid(u8),
    /// The length field is below the minimum for the kind: (minimum, got).
    SmallLength(u32, u32),
    /// The length field does not match the kind's size: (got, expected).
    WrongLength(u32, u32),
    /// The frame holds fewer or more bytes than its length field says.
    Truncated,
}

/// A wire message.
#[derive(Debug)]
pub enum Message {
    KeepAlive,
    Choke,
    Unchoke,
    Interested,
    NotInterested,
    Have(u32),
    /// Piece index, byte offset within the piece, length of the wanted range.
    Request(u32, u32, u32),
    Cancel(u32, u32, u32),
    BitField(Bitmap),
    /// Piece index, byte offset within the piece, the bytes themselves.
    Piece(u32, u32, Vec<u8>),
    Port(u16),
}

/// The mathematical shape of a message: bitmaps as bit sequences, payloads
/// as byte sequences.
pub enum MessageV {
    KeepAlive,
    Choke,
    Unchoke,
    Interested,
    NotInterested,
    Have(u32),
    Request(u32, u32, u32),
    Cancel(u32, u32, u32),
    BitField(Seq<bool>),
    Piece(u32, u32, Seq<u8>),
    Port(u16),
}

impl View for Message {
    type V = MessageV;

    open spec fn view(&self) -> MessageV {
        match self {
            Message::KeepAlive => MessageV::KeepAlive,
            Message::Choke => MessageV::Choke,
            Message::Unchoke => MessageV::Unchoke,
            Message::Interested => MessageV::Interested,
            Message::NotInterested => MessageV::NotInterested,
            Message::Have(i) => MessageV::Have(*i),
            Message::Request(i, b, l) => MessageV::Request(*i, *b, *l),
            Message::Cancel(i, b, l) => MessageV::Cancel(*i, *b, *l),
            Message::BitField(bv) => MessageV::BitField(bv@),
            Message::Piece(i, b, d) => MessageV::Piece(*i, *b, d@),
            Message::Port(p) => MessageV::Port(*p),
        }
    }
}

/// A message the wire can carry: frames fit the 32-bit length field, a
/// bitfield covers at least one piece, and a piece message carries at least
/// one byte.
pub open spec fn spec_wf(m: MessageV) -> bool {
    match m {
        MessageV::BitField(bits) => bits.len() > 0 && 1 + (bits.len() + 7) / 8 <= u32::MAX,
        MessageV::Piece(_, _, d) => d.len() > 0 && 9 + d.len() <= u32::MAX,
        _ => true,
    }
}

/// The nominal value of the length field: one byte of type id plus the
/// payload size.
pub open spec fn spec_len(m: MessageV) -> int {
    match m {
        MessageV::KeepAlive => 0,
        MessageV::Choke => 1,
        MessageV::Unchoke => 1,
        MessageV::Interested => 1,
        MessageV::NotInterested => 1,
        MessageV::Have(_) => 5,
        MessageV::Request(_, _, _) => 13,
        MessageV::Cancel(_, _, _) => 13,
        MessageV::BitField(bits) => 1 + (bits.len() + 7) as int / 8,
        MessageV::Piece(_, _, d) => 9 + d.len() as int,
        MessageV::Port(_) => 3,
    }
}

/// The type id of a message, `None` for the id-less keep-alive.
pub open spec fn spec_id(m: MessageV) -> Option<u8> {
    match m {
        MessageV::KeepAlive => None,
        MessageV::Choke => Some(0u8),
        MessageV::Unchoke => Some(1u8),
        MessageV::Interested => Some(2u8),
        MessageV::NotInterested => Some(3u8),
        MessageV::Have(_) => Some(4u8),
        MessageV::BitField(_) => Some(5u8),
        MessageV::Request(_, _, _) => Some(6u8),
        MessageV::Piece(_, _, _) => Some(7u8),
        MessageV::Cancel(_, _, _) => Some(8u8),
        MessageV::Port(_) => Some(9u8),
    }
}

/// The whole frame of a message: length, id, payload.
pub open spec fn spec_encode(m: MessageV) -> Seq<u8> {
    match m {
        MessageV::KeepAlive => spec_u32_be(0),
        MessageV::Choke => spec_u32_be(1) + seq![0u8],
        MessageV::Unchoke => spec_u32_be(1) + seq![1u8],
        MessageV::Interested => spec_u32_be(1) + seq![2u8],
        MessageV::NotInterested => spec_u32_be(1) + seq![3u8],
        MessageV::Have(i) => spec_u32_be(5) + seq![4u8] + spec_u32_be(i),
        MessageV::Request(i, b, l) => spec_u32_be(13) + seq![6u8] + spec_u32_be(i) + spec_u32_be(b)
            + spec_u32_be(l),
        MessageV::Cancel(i, b, l) => spec_u32_be(13) + seq![8u8] + spec_u32_be(i) + spec_u32_be(b)
            + spec_u32_be(l),
        MessageV::BitField(bits) => spec_u32_be((1 + (bits.len() + 7) / 8) as u32) + seq![5u8]
            + spec_pack_bits(bits),
        MessageV::Piece(i, b, d) => spec_u32_be((9 + d.len()) as u32) + seq![7u8] + spec_u32_be(i)
            + spec_u32_be(b) + d,
        MessageV::Port(p) => spec_u32_be(3) + seq![9u8] + spec_u16_be(p),
    }
}

/// Parse one whole frame.  The bit count of a bitfield and the byte count
/// of a piece payload follow from the length field; every other kind has a
/// fixed size that the length field must match exactly.
pub open spec fn spec_decode(data: Seq<u8>) -> Result<MessageV, Error> {
    if data.len() < 4 {
        Err(Error::Truncated)
    } else {
        let length = spec_u32_from_4(data[0], data[1], data[2], data[3]);
        if data.len() != 4 + length {
            Err(Error::Truncated)
        } else if length == 0 {
            Ok(MessageV::KeepAlive)
        } else {
            let id = data[4];
            if id == 0 {
                if length == 1 {
                    Ok(MessageV::Choke)
                } else {
                    Err(Error::WrongLength(length, 1))
                }
            } else if id == 1 {
                if length == 1 {
                    Ok(MessageV::Unchoke)
                } else {
                    Err(Error::WrongLength(length, 1))
                }
            } else if id == 2 {
                if length == 1 {
                    Ok(MessageV::Interested)
                } else {
                    Err(Error::WrongLength(length, 1))
                }
            } else if id == 3 {
                if length == 1 {
                    Ok(MessageV::NotInterested)
                } else {
                    Err(Error::WrongLength(length, 1))
                }
            } else if id == 4 {
                if length == 5 {
                    Ok(MessageV::Have(spec_u32_from_4(data[5], data[6], data[7], data[8])))
                } else {
                    Err(Error::WrongLength(length, 5))
                }
            } else if id == 5 {
                if length < 2 {
                    Err(Error::SmallLength(2, length))
                } else {
                    Ok(MessageV::BitField(spec_unpack_bits(data.skip(5))))
                }
            } else if id == 6 {
                if length == 13 {
                    Ok(
                        MessageV::Request(
                            spec_u32_from_4(data[5], data[6], data[7], data[8]),
                            spec_u32_from_4(data[9], data[10], data[11], data[12]),
                            spec_u32_from_4(data[13], data[14], data[15], data[16]),
                        ),
                    )
                } else {
                    Err(Error::WrongLength(length, 13))
                }
            } else if id == 7 {
                if length < 10 {
                    Err(Error::SmallLength(10, length))
                } else {
                    Ok(
                        MessageV::Piece(
                            spec_u32_from_4(data[5], data[6], data[7], data[8]),
                            spec_u32_from_4(data[9], data[10], data[11], data[12]),
                            data.skip(13),
                        ),
                    )
                }
            } else if id == 8 {
                if length == 13 {
                    Ok(
                        MessageV::Cancel(
                            spec_u32_from_4(data[5], data[6], data[7], data[8]),
                            spec_u32_from_4(data[9], data[10], data[11], data[12]),
                            spec_u32_from_4(data[13], data[14], data[15], data[16]),
                        ),
                    )
                } else {
                    Err(Error::WrongLength(length, 13))
                }
            } else if id == 9 {
                if length == 3 {
                    Ok(MessageV::Port(spec_u16_from_2(data[5], data[6])))
                } else {
                    Err(Error::WrongLength(length, 3))
                }
            } else {
                Err(Error::Invalid(id))
            }
        }
    }
}

/// What a message looks like after one trip over the wire: a bitfield
/// comes back zero-padded to a whole number of bytes, everything else is
/// unchanged.
pub open spec fn spec_pad(m: MessageV) -> MessageV {
    match m {
        MessageV::BitField(bits) => MessageV::BitField(spec_unpack_bits(spec_pack_bits(bits))),
        _ => m,
    }
}

/// Round trip: parsing a serialised message yields it back, except that a
/// bitfield is zero-padded to whole bytes.
pub proof fn lemma_round_trip(m: MessageV)
    requires
        spec_wf(m),
    ensures
        spec_decode(spec_encode(m)) == Ok::<MessageV, Error>(spec_pad(m)),
{
    let e = spec_encode(m);
    match m {
        MessageV::KeepAlive => {
            lemma_u32_be_round(0);
        },
        MessageV::Choke => {
            lemma_u32_be_round(1);
            assert(e.len() == 5 && e[4] == 0);
        },
        MessageV::Unchoke => {
            lemma_u32_be_round(1);
            assert(e.len() == 5 && e[4] == 1);
        },
        MessageV::Interested => {
            lemma_u32_be_round(1);
            assert(e.len() == 5 && e[4] == 2);
        },
        MessageV::NotInterested => {
            lemma_u32_be_round(1);
            assert(e.len() == 5 && e[4] == 3);
        },
        MessageV::Have(i) => {
            lemma_u32_be_round(5);
            lemma_u32_be_round(i);
            assert(e.len() == 9 && e[4] == 4);
            assert(e[5] == spec_u32_be(i)[0] && e[6] == spec_u32_be(i)[1] && e[7] == spec_u32_be(
                i,
            )[2] && e[8] == spec_u32_be(i)[3]);
        },
        MessageV::Request(i, b, l) => {
            lemma_u32_be_round(13);
            lemma_u32_be_round(i);
            lemma_u32_be_round(b);
            lemma_u32_be_round(l);
            assert(e.len() == 17 && e[4] == 6);
            assert(e[5] == spec_u32_be(i)[0] && e[6] == spec_u32_be(i)[1] && e[7] == spec_u32_be(
                i,
            )[2] && e[8] == spec_u32_be(i)[3]);
            assert(e[9] == spec_u32_be(b)[0] && e[10] == spec_u32_be(b)[1] && e[11] == spec_u32_be(
                b,
            )[2] && e[12] == spec_u32_be(b)[3]);
            assert(e[13] == spec_u32_be(l)[0] && e[14] == spec_u32_be(l)[1] && e[15]
                == spec_u32_be(l)[2] && e[16] == spec_u32_be(l)[3]);
        },
        MessageV::Cancel(i, b, l) => {
            lemma_u32_be_round(13);
            lemma_u32_be_round(i);
            lemma_u32_be_round(b);
            lemma_u32_be_round(l);
            assert(e.len() == 17 && e[4] == 8);
            assert(e[5] == spec_u32_be(i)[0] && e[6] == spec_u32_be(i)[1] && e[7] == spec_u32_be(
                i,
            )[2] && e[8] == spec_u32_be(i)[3]);
            assert(e[9] == spec_u32_be(b)[0] && e[10] == spec_u32_be(b)[1] && e[11] == spec_u32_be(
                b,
            )[2] && e[12] == spec_u32_be(b)[3]);
            assert(e[13] == spec_u32_be(l)[0] && e[14] == spec_u32_be(l)[1] && e[15]
                == spec_u32_be(l)[2] && e[16] == spec_u32_be(l)[3]);
        },
        MessageV::BitField(bits) => {
            let nbytes = (bits.len() + 7) as int / 8;
            let length = (1 + nbytes) as u32;
            lemma_u32_be_round(length);
            lemma_fundamental_div_mod((bits.len() + 7) as int, 8);
            lemma_mod_bound((bits.len() + 7) as int, 8);
            assert(nbytes >= 1);
            assert(e.len() == 5 + nbytes && e[4] == 5);
            assert(e.skip(5) =~= spec_pack_bits(bits));
        },
        MessageV::Piece(i, b, d) => {
            let length = (9 + d.len()) as u32;
            lemma_u32_be_round(length);
            lemma_u32_be_round(i);
            lemma_u32_be_round(b);
            assert(e.len() == 13 + d.len() && e[4] == 7);
            assert(e[5] == spec_u32_be(i)[0] && e[6] == spec_u32_be(i)[1] && e[7] == spec_u32_be(
                i,
            )[2] && e[8] == spec_u32_be(i)[3]);
            assert(e[9] == spec_u32_be(b)[0] && e[10] == spec_u32_be(b)[1] && e[11] == spec_u32_be(
                b,
            )[2] && e[12] == spec_u32_be(b)[3]);
            assert(e.skip(13) =~= d);
        },
        MessageV::Port(p) => {
            lemma_u32_be_round(3);
            lemma_u16_be_round(p);
            assert(e.len() == 7 && e[4] == 9);
            assert(e[5] == spec_u16_be(p)[0] && e[6] == spec_u16_be(p)[1]);
        },
    }
}

/// Exact round trip: when a bitfield already covers whole bytes, parsing a
/// serialised message yields exactly the message sent.
pub proof fn lemma_round_trip_exact(m: MessageV)
    requires
        spec_wf(m),
        match m {
            MessageV::BitField(bits) => bits.len() % 8 == 0,
            _ => true,
        },
    ensures
        spec_decode(spec_encode(m)) == Ok::<MessageV, Error>(m),
{
    lemma_round_trip(m);
    match m {
        MessageV::BitField(bits) => {
            crate::bitset::lemma_unpack_pack_exact(bits);
        },
        _ => {},
    }
}

impl Message {
    /// The nominal value of the length field for this message.
    pub fn len(&self) -> (r: u32)
        requires
            spec_wf(self@),
        ensures
            r == spec_len(self@),
    {
        match self {
            Message::KeepAlive => 0,
            Message::Choke | Message::Unchoke | Message::Interested | Message::NotInterested => 1,
            Message::Port(_) => 3,
            Message::Have(_) => 5,
            Message::Request(_, _, _) | Message::Cancel(_, _, _) => 13,
            Message::BitField(bf) => {
                let n = bf.len();
                proof {
                    lemma_fundamental_div_mod(n as int, 8);
                    lemma_mod_bound(n as int, 8);
                    lemma_fundamental_div_mod((n + 7) as int, 8);
                    lemma_mod_bound((n + 7) as int, 8);
                }
                let nbytes = n / 8 + if n % 8 == 0 {
                    0
                } else {
                    1
                };
                proof {
                    lemma_fundamental_div_mod_converse_div(
                        (n + 7) as int,
                        8,
                        nbytes as int,
                        (n + 7) - 8 * nbytes,
                    );
                }
                nbytes as u32 + 1
            },
            Message::Piece(_, _, v) => 9 + v.len() as u32,
        }
    }

    /// The type id of this message, `None` for the id-less keep-alive.
    pub fn id(&self) -> (r: Option<u8>)
        ensures
            r == spec_id(self@),
    {
        match self {
            Message::KeepAlive => None,
            Message::Choke => Some(0),
            Message::Unchoke => Some(1),
            Message::Interested => Some(2),
            Message::NotInterested => Some(3),
            Message::Have(_) => Some(4),
            Message::BitField(_) => Some(5),
            Message::Request(_, _, _) => Some(6),
            Message::Piece(_, _, _) => Some(7),
            Message::Cancel(_, _, _) => Some(8),
            Message::Port(_) => Some(9),
        }
    }

    /// Append the whole frame of this message to `out`.
    pub fn send(&self, out: &mut Vec<u8>)
        requires
            spec_wf(self@),
        ensures
            final(out)@ == old(out)@ + spec_encode(self@),
    {
        match self {
            Message::KeepAlive => {
                u32_to_be(0, out);
            },
            Message::Choke => {
                u32_to_be(1, out);
                out.push(0);
                proof {
                    assert(final(out)@ =~= old(out)@ + spec_encode(self@));
                }
            },
            Message::Unchoke => {
                u32_to_be(1, out);
                out.push(1);
                proof {
                    assert(final(out)@ =~= old(out)@ + spec_encode(self@));
                }
            },
            Message::Interested => {
                u32_to_be(1, out);
                out.push(2);
                proof {
                    assert(final(out)@ =~= old(out)@ + spec_encode(self@));
                }
            },
            Message::NotInterested => {
                u32_to_be(1, out);
                out.push(3);
                proof {
                    assert(final(out)@ =~= old(out)@ + spec_encode(self@));
                }
            },
            Message::Have(i) => {
                u32_to_be(5, out);
                out.push(4);
                u32_to_be(*i, out);
                proof {
                    assert(final(out)@ =~= old(out)@ + spec_encode(self@));
                }
            },
            Message::Request(i, b, l) => {
                u32_to_be(13, out);
                out.push(6);
                u32_to_be(*i, out);
                u32_to_be(*b, out);
                u32_to_be(*l, out);
                proof {
                    assert(final(out)@ =~= old(out)@ + spec_encode(self@));
                }
            },
            Message::Cancel(i, b, l) => {
                u32_to_be(13, out);
                out.push(8);
                u32_to_be(*i, out);
                u32_to_be(*b, out);
                u32_to_be(*l, out);
                proof {
                    assert(final(out)@ =~= old(out)@ + spec_encode(self@));
                }
            },
            Message::BitField(bf) => {
                let bytes = bf.to_bytes();
                proof {
                    lemma_fundamental_div_mod((bf@.len() + 7) as int, 8);
                    lemma_mod_bound((bf@.len() + 7) as int, 8);
                }
                u32_to_be(bytes.len() as u32 + 1, out);
                out.push(5);
                append_bytes(out, bytes.as_slice());
                proof {
                    assert(final(out)@ =~= old(out)@ + spec_encode(self@));
                }
            },
            Message::Piece(i, b, d) => {
                u32_to_be(9 + d.len() as u32, out);
                out.push(7);
                u32_to_be(*i, out);
                u32_to_be(*b, out);
                append_bytes(out, d.as_slice());
                proof {
                    assert(final(out)@ =~= old(out)@ + spec_encode(self@));
                }
            },
            Message::Port(p) => {
                u32_to_be(3, out);
                out.push(9);
                u16_to_be(*p, out);
                proof {
                    assert(final(out)@ =~= old(out)@ + spec_encode(self@));
                }
            },
        }
    }

    /// Parse one whole frame, the 4-byte length prefix included.
    pub fn recv(data: &[u8]) -> (r: Result<Message, Error>)
        ensures
            match r {
                Ok(m) => spec_decode(data@) == Ok::<MessageV, Error>(m@),
                Err(e) => spec_decode(data@) == Err::<MessageV, Error>(e),
            },
    {
        let n = data.len();
        if n < 4 {
            return Err(Error::Truncated);
        }
        let length = u32_from_4(data[0], data[1], data[2], data[3]);
        if n - 4 != length as usize {
            return Err(Error::Truncated);
        }
        if length == 0 {
            return Ok(Message::KeepAlive);
        }
        let id = data[4];
        if id == 0 {
            if length == 1 {
                Ok(Message::Choke)
            } else {
                Err(Error::WrongLength(length, 1))
            }
        } else if id == 1 {
            if length == 1 {
                Ok(Message::Unchoke)
            } else {
                Err(Error::WrongLength(length, 1))
            }
        } else if id == 2 {
            if length == 1 {
                Ok(Message::Interested)
            } else {
                Err(Error::WrongLength(length, 1))
            }
        } else if id == 3 {
            if length == 1 {
                Ok(Message::NotInterested)
            } else {
                Err(Error::WrongLength(length, 1))
            }
        } else if id == 4 {
            if length == 5 {
                Ok(Message::Have(u32_from_4(data[5], data[6], data[7], data[8])))
            } else {
                Err(Error::WrongLength(length, 5))
            }
        } else if id == 5 {
            if length < 2 {
                Err(Error::SmallLength(2, length))
            } else {
                let rest = slice_subrange(data, 5, n);
                let bf = Bitmap::from_bytes(rest);
                proof {
                    assert(rest@ =~= data@.skip(5));
                }
                Ok(Message::BitField(bf))
            }
        } else if id == 6 {
            if length == 13 {
                Ok(
                    Message::Request(
                        u32_from_4(data[5], data[6], data[7], data[8]),
                        u32_from_4(data[9], data[10], data[11], data[12]),
                        u32_from_4(data[13], data[14], data[15], data[16]),
                    ),
                )
            } else {
                Err(Error::WrongLength(length, 13))
            }
        } else if id == 7 {
            if length < 10 {
                Err(Error::SmallLength(10, length))
            } else {
                let index = u32_from_4(data[5], data[6], data[7], data[8]);
                let begin = u32_from_4(data[9], data[10], data[11], data[12]);
                let payload = slice_to_vec(slice_subrange(data, 13, n));
                proof {
                    assert(payload@ =~= data@.skip(13));
                }
                Ok(Message::Piece(index, begin, payload))
            }
        } else if id == 8 {
            if length == 13 {
                Ok(
                    Message::Cancel(
                        u32_from_4(data[5], data[6], data[7], data[8]),
                        u32_from_4(data[9], data[10], data[11], data[12]),
                        u32_from_4(data[13], data[14], data[15], data[16]),
                    ),
                )
            } else {
                Err(Error::WrongLength(length, 13))
            }
        } else if id == 9 {
            if length == 3 {
                Ok(Message::Port(u16_from_2(data[5], data[6])))
            } else {
                Err(Error::WrongLength(length, 3))
            }
        } else {
            Err(Error::Invalid(id))
        }
    }
}

impl PartialEq for Message {
    fn eq(&self, other: &Self) -> (r: bool) {
        match (self, other) {
            (Message::KeepAlive, Message::KeepAlive) => true,
            (Message::Choke, Message::Choke) => true,
            (Message::Unchoke, Message::Unchoke) => true,
            (Message::Interested, Message::Interested) => true,
            (Message::NotInterested, Message::NotInterested) => true,
            (Message::Have(a), Message::Have(b)) => a == b,
            (Message::Request(i1, b1, l1), Message::Request(i2, b2, l2)) => i1 == i2 && b1 == b2
                && l1 == l2,
            (Message::Cancel(i1, b1, l1), Message::Cancel(i2, b2, l2)) => i1 == i2 && b1 == b2
                && l1 == l2,
            (Message::BitField(x), Message::BitField(y)) => x == y,
            (Message::Piece(i1, b1, d1), Message::Piece(i2, b2, d2)) => i1 == i2 && b1 == b2
                && bytes_eq(d1.as_slice(), d2.as_slice()),
            (Message::Port(p1), Message::Port(p2)) => p1 == p2,
            _ => false,
        }
    }
}

impl vstd::std_specs::cmp::PartialEqSpecImpl for Message {
    open spec fn obeys_eq_spec() -> bool {
        true
    }

    open spec fn eq_spec(&self, other: &Self) -> bool {
        self@ == other@
    }
}

/// The fixed protocol name sent in every handshake.
pub open spec fn spec_protocol_name() -> Seq<u8> {
    seq![
        66u8,
        105,
        116,
        84,
        111,
        114,
        114,
        101,
        110,
        116,
        32,
        80,
        114,
        111,
        116,
        111,
        99,
        111,
        108,
    ]
}

/// The handshake frame: the prefix byte 19, the 19-byte protocol name,
/// eight reserved zero bytes, the 20-byte info-hash, and, when given, the
/// 20-byte peer id.
pub open spec fn spec_handshake(ih: Seq<u8>, pid: Option<Seq<u8>>) -> Seq<u8> {
    seq![19u8] + spec_protocol_name() + seq![0u8, 0, 0, 0, 0, 0, 0, 0] + ih + match pid {
        Some(p) => p,
        None => Seq::empty(),
    }
}

/// A received handshake is accepted exactly when it is long enough for its
/// own protocol-name length, carries the expected info-hash, and does not
/// carry the client's own peer id (a connection to oneself is refused).
pub open spec fn spec_handshake_ok(ih: Seq<u8>, cid: Seq<u8>, data: Seq<u8>) -> bool {
    &&& data.len() >= 1
    &&& data.len() >= 49 + data[0]
    &&& data.subrange(9 + data[0], 29 + data[0]) == ih
    &&& data.subrange(29 + data[0], 49 + data[0]) != cid
}

/// The handshake exchanged when a connection opens.
pub struct Handshake {
    pub info_hash: Vec<u8>,
    pub peer_id: Vec<u8>,
}

impl Handshake {
    /// Append a handshake frame for `info_hash`, signed with `peer_id` when
    /// one is given.
    pub fn send(info_hash: &[u8], peer_id: Option<&[u8]>, out: &mut Vec<u8>)
        ensures
            final(out)@ == old(out)@ + spec_handshake(
                info_hash@,
                match peer_id {
                    Some(p) => Some(p@),
                    None => None,
                },
            ),
    {
        out.push(19);
        append_bytes(
            out,
            &[
                66u8,
                105,
                116,
                84,
                111,
                114,
                114,
                101,
                110,
                116,
                32,
                80,
                114,
                111,
                116,
                111,
                99,
                111,
                108,
            ],
        );
        append_bytes(out, &[0u8, 0, 0, 0, 0, 0, 0, 0]);
        append_bytes(out, info_hash);
        match peer_id {
            Some(pid) => {
                append_bytes(out, pid);
                proof {
                    assert(final(out)@ =~= old(out)@ + spec_handshake(info_hash@, Some(pid@)));
                }
            },
            None => {
                proof {
                    assert(final(out)@ =~= old(out)@ + spec_handshake(
                        info_hash@,
                        None::<Seq<u8>>,
                    ));
                }
            },
        }
    }

    /// Check a received handshake frame against the expected info-hash and
    /// the client's own id.
    pub fn recv(info_hash: &[u8], client_id: &[u8], data: &[u8]) -> (r: bool)
        ensures
            r == spec_handshake_ok(info_hash@, client_id@, data@),
    {
        if data.len() < 1 {
            return false;
        }
        let p = data[0] as usize;
        if data.len() < 49 + p {
            return false;
        }
        let hash_got = slice_subrange(data, 9 + p, 29 + p);
        if !bytes_eq(hash_got, info_hash) {
            proof {
                assert(hash_got@ =~= data@.subrange(9 + data@[0], 29 + data@[0]));
            }
            return false;
        }
        let id_got = slice_subrange(data, 29 + p, 49 + p);
        proof {
            assert(hash_got@ =~= data@.subrange(9 + data@[0], 29 + data@[0]));
            assert(id_got@ =~= data@.subrange(29 + data@[0], 49 + data@[0]));
        }
        if bytes_eq(id_got, client_id) {
            return false;
        }
        true
    }
}

} // verus!
