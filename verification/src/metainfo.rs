//! The read-only torrent metadata: payload name and length, piece length,
//! and the concatenated 20-byte SHA-1 digests of every piece.  Loading the
//! bencoded file from disk is the caller's business; this module validates
//! the fields, derives piece counts and sizes, canonically re-encodes the
//! info dictionary for the info-hash, and checks piece digests.

use crate::digest::{sha1, sha1_of};
use crate::encoding::{append_bytes, spec_decimal, u64_to_decimal};
use vstd::arithmetic::div_mod::{lemma_fundamental_div_mod, lemma_mod_bound};
use vstd::prelude::*;

verus! {

/// The `info` dictionary of the metadata file.
pub struct Info {
    /// Payload name, as the raw bytes of the bencoded string.
    pub name: Vec<u8>,
    /// Length of every piece but possibly the last, in bytes.
    pub piece_length: usize,
    /// Concatenated 20-byte SHA-1 digests, one per piece.
    pub pieces: Vec<u8>,
    /// Total payload length in bytes.
    pub length: usize,
}

/// Why a metadata file was rejected.
#[derive(Debug)]
pub enum Error {
    InvalidPieceArrayLength(String),
    ZeroPieceLength,
    ZeroLength,
    InvalidName,
}

impl Info {
    /// Number of pieces: the total length divided by the piece length,
    /// rounded up.
    pub open spec fn spec_num_pieces(&self) -> int
        recommends
            self.length > 0,
            self.piece_length > 0,
    {
        1 + (self.length - 1) as int / self.piece_length as int
    }

    /// A well-formed info dictionary: nonempty name, positive lengths, a
    /// digest array holding exactly one 20-byte digest per piece, and both
    /// the piece count and the piece length within the wire protocol's
    /// 32-bit range.
    pub open spec fn valid(&self) -> bool {
        &&& self.name@.len() > 0
        &&& self.length > 0
        &&& self.piece_length > 0
        &&& self.piece_length <= u32::MAX
        &&& self.pieces@.len() % 20 == 0
        &&& self.spec_num_pieces() == self.pieces@.len() as int / 20
        &&& self.spec_num_pieces() <= u32::MAX
    }

    /// Size of the piece at `index`: the piece length, except that the last
    /// piece holds only what remains of the payload.
    pub open spec fn spec_piece_size(&self, index: int) -> int
        recommends
            self.valid(),
            0 <= index < self.spec_num_pieces(),
    {
        if index == self.spec_num_pieces() - 1 {
            self.length - (self.spec_num_pieces() - 1) * self.piece_length
        } else {
            self.piece_length as int
        }
    }

    /// Which rejection `validate` owes for this dictionary, if any.
    pub open spec fn rejection(&self, e: Error) -> bool {
        match e {
            Error::InvalidName => self.name@.len() == 0,
            Error::ZeroLength => self.name@.len() > 0 && self.length == 0,
            Error::ZeroPieceLength => self.name@.len() > 0 && self.length > 0
                && self.piece_length == 0,
            Error::InvalidPieceArrayLength(_) => self.name@.len() > 0 && self.length > 0
                && self.piece_length > 0 && !self.valid(),
        }
    }

    /// Every piece is at least one byte and at most a whole piece length,
    /// and all pieces together cover exactly the payload.
    pub proof fn lemma_piece_size_bounds(&self, index: int)
        requires
            self.valid(),
            0 <= index < self.spec_num_pieces(),
        ensures
            1 <= self.spec_piece_size(index) <= self.piece_length,
    {
        let l = self.length as int;
        let p = self.piece_length as int;
        let q = (l - 1) / p;
        lemma_fundamental_div_mod(l - 1, p);
        lemma_mod_bound(l - 1, p);
        assert(q * p == p * q) by (nonlinear_arith);
    }

    /// Accept exactly the well-formed dictionaries, naming the first
    /// violated rule otherwise.
    pub fn validate(&self) -> (r: Result<(), Error>)
        ensures
            match r {
                Ok(()) => self.valid(),
                Err(e) => self.rejection(e),
            },
    {
        if self.name.len() == 0 {
            return Err(Error::InvalidName);
        } else if self.length == 0 {
            return Err(Error::ZeroLength);
        } else if self.piece_length == 0 {
            return Err(Error::ZeroPieceLength);
        }

        if self.pieces.len() % 20 != 0 {
            return Err(
                Error::InvalidPieceArrayLength(
                    "length of pieces array is not a multiple of 20".to_string(),
                ),
            );
        }

        proof {
            lemma_fundamental_div_mod((self.length - 1) as int, self.piece_length as int);
            lemma_mod_bound((self.length - 1) as int, self.piece_length as int);
        }
        let np: usize = 1 + (self.length - 1) / self.piece_length;
        if self.piece_length > u32::MAX as usize || np > u32::MAX as usize || np != self.pieces.len()
            / 20 {
            return Err(
                Error::InvalidPieceArrayLength(
                    "number of pieces not equal to size of pieces array".to_string(),
                ),
            );
        }

        Ok(())
    }

    /// Number of pieces.
    pub fn num_pieces(&self) -> (r: u32)
        requires
            self.valid(),
        ensures
            r == self.spec_num_pieces(),
    {
        proof {
            lemma_fundamental_div_mod((self.length - 1) as int, self.piece_length as int);
            lemma_mod_bound((self.length - 1) as int, self.piece_length as int);
        }
        (1 + (self.length - 1) / self.piece_length) as u32
    }

    /// Size in bytes of the piece at `index`.
    pub fn piece_size(&self, index: u32) -> (r: u32)
        requires
            self.valid(),
            index < self.spec_num_pieces(),
        ensures
            r == self.spec_piece_size(index as int),
    {
        let num_pieces = self.num_pieces() as usize;
        proof {
            self.lemma_piece_size_bounds(index as int);
            lemma_fundamental_div_mod((self.length - 1) as int, self.piece_length as int);
            lemma_mod_bound((self.length - 1) as int, self.piece_length as int);
        }
        if index as usize == num_pieces - 1 {
            return (self.length - (num_pieces - 1) * self.piece_length) as u32;
        }
        self.piece_length as u32
    }

    /// True iff `piece` hashes to the digest recorded for piece `index`.
    pub fn verify_piece(&self, index: u32, piece: &[u8]) -> (r: bool)
        requires
            self.valid(),
            index < self.spec_num_pieces(),
        ensures
            r == (sha1_of(piece@) == self.pieces@.subrange(
                index as int * 20,
                index as int * 20 + 20,
            )),
    {
        let plen = self.pieces.len();
        proof {
            lemma_fundamental_div_mod(plen as int, 20);
            lemma_mod_bound(plen as int, 20);
            assert(plen as int == 20 * self.spec_num_pieces());
            assert(index as int * 20 + 20 <= plen as int);
        }
        let hash = sha1(piece);
        let base: usize = index as usize * 20;
        let ghost sub = self.pieces@.subrange(index as int * 20, index as int * 20 + 20);
        let mut j: usize = 0;
        while j < 20
            invariant
                j <= 20,
                base == index as int * 20,
                plen == self.pieces@.len(),
                base + 20 <= plen,
                hash@ == sha1_of(piece@),
                hash@.len() == 20,
                sub == self.pieces@.subrange(index as int * 20, index as int * 20 + 20),
                forall|k: int| 0 <= k < j ==> hash@[k] == sub[k],
            decreases 20 - j,
        {
            if hash[j] != self.pieces[base + j] {
                assert(sub[j as int] == self.pieces@[base + j]);
                assert(sha1_of(piece@) != sub);
                return false;
            }
            j = j + 1;
        }
        proof {
            assert(hash@ =~= sub);
        }
        true
    }

    /// The canonical bencoding of this dictionary: keys in sorted order,
    /// integers in plain decimal, strings length-prefixed.
    pub open spec fn spec_bencoding(&self) -> Seq<u8> {
        seq![100u8]  // d
         + seq![54u8, 58, 108, 101, 110, 103, 116, 104]  // 6:length
         + seq![105u8] + spec_decimal(self.length as nat) + seq![101u8]  // i...e
         + seq![52u8, 58, 110, 97, 109, 101]  // 4:name
         + spec_decimal(self.name@.len()) + seq![58u8] + self.name@
        + seq![49u8, 50, 58, 112, 105, 101, 99, 101, 32, 108, 101, 110, 103, 116, 104]  // 12:piece length
         + seq![105u8] + spec_decimal(self.piece_length as nat) + seq![101u8]  // i...e
         + seq![54u8, 58, 112, 105, 101, 99, 101, 115]  // 6:pieces
         + spec_decimal(self.pieces@.len()) + seq![58u8] + self.pieces@ + seq![101u8]  // e

    }

    /// Re-encode the dictionary canonically.
    #[verifier::rlimit(100)]
    fn bencoding(&self) -> (r: Vec<u8>)
        ensures
            r@ == self.spec_bencoding(),
    {
        let mut out: Vec<u8> = vec![100u8, 54, 58, 108, 101, 110, 103, 116, 104, 105];
        let mut dec = u64_to_decimal(self.length as u64);
        out.append(&mut dec);
        out.push(101);
        append_bytes(&mut out, &[52u8, 58, 110, 97, 109, 101]);
        let mut dec = u64_to_decimal(self.name.len() as u64);
        out.append(&mut dec);
        out.push(58);
        append_bytes(&mut out, self.name.as_slice());
        append_bytes(
            &mut out,
            &[49u8, 50, 58, 112, 105, 101, 99, 101, 32, 108, 101, 110, 103, 116, 104],
        );
        out.push(105);
        let mut dec = u64_to_decimal(self.piece_length as u64);
        out.append(&mut dec);
        out.push(101);
        append_bytes(&mut out, &[54u8, 58, 112, 105, 101, 99, 101, 115]);
        let mut dec = u64_to_decimal(self.pieces.len() as u64);
        out.append(&mut dec);
        out.push(58);
        append_bytes(&mut out, self.pieces.as_slice());
        out.push(101);
        proof {
            assert(out@ =~= self.spec_bencoding());
        }
        out
    }

    /// The info-hash: the SHA-1 digest of the canonical bencoding.
    pub fn hash(&self) -> (r: Result<Vec<u8>, Error>)
        ensures
            match r {
                Ok(h) => self.valid() && h@ == sha1_of(self.spec_bencoding()) && h@.len() == 20,
                Err(e) => self.rejection(e),
            },
    {
        match self.validate() {
            Err(e) => Err(e),
            Ok(()) => {
                let enc = self.bencoding();
                Ok(sha1(enc.as_slice()))
            },
        }
    }
}

/// The whole metadata file: the tracker URL, the info dictionary, and a few
/// optional informational fields.
pub struct Metainfo {
    pub announce: String,
    pub info: Info,
    pub creation_date: Option<u64>,
    pub comment: Option<String>,
    pub created_by: Option<String>,
    pub encoding: Option<String>,
}

impl Metainfo {
    /// A usable metainfo is one whose info dictionary is well formed.
    pub open spec fn valid(&self) -> bool {
        self.info.valid()
    }

    pub open spec fn spec_num_pieces(&self) -> int {
        self.info.spec_num_pieces()
    }

    pub open spec fn spec_piece_size(&self, index: int) -> int {
        self.info.spec_piece_size(index)
    }

    /// The SHA-1 digest of the canonical bencoding of the info dictionary.
    pub fn info_hash(&self) -> (r: Result<Vec<u8>, Error>)
        ensures
            match r {
                Ok(h) => self.valid() && h@ == sha1_of(self.info.spec_bencoding()) && h@.len()
                    == 20,
                Err(e) => self.info.rejection(e),
            },
    {
        self.info.hash()
    }

    /// True iff `piece` hashes to the digest recorded for piece `index`.
    pub fn verify_piece(&self, index: u32, piece: &[u8]) -> (r: bool)
        requires
            self.valid(),
            index < self.spec_num_pieces(),
        ensures
            r == (sha1_of(piece@) == self.info.pieces@.subrange(
                index as int * 20,
                index as int * 20 + 20,
            )),
    {
        self.info.verify_piece(index, piece)
    }

    /// Size in bytes of the piece at `index`.
    pub fn get_piece_size(&self, index: u32) -> (r: u32)
        requires
            self.valid(),
            index < self.spec_num_pieces(),
        ensures
            r == self.spec_piece_size(index as int),
    {
        self.info.piece_size(index)
    }

    /// Number of pieces.
    pub fn num_pieces(&self) -> (r: u32)
        requires
            self.valid(),
        ensures
            r == self.spec_num_pieces(),
    {
        self.info.num_pieces()
    }
}

} // verus!
