//! Ordered bit sequences of fixed length, used for the client's owned
//! pieces, per-peer availability, required sets and their combinations.
//! On the wire the bits are packed most-significant-bit-first within each
//! byte; bits beyond the payload length are zero on send.

use vstd::prelude::*;

verus! {

/// An ordered sequence of bits; one bit per piece index.
#[derive(Debug)]
pub struct Bitmap {
    bits: Vec<bool>,
}

impl PartialEq for Bitmap {
    fn eq(&self, other: &Self) -> (r: bool) {
        if self.bits.len() != other.bits.len() {
            return false;
        }
        let mut i: usize = 0;
        while i < self.bits.len()
            invariant
                i <= self.bits@.len(),
                self.bits@.len() == other.bits@.len(),
                forall|j: int| 0 <= j < i ==> self.bits@[j] == other.bits@[j],
            decreases self.bits@.len() - i,
        {
            if self.bits[i] != other.bits[i] {
                return false;
            }
            i = i + 1;
        }
        proof {
            assert(self.bits@ =~= other.bits@);
        }
        true
    }
}

impl vstd::std_specs::cmp::PartialEqSpecImpl for Bitmap {
    open spec fn obeys_eq_spec() -> bool {
        true
    }

    open spec fn eq_spec(&self, other: &Self) -> bool {
        self@ == other@
    }
}

impl View for Bitmap {
    type V = Seq<bool>;

    closed spec fn view(&self) -> Seq<bool> {
        self.bits@
    }
}

impl Clone for Bitmap {
    fn clone(&self) -> (r: Self)
        ensures
            r@ == self@,
    {
        let mut bits: Vec<bool> = Vec::new();
        let mut i: usize = 0;
        while i < self.bits.len()
            invariant
                i <= self.bits.len(),
                bits@ == self.bits@.take(i as int),
            decreases self.bits.len() - i,
        {
            bits.push(self.bits[i]);
            i = i + 1;
        }
        proof {
            assert(bits@ =~= self.bits@);
        }
        Bitmap { bits }
    }
}

impl Bitmap {
    /// A bitmap of `len` bits, all clear.
    pub fn new(len: usize) -> (r: Self)
        ensures
            r@ == Seq::new(len as nat, |i: int| false),
    {
        let mut bits: Vec<bool> = Vec::new();
        let mut i: usize = 0;
        while i < len
            invariant
                i <= len,
                bits@ == Seq::new(i as nat, |j: int| false),
            decreases len - i,
        {
            bits.push(false);
            proof {
                assert(bits@ =~= Seq::new((i + 1) as nat, |j: int| false));
            }
            i = i + 1;
        }
        Bitmap { bits }
    }

    pub fn len(&self) -> (r: usize)
        ensures
            r == self@.len(),
    {
        self.bits.len()
    }

    pub fn get(&self, i: usize) -> (r: bool)
        requires
            i < self@.len(),
        ensures
            r == self@[i as int],
    {
        self.bits[i]
    }

    pub fn set(&mut self, i: usize, b: bool)
        requires
            i < old(self)@.len(),
        ensures
            final(self)@ == old(self)@.update(i as int, b),
    {
        self.bits.set(i, b);
    }

    /// Append one bit.
    pub fn push(&mut self, b: bool)
        ensures
            final(self)@ == old(self)@.push(b),
    {
        self.bits.push(b);
    }

    /// True iff at least one bit is set.
    pub fn any(&self) -> (r: bool)
        ensures
            r == exists|i: int| 0 <= i < self@.len() && self@[i],
    {
        let mut i: usize = 0;
        while i < self.bits.len()
            invariant
                i <= self.bits.len(),
                forall|j: int| 0 <= j < i ==> !self.bits@[j],
            decreases self.bits.len() - i,
        {
            if self.bits[i] {
                assert(self@[i as int]);
                return true;
            }
            i = i + 1;
        }
        false
    }

    /// Keep only the first `n` bits; a no-op when `n` is not below the length.
    pub fn truncate(&mut self, n: usize)
        ensures
            final(self)@ == old(self)@.take(if n <= old(self)@.len() {
                n as int
            } else {
                old(self)@.len() as int
            }),
    {
        self.bits.truncate(n);
        proof {
            if n > old(self)@.len() {
                assert(final(self)@ =~= old(self)@.take(old(self)@.len() as int));
            }
        }
    }

    /// Pointwise negation.
    pub fn complement(&self) -> (r: Self)
        ensures
            r@.len() == self@.len(),
            forall|i: int| 0 <= i < self@.len() ==> r@[i] == !self@[i],
    {
        let mut bits: Vec<bool> = Vec::new();
        let mut i: usize = 0;
        while i < self.bits.len()
            invariant
                i <= self.bits.len(),
                bits@.len() == i,
                forall|j: int| 0 <= j < i ==> bits@[j] == !self.bits@[j],
            decreases self.bits.len() - i,
        {
            bits.push(!self.bits[i]);
            i = i + 1;
        }
        Bitmap { bits }
    }
}

/// 1 when bit `i` exists and is set, else 0.
pub open spec fn spec_bitval(bits: Seq<bool>, i: int) -> u8 {
    if 0 <= i < bits.len() && bits[i] {
        1
    } else {
        0
    }
}

/// The byte packing bits `base .. base + 8`, most significant bit first;
/// missing bits are zero.
pub open spec fn spec_byte_of_bits(bits: Seq<bool>, base: int) -> u8 {
    (spec_bitval(bits, base) * 128 + spec_bitval(bits, base + 1) * 64 + spec_bitval(bits, base + 2)
        * 32 + spec_bitval(bits, base + 3) * 16 + spec_bitval(bits, base + 4) * 8 + spec_bitval(
        bits,
        base + 5,
    ) * 4 + spec_bitval(bits, base + 6) * 2 + spec_bitval(bits, base + 7)) as u8
}

/// The byte-aligned packing of a bit sequence, most significant bit first
/// within each byte, zero-padded at the end.
pub open spec fn spec_pack_bits(bits: Seq<bool>) -> Seq<u8> {
    Seq::new(((bits.len() + 7) / 8) as nat, |k: int| spec_byte_of_bits(bits, 8 * k))
}

/// Bit `j` of a byte, most significant bit first.
pub open spec fn spec_bit_of_byte(b: u8, j: int) -> bool
    recommends
        0 <= j < 8,
{
    if j == 0 {
        b / 128 % 2 == 1
    } else if j == 1 {
        b / 64 % 2 == 1
    } else if j == 2 {
        b / 32 % 2 == 1
    } else if j == 3 {
        b / 16 % 2 == 1
    } else if j == 4 {
        b / 8 % 2 == 1
    } else if j == 5 {
        b / 4 % 2 == 1
    } else if j == 6 {
        b / 2 % 2 == 1
    } else {
        b % 2 == 1
    }
}

/// All the bits of a byte string, most significant bit of each byte first.
pub open spec fn spec_unpack_bits(bytes: Seq<u8>) -> Seq<bool> {
    Seq::new((bytes.len() * 8) as nat, |i: int| spec_bit_of_byte(bytes[i / 8], i % 8))
}

/// Unpacking the byte that packs bits `base .. base + 8` recovers each bit,
/// with zeros where the sequence has ended.
pub proof fn lemma_byte_bits_round(bits: Seq<bool>, base: int, j: int)
    requires
        0 <= base,
        0 <= j < 8,
    ensures
        spec_bit_of_byte(spec_byte_of_bits(bits, base), j) == (base + j < bits.len() && bits[base
            + j]),
{
    let c0 = spec_bitval(bits, base);
    let c1 = spec_bitval(bits, base + 1);
    let c2 = spec_bitval(bits, base + 2);
    let c3 = spec_bitval(bits, base + 3);
    let c4 = spec_bitval(bits, base + 4);
    let c5 = spec_bitval(bits, base + 5);
    let c6 = spec_bitval(bits, base + 6);
    let c7 = spec_bitval(bits, base + 7);
    let b = spec_byte_of_bits(bits, base);
    assert((b / 128 % 2 == 1) == (c0 == 1) && (b / 64 % 2 == 1) == (c1 == 1) && (b / 32 % 2 == 1)
        == (c2 == 1) && (b / 16 % 2 == 1) == (c3 == 1) && (b / 8 % 2 == 1) == (c4 == 1) && (b / 4
        % 2 == 1) == (c5 == 1) && (b / 2 % 2 == 1) == (c6 == 1) && (b % 2 == 1) == (c7 == 1))
        by (bit_vector)
        requires
            c0 <= 1,
            c1 <= 1,
            c2 <= 1,
            c3 <= 1,
            c4 <= 1,
            c5 <= 1,
            c6 <= 1,
            c7 <= 1,
            b == (c0 * 128 + c1 * 64 + c2 * 32 + c3 * 16 + c4 * 8 + c5 * 4 + c6 * 2 + c7) as u8,
    ;
}

/// Unpacking a packed bit sequence recovers every bit, followed by zero
/// bits padding the length to a whole number of bytes.
pub proof fn lemma_unpack_pack(bits: Seq<bool>)
    ensures
        spec_unpack_bits(spec_pack_bits(bits)).len() == 8 * ((bits.len() + 7) as int / 8),
        forall|i: int|
            0 <= i < spec_unpack_bits(spec_pack_bits(bits)).len() ==> spec_unpack_bits(
                spec_pack_bits(bits),
            )[i] == (i < bits.len() && bits[i]),
{
    let packed = spec_pack_bits(bits);
    let unpacked = spec_unpack_bits(packed);
    assert forall|i: int| 0 <= i < unpacked.len() implies unpacked[i] == (i < bits.len()
        && bits[i]) by {
        vstd::arithmetic::div_mod::lemma_fundamental_div_mod(i, 8);
        vstd::arithmetic::div_mod::lemma_mod_bound(i, 8);
        lemma_byte_bits_round(bits, 8 * (i / 8), i % 8);
    }
}

/// When the bit count is already a whole number of bytes, unpacking the
/// packing gives the bits back exactly.
pub proof fn lemma_unpack_pack_exact(bits: Seq<bool>)
    requires
        bits.len() % 8 == 0,
    ensures
        spec_unpack_bits(spec_pack_bits(bits)) == bits,
{
    lemma_unpack_pack(bits);
    vstd::arithmetic::div_mod::lemma_fundamental_div_mod(bits.len() as int, 8);
    vstd::arithmetic::div_mod::lemma_mod_bound((bits.len() + 7) as int, 8);
    vstd::arithmetic::div_mod::lemma_fundamental_div_mod_converse_div(
        (bits.len() + 7) as int,
        8,
        bits.len() as int / 8,
        7,
    );
    assert(spec_unpack_bits(spec_pack_bits(bits)) =~= bits);
}

impl Bitmap {
    /// Pack the bits into whole bytes, most significant bit first, padding
    /// the last byte with zero bits.
    #[verifier::rlimit(100)]
    pub fn to_bytes(&self) -> (r: Vec<u8>)
        ensures
            r@ == spec_pack_bits(self@),
    {
        let n = self.bits.len();
        let nbytes = n / 8 + if n % 8 == 0 {
            0
        } else {
            1
        };
        proof {
            vstd::arithmetic::div_mod::lemma_fundamental_div_mod(n as int, 8);
            vstd::arithmetic::div_mod::lemma_mod_bound(n as int, 8);
            vstd::arithmetic::div_mod::lemma_fundamental_div_mod((n + 7) as int, 8);
            vstd::arithmetic::div_mod::lemma_mod_bound((n + 7) as int, 8);
            vstd::arithmetic::div_mod::lemma_fundamental_div_mod_converse_div(
                (n + 7) as int,
                8,
                nbytes as int,
                (n + 7) - 8 * nbytes,
            );
        }
        let mut out: Vec<u8> = Vec::new();
        let mut k: usize = 0;
        while k < nbytes
            invariant
                k <= nbytes,
                n == self@.len(),
                nbytes == (n + 7) as int / 8,
                out@.len() == k,
                forall|t: int| 0 <= t < k ==> out@[t] == spec_byte_of_bits(self@, 8 * t),
            decreases nbytes - k,
        {
            let base = 8 * k;
            let c0: u8 = if base < n && self.bits[base] {
                1
            } else {
                0
            };
            let c1: u8 = if base + 1 < n && self.bits[base + 1] {
                1
            } else {
                0
            };
            let c2: u8 = if base + 2 < n && self.bits[base + 2] {
                1
            } else {
                0
            };
            let c3: u8 = if base + 3 < n && self.bits[base + 3] {
                1
            } else {
                0
            };
            let c4: u8 = if base + 4 < n && self.bits[base + 4] {
                1
            } else {
                0
            };
            let c5: u8 = if base + 5 < n && self.bits[base + 5] {
                1
            } else {
                0
            };
            let c6: u8 = if base + 6 < n && self.bits[base + 6] {
                1
            } else {
                0
            };
            let c7: u8 = if base + 7 < n && self.bits[base + 7] {
                1
            } else {
                0
            };
            let byte: u8 = c0 * 128 + c1 * 64 + c2 * 32 + c3 * 16 + c4 * 8 + c5 * 4 + c6 * 2 + c7;
            proof {
                assert(byte == spec_byte_of_bits(self@, 8 * k as int));
            }
            out.push(byte);
            k = k + 1;
        }
        proof {
            assert(out@ =~= spec_pack_bits(self@));
        }
        out
    }

    /// Read `8 * bytes.len()` bits out of a byte string, most significant
    /// bit of each byte first.
    pub fn from_bytes(bytes: &[u8]) -> (r: Self)
        ensures
            r@ == spec_unpack_bits(bytes@),
    {
        let mut bits: Vec<bool> = Vec::new();
        let mut k: usize = 0;
        while k < bytes.len()
            invariant
                k <= bytes@.len(),
                bits@.len() == 8 * k,
                forall|i: int|
                    0 <= i < 8 * k ==> bits@[i] == spec_bit_of_byte(bytes@[i / 8], i % 8),
            decreases bytes@.len() - k,
        {
            let b = bytes[k];
            bits.push(b / 128 % 2 == 1);
            bits.push(b / 64 % 2 == 1);
            bits.push(b / 32 % 2 == 1);
            bits.push(b / 16 % 2 == 1);
            bits.push(b / 8 % 2 == 1);
            bits.push(b / 4 % 2 == 1);
            bits.push(b / 2 % 2 == 1);
            bits.push(b % 2 == 1);
            proof {
                assert forall|i: int|
                    0 <= i < 8 * (k + 1) implies bits@[i] == spec_bit_of_byte(
                    bytes@[i / 8],
                    i % 8,
                ) by {
                    if 8 * k <= i {
                        vstd::arithmetic::div_mod::lemma_fundamental_div_mod_converse_div(
                            i,
                            8,
                            k as int,
                            i - 8 * k,
                        );
                        vstd::arithmetic::div_mod::lemma_fundamental_div_mod_converse_mod(
                            i,
                            8,
                            k as int,
                            i - 8 * k,
                        );
                    }
                }
            }
            k = k + 1;
        }
        proof {
            assert(bits@ =~= spec_unpack_bits(bytes@));
        }
        Bitmap { bits }
    }
}

/// Pointwise disjunction of two equal-length bitmaps.
pub fn union(bv1: &Bitmap, bv2: &Bitmap) -> (r: Bitmap)
    requires
        bv1@.len() == bv2@.len(),
    ensures
        r@.len() == bv1@.len(),
        forall|i: int| 0 <= i < r@.len() ==> r@[i] == (bv1@[i] || bv2@[i]),
{
    let mut bits: Vec<bool> = Vec::new();
    let mut i: usize = 0;
    let n = bv1.len();
    while i < n
        invariant
            i <= n,
            n == bv1@.len() == bv2@.len(),
            bits@.len() == i,
            forall|j: int| 0 <= j < i ==> bits@[j] == (bv1@[j] || bv2@[j]),
        decreases n - i,
    {
        bits.push(bv1.get(i) || bv2.get(i));
        i = i + 1;
    }
    Bitmap { bits }
}

/// Bits set in `bv1` and clear in `bv2`.
pub fn difference(bv1: &Bitmap, bv2: &Bitmap) -> (r: Bitmap)
    requires
        bv1@.len() == bv2@.len(),
    ensures
        r@.len() == bv1@.len(),
        forall|i: int| 0 <= i < r@.len() ==> r@[i] == (bv1@[i] && !bv2@[i]),
{
    let mut bits: Vec<bool> = Vec::new();
    let mut i: usize = 0;
    let n = bv1.len();
    while i < n
        invariant
            i <= n,
            n == bv1@.len() == bv2@.len(),
            bits@.len() == i,
            forall|j: int| 0 <= j < i ==> bits@[j] == (bv1@[j] && !bv2@[j]),
        decreases n - i,
    {
        bits.push(bv1.get(i) && !bv2.get(i));
        i = i + 1;
    }
    Bitmap { bits }
}

/// Pointwise conjunction of two equal-length bitmaps.
pub fn intersect(bv1: &Bitmap, bv2: &Bitmap) -> (r: Bitmap)
    requires
        bv1@.len() == bv2@.len(),
    ensures
        r@.len() == bv1@.len(),
        forall|i: int| 0 <= i < r@.len() ==> r@[i] == (bv1@[i] && bv2@[i]),
{
    let mut bits: Vec<bool> = Vec::new();
    let mut i: usize = 0;
    let n = bv1.len();
    while i < n
        invariant
            i <= n,
            n == bv1@.len() == bv2@.len(),
            bits@.len() == i,
            forall|j: int| 0 <= j < i ==> bits@[j] == (bv1@[j] && bv2@[j]),
        decreases n - i,
    {
        bits.push(bv1.get(i) && bv2.get(i));
        i = i + 1;
    }
    Bitmap { bits }
}

} // verus!
