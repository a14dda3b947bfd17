//! Small byte-level text encoders used by the metainfo hasher and the
//! tracker request builder: decimal rendering of integers and percent
//! encoding of raw bytes.

use vstd::arithmetic::div_mod::{
    lemma_fundamental_div_mod, lemma_fundamental_div_mod_converse_mod, lemma_mod_bound,
};
use vstd::prelude::*;

verus! {

/// The usual decimal digit string of `n`, most significant digit first,
/// with no sign and no leading zeros (`0` itself is the single digit `0`).
pub open spec fn spec_decimal(n: nat) -> Seq<u8>
    decreases n,
{
    if n < 10 {
        seq![(48 + n) as u8]
    } else {
        spec_decimal(n / 10).push((48 + n % 10) as u8)
    }
}

/// Render `n` in decimal ASCII.
pub fn u64_to_decimal(n: u64) -> (r: Vec<u8>)
    ensures
        r@ == spec_decimal(n as nat),
{
    if n < 10 {
        let mut out: Vec<u8> = Vec::new();
        out.push(48 + n as u8);
        proof {
            assert(out@ =~= spec_decimal(n as nat));
        }
        return out;
    }
    let mut out: Vec<u8> = Vec::new();
    let mut m: u64 = n;
    while m > 0
        invariant
            if m > 0 {
                spec_decimal(n as nat) == spec_decimal(m as nat) + out@
            } else {
                spec_decimal(n as nat) == out@
            },
        decreases m,
    {
        let d: u8 = (m % 10) as u8;
        let ghost pre = out@;
        out.insert(0, 48 + d);
        proof {
            if m >= 10 {
                assert(spec_decimal(m as nat) == spec_decimal((m / 10) as nat).push(
                    (48 + m % 10) as u8,
                ));
                assert(spec_decimal(m as nat) + pre =~= spec_decimal((m / 10) as nat) + out@);
            } else {
                assert(spec_decimal(m as nat) =~= seq![(48 + m % 10) as u8]);
                assert(spec_decimal(m as nat) + pre =~= out@);
            }
        }
        m = m / 10;
    }
    out
}

/// The four bytes of `n`, big endian.
pub open spec fn spec_u32_be(n: u32) -> Seq<u8> {
    seq![
        (n / 0x1000000) as u8,
        (n % 0x1000000 / 0x10000) as u8,
        (n % 0x10000 / 256) as u8,
        (n % 256) as u8,
    ]
}

/// The value of four big-endian bytes.
pub open spec fn spec_u32_from_4(b0: u8, b1: u8, b2: u8, b3: u8) -> u32 {
    (b0 * 0x1000000 + b1 * 0x10000 + b2 * 256 + b3) as u32
}

/// The two bytes of `p`, big endian.
pub open spec fn spec_u16_be(p: u16) -> Seq<u8> {
    seq![(p / 256) as u8, (p % 256) as u8]
}

/// The value of two big-endian bytes.
pub open spec fn spec_u16_from_2(b0: u8, b1: u8) -> u16 {
    (b0 * 256 + b1) as u16
}

/// Reading back the four big-endian bytes of `n` yields `n`.
pub proof fn lemma_u32_be_round(n: u32)
    ensures
        spec_u32_from_4(
            spec_u32_be(n)[0],
            spec_u32_be(n)[1],
            spec_u32_be(n)[2],
            spec_u32_be(n)[3],
        ) == n,
{
    lemma_fundamental_div_mod(n as int, 0x1000000);
    lemma_mod_bound(n as int, 0x1000000);
    lemma_fundamental_div_mod((n as int) % 0x1000000, 0x10000);
    lemma_mod_bound((n as int) % 0x1000000, 0x10000);
    lemma_fundamental_div_mod((n as int) % 0x10000, 256);
    lemma_mod_bound((n as int) % 0x10000, 256);
    lemma_mod_mod_smaller(n as int);
}

/// `n % 0x1000000 % 0x10000 == n % 0x10000` and
/// `n % 0x10000 % 256 == n % 256` for the widths used here.
proof fn lemma_mod_mod_smaller(n: int)
    requires
        n >= 0,
    ensures
        n % 0x1000000 % 0x10000 == n % 0x10000,
        n % 0x10000 % 256 == n % 256,
{
    lemma_fundamental_div_mod(n, 0x1000000);
    lemma_mod_bound(n, 0x1000000);
    lemma_fundamental_div_mod(n % 0x1000000, 0x10000);
    lemma_mod_bound(n % 0x1000000, 0x10000);
    lemma_fundamental_div_mod_converse_mod(
        n,
        0x10000,
        n / 0x1000000 * 256 + n % 0x1000000 / 0x10000,
        n % 0x1000000 % 0x10000,
    );
    lemma_fundamental_div_mod(n % 0x10000, 256);
    lemma_mod_bound(n % 0x10000, 256);
    lemma_fundamental_div_mod_converse_mod(
        n,
        256,
        n / 0x10000 * 256 + n % 0x10000 / 256,
        n % 0x10000 % 256,
    );
}

/// Reading back the two big-endian bytes of `p` yields `p`.
pub proof fn lemma_u16_be_round(p: u16)
    ensures
        spec_u16_from_2(spec_u16_be(p)[0], spec_u16_be(p)[1]) == p,
{
    lemma_fundamental_div_mod(p as int, 256);
    lemma_mod_bound(p as int, 256);
}

/// Append the four big-endian bytes of `n`.
pub fn u32_to_be(n: u32, out: &mut Vec<u8>)
    ensures
        final(out)@ == old(out)@ + spec_u32_be(n),
{
    proof {
        lemma_fundamental_div_mod(n as int, 0x1000000);
        lemma_mod_bound(n as int, 0x1000000);
        lemma_fundamental_div_mod((n as int) % 0x1000000, 0x10000);
        lemma_mod_bound((n as int) % 0x1000000, 0x10000);
        lemma_fundamental_div_mod((n as int) % 0x10000, 256);
        lemma_mod_bound((n as int) % 0x10000, 256);
    }
    out.push((n / 0x1000000) as u8);
    out.push((n % 0x1000000 / 0x10000) as u8);
    out.push((n % 0x10000 / 256) as u8);
    out.push((n % 256) as u8);
    proof {
        assert(final(out)@ =~= old(out)@ + spec_u32_be(n));
    }
}

/// The value of four big-endian bytes.
pub fn u32_from_4(b0: u8, b1: u8, b2: u8, b3: u8) -> (r: u32)
    ensures
        r == spec_u32_from_4(b0, b1, b2, b3),
{
    b0 as u32 * 0x1000000 + b1 as u32 * 0x10000 + b2 as u32 * 256 + b3 as u32
}

/// Append the two big-endian bytes of `p`.
pub fn u16_to_be(p: u16, out: &mut Vec<u8>)
    ensures
        final(out)@ == old(out)@ + spec_u16_be(p),
{
    proof {
        lemma_fundamental_div_mod(p as int, 256);
        lemma_mod_bound(p as int, 256);
    }
    out.push((p / 256) as u8);
    out.push((p % 256) as u8);
    proof {
        assert(final(out)@ =~= old(out)@ + spec_u16_be(p));
    }
}

/// The value of two big-endian bytes.
pub fn u16_from_2(b0: u8, b1: u8) -> (r: u16)
    ensures
        r == spec_u16_from_2(b0, b1),
{
    b0 as u16 * 256 + b1 as u16
}

/// Append every byte of `s` to `out`.
pub fn append_bytes(out: &mut Vec<u8>, s: &[u8])
    ensures
        final(out)@ == old(out)@ + s@,
{
    let mut i: usize = 0;
    while i < s.len()
        invariant
            i <= s@.len(),
            out@ == old(out)@ + s@.take(i as int),
        decreases s@.len() - i,
    {
        out.push(s[i]);
        proof {
            assert(old(out)@ + s@.take(i + 1) =~= (old(out)@ + s@.take(i as int)).push(
                s@[i as int],
            ));
        }
        i = i + 1;
    }
    proof {
        assert(s@.take(s@.len() as int) =~= s@);
    }
}

/// Whether two byte strings hold the same bytes.
pub fn bytes_eq(a: &[u8], b: &[u8]) -> (r: bool)
    ensures
        r == (a@ == b@),
{
    if a.len() != b.len() {
        return false;
    }
    let mut i: usize = 0;
    while i < a.len()
        invariant
            i <= a@.len(),
            a@.len() == b@.len(),
            forall|j: int| 0 <= j < i ==> a@[j] == b@[j],
        decreases a@.len() - i,
    {
        if a[i] != b[i] {
            return false;
        }
        i = i + 1;
    }
    proof {
        assert(a@ =~= b@);
    }
    true
}

/// A fresh copy of a byte slice.
pub fn clone_bytes(s: &[u8]) -> (r: Vec<u8>)
    ensures
        r@ == s@,
{
    let mut out: Vec<u8> = Vec::new();
    append_bytes(&mut out, s);
    out
}

/// Bytes that percent encoding leaves as they are: ASCII letters, digits,
/// and the marks `-`, `.`, `_`, `~`.
pub open spec fn is_unreserved(b: u8) -> bool {
    (48 <= b <= 57) || (65 <= b <= 90) || (97 <= b <= 122) || b == 45 || b == 46 || b == 95 || b
        == 126
}

/// The ASCII code of the hexadecimal digit for `n < 16`, upper case.
pub open spec fn spec_hex_digit(n: u8) -> u8 {
    if n < 10 {
        (48 + n) as u8
    } else {
        (55 + n) as u8
    }
}

/// How one byte is percent encoded: kept when unreserved, else `%XX`.
pub open spec fn spec_percent_byte(b: u8) -> Seq<u8> {
    if is_unreserved(b) {
        seq![b]
    } else {
        seq![37u8, spec_hex_digit(b / 16), spec_hex_digit(b % 16)]
    }
}

/// Percent encoding of a whole byte string.
pub open spec fn spec_percent_encode(s: Seq<u8>) -> Seq<u8>
    decreases s.len(),
{
    if s.len() == 0 {
        Seq::empty()
    } else {
        spec_percent_byte(s[0]) + spec_percent_encode(s.drop_first())
    }
}

proof fn lemma_percent_encode_push(s: Seq<u8>, b: u8)
    ensures
        spec_percent_encode(s.push(b)) == spec_percent_encode(s) + spec_percent_byte(b),
    decreases s.len(),
{
    if s.len() == 0 {
        assert(s.push(b).drop_first() =~= Seq::<u8>::empty());
        assert(s.push(b)[0] == b);
        assert(spec_percent_encode(s.push(b)) == spec_percent_byte(b) + spec_percent_encode(
            Seq::<u8>::empty(),
        ));
        assert(spec_percent_encode(Seq::<u8>::empty()) == Seq::<u8>::empty());
        assert(spec_percent_encode(s) == Seq::<u8>::empty());
        assert(spec_percent_encode(s.push(b)) =~= spec_percent_encode(s) + spec_percent_byte(b));
    } else {
        assert(s.push(b).drop_first() =~= s.drop_first().push(b));
        lemma_percent_encode_push(s.drop_first(), b);
        assert(spec_percent_encode(s.push(b)) =~= spec_percent_encode(s) + spec_percent_byte(b));
    }
}

fn hex_digit(n: u8) -> (r: u8)
    requires
        n < 16,
    ensures
        r == spec_hex_digit(n),
{
    if n < 10 {
        48 + n
    } else {
        55 + n
    }
}

/// Percent encode `s`: unreserved bytes are kept, every other byte becomes
/// `%` followed by its two upper-case hexadecimal digits.
pub fn percent_encode(s: &[u8]) -> (r: Vec<u8>)
    ensures
        r@ == spec_percent_encode(s@),
{
    let mut out: Vec<u8> = Vec::new();
    let mut i: usize = 0;
    while i < s.len()
        invariant
            i <= s@.len(),
            out@ == spec_percent_encode(s@.take(i as int)),
        decreases s@.len() - i,
    {
        let b = s[i];
        if (48 <= b && b <= 57) || (65 <= b && b <= 90) || (97 <= b && b <= 122) || b == 45 || b
            == 46 || b == 95 || b == 126 {
            out.push(b);
        } else {
            out.push(37);
            out.push(hex_digit(b / 16));
            out.push(hex_digit(b % 16));
        }
        proof {
            lemma_percent_encode_push(s@.take(i as int), s@[i as int]);
            assert(s@.take(i as int).push(s@[i as int]) =~= s@.take(i + 1));
            assert(out@ =~= spec_percent_encode(s@.take(i + 1)));
        }
        i = i + 1;
    }
    proof {
        assert(s@.take(s@.len() as int) =~= s@);
    }
    out
}

} // verus!
