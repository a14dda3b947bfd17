//! The client's own peer identifier: the fixed client prefix followed by
//! twelve random digit characters.

use crate::rng::random_below;
use vstd::prelude::*;

verus! {

/// The fixed prefix of every identifier this client generates: `-CN0010-`.
pub open spec fn spec_id_prefix() -> Seq<u8> {
    seq![45u8, 67, 78, 48, 48, 49, 48, 45]
}

/// A fresh 20-byte peer identifier: the client prefix, then twelve
/// uniformly drawn digit characters, each between `1` and `8`.
pub fn make_id() -> (r: Vec<u8>)
    ensures
        r@.len() == 20,
        r@.subrange(0, 8) == spec_id_prefix(),
        forall|k: int| 8 <= k < 20 ==> 49 <= #[trigger] r@[k] <= 56,
{
    let mut out: Vec<u8> = Vec::new();
    crate::encoding::append_bytes(&mut out, &[45u8, 67, 78, 48, 48, 49, 48, 45]);
    let mut k: usize = 0;
    while k < 12
        invariant
            k <= 12,
            out@.len() == 8 + k,
            out@.subrange(0, 8) =~= spec_id_prefix(),
            forall|t: int| 8 <= t < out@.len() ==> 49 <= #[trigger] out@[t] <= 56,
        decreases 12 - k,
    {
        let d = random_below(8) as u8;
        out.push(49 + d);
        proof {
            assert(out@.subrange(0, 8) =~= spec_id_prefix());
        }
        k = k + 1;
    }
    out
}

} // verus!
