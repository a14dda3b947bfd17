//! The in-order selector: request the lowest-numbered pieces that are both
//! required and available.

use crate::bitset::{intersect, Bitmap};
use crate::selection::{Selector, State};
use vstd::prelude::*;

verus! {

/// The indices of the first `n` set bits of `bits`, at or after `i`, in
/// ascending order.
pub open spec fn spec_take_set_bits(bits: Seq<bool>, i: int, n: int) -> Seq<u32>
    decreases bits.len() - i,
{
    if i < 0 || i >= bits.len() || n <= 0 {
        Seq::empty()
    } else if bits[i] {
        seq![i as u32] + spec_take_set_bits(bits, i + 1, n - 1)
    } else {
        spec_take_set_bits(bits, i + 1, n)
    }
}

/// The selection is empty exactly when no slots were asked for or no bit
/// at or after `i` is set.
pub proof fn lemma_take_set_bits_empty(bits: Seq<bool>, i: int, n: int)
    requires
        0 <= i,
    ensures
        (spec_take_set_bits(bits, i, n).len() == 0) <==> (n <= 0 || forall|j: int|
            i <= j < bits.len() ==> !bits[j]),
    decreases bits.len() - i,
{
    if i < bits.len() && n > 0 {
        lemma_take_set_bits_empty(bits, i + 1, n - 1);
        lemma_take_set_bits_empty(bits, i + 1, n);
    }
}

/// The in-order rule itself: the first `slots` indices that are both
/// required and available, ascending.
pub open spec fn spec_inorder_picks(required: Seq<bool>, available: Seq<bool>, slots: int) -> Seq<
    u32,
> {
    spec_take_set_bits(Seq::new(required.len(), |j: int| required[j] && available[j]), 0, slots)
}

/// The strategy that walks the payload front to back.
pub struct Inorder {}

impl Default for Inorder {
    fn default() -> (r: Self)
        ensures
            true,
    {
        Inorder {  }
    }
}

impl Inorder {
    /// The first `n` indices that are both required and available, in
    /// ascending order — exactly `spec_take_set_bits` over the
    /// intersection.
    pub fn pick(state: &State, n: u32) -> (r: Vec<u32>)
        requires
            state.required@.len() == state.available@.len(),
            state.required@.len() <= u32::MAX,
        ensures
            r@ == spec_take_set_bits(
                Seq::new(state.required@.len(), |j: int| state.required@[j] && state.available@[j]),
                0,
                n as int,
            ),
            r@.len() <= n,
            forall|k: int|
                0 <= k < r@.len() ==> (r@[k] as int) < state.required@.len()
                    && state.required@[r@[k] as int] && state.available@[r@[k] as int],
            forall|k1: int, k2: int| 0 <= k1 < k2 < r@.len() ==> r@[k1] < r@[k2],
    {
        let inter = intersect(&state.available, &state.required);
        let ghost ibits = Seq::new(
            state.required@.len(),
            |j: int| state.required@[j] && state.available@[j],
        );
        proof {
            assert(inter@ =~= ibits);
        }
        let len = inter.len();
        let mut r: Vec<u32> = Vec::new();
        let mut i: usize = 0;
        while i < len && r.len() < n as usize
            invariant
                i <= len,
                len == ibits.len(),
                inter@ == ibits,
                len <= u32::MAX,
                r@.len() <= n,
                spec_take_set_bits(ibits, 0, n as int) == r@ + spec_take_set_bits(
                    ibits,
                    i as int,
                    n - r@.len(),
                ),
                forall|k: int|
                    0 <= k < r@.len() ==> (r@[k] as int) < i && ibits[r@[k] as int],
                forall|k1: int, k2: int| 0 <= k1 < k2 < r@.len() ==> r@[k1] < r@[k2],
            decreases len - i,
        {
            let ghost pre = r@;
            if inter.get(i) {
                r.push(i as u32);
                proof {
                    assert(spec_take_set_bits(ibits, i as int, n - pre.len()) == seq![i as u32]
                        + spec_take_set_bits(ibits, i + 1, n - pre.len() - 1));
                    assert(pre + spec_take_set_bits(ibits, i as int, n - pre.len()) =~= r@
                        + spec_take_set_bits(ibits, i + 1, n - r@.len()));
                }
            }
            i = i + 1;
        }
        proof {
            assert(spec_take_set_bits(ibits, i as int, n - r@.len()) =~= Seq::<u32>::empty());
            assert(r@ + Seq::<u32>::empty() =~= r@);
        }
        r
    }
}

impl Selector for Inorder {
    fn request_pieces(&mut self, id: &str, state: State, n: u32) -> (r: Vec<u32>) {
        Inorder::pick(&state, n)
    }
}

} // verus!
