//! The mixed selector: each of the `n` slots is assigned by a biased coin
//! either to the in-order strategy or to the rarest-first strategy.  Pieces
//! taken by the in-order half are removed from the required set handed to
//! the rarest half, so the two halves never pick the same piece.

use crate::inorder::Inorder;
use crate::rare::Rare;
use crate::rng::random_below;
use crate::selection::{Selector, State};
use vstd::prelude::*;

verus! {

/// The strategy mixing in-order and rarest-first picks.
pub struct Bitos {
    pub inorder: Inorder,
    pub rare: Rare,
    /// Chance, in percent, that a slot is picked in order.
    pub inorder_percent: u32,
}

impl Default for Bitos {
    fn default() -> (r: Self)
        ensures
            r.inorder_percent == 80,
    {
        Bitos { inorder: Inorder {  }, rare: Rare::default(), inorder_percent: 80 }
    }
}

impl Bitos {
    /// Split the `n` slots by coin flips, fill the in-order share first,
    /// and hand the rarest-first share what remains required.
    pub fn select(&mut self, id: &str, state: State, n: u32) -> (r: Vec<u32>)
        requires
            state.required@.len() == state.available@.len(),
            state.required@.len() <= u32::MAX,
        ensures
            r@.len() <= n,
            forall|k: int|
                0 <= k < r@.len() ==> (r@[k] as int) < state.required@.len()
                    && state.required@[r@[k] as int],
            forall|k1: int, k2: int| 0 <= k1 < k2 < r@.len() ==> r@[k1] != r@[k2],
            // The composition: an in-order prefix over some coin-decided
            // share of the slots, then rarest-first picks over what the
            // prefix left required.
            exists|slots: int|
                #![trigger crate::inorder::spec_inorder_picks(state.required@, state.available@, slots)]
                {
                    let picks = crate::inorder::spec_inorder_picks(
                        state.required@,
                        state.available@,
                        slots,
                    );
                    &&& 0 <= slots <= n
                    &&& picks.len() <= r@.len()
                    &&& r@.subrange(0, picks.len() as int) == picks
                    &&& (forall|t: int|
                        picks.len() <= t < r@.len() ==> !picks.contains(#[trigger] r@[t]))
                },
    {
        let mut num_inorder: u32 = 0;
        let mut c: u32 = 0;
        while c < n
            invariant
                num_inorder <= c <= n,
            decreases n - c,
        {
            if random_below(100) < self.inorder_percent as usize {
                num_inorder = num_inorder + 1;
            }
            c = c + 1;
        }
        let num_rare = n - num_inorder;

        let state_c = state.clone();
        let mut v = Inorder::pick(&state, num_inorder);
        let ghost picks = crate::inorder::spec_inorder_picks(
            state.required@,
            state.available@,
            num_inorder as int,
        );
        proof {
            assert(v@ == picks);
        }

        let mut required = state_c.required;
        let available = state_c.available;
        let mut k: usize = 0;
        while k < v.len()
            invariant
                k <= v@.len(),
                v@.len() <= num_inorder,
                required@.len() == state.required@.len(),
                forall|j: int| 0 <= j < required@.len() ==> (required@[j] ==> state.required@[j]),
                forall|kk: int|
                    0 <= kk < v@.len() ==> (v@[kk] as int) < state.required@.len()
                        && state.required@[v@[kk] as int],
                forall|kk: int| 0 <= kk < k ==> !required@[v@[kk] as int],
                forall|k1: int, k2: int| 0 <= k1 < k2 < v@.len() ==> v@[k1] != v@[k2],
            decreases v@.len() - k,
        {
            let x = v[k];
            required.set(x as usize, false);
            k = k + 1;
        }

        let mut v2 = self.rare.request_pieces(id, State { required, available }, num_rare);
        let ghost vv = v@;
        let ghost v2v = v2@;
        let ghost req2 = required@;
        v.append(&mut v2);
        proof {
            assert forall|k1: int, k2: int|
                0 <= k1 < k2 < v@.len() implies v@[k1] != v@[k2] by {
                if k1 < vv.len() && k2 >= vv.len() {
                    assert(!req2[vv[k1] as int]);
                    assert(req2[v2v[k2 - vv.len()] as int]);
                }
            }
            assert(v@.subrange(0, picks.len() as int) =~= picks);
            assert forall|t: int|
                picks.len() <= t < v@.len() implies !picks.contains(#[trigger] v@[t]) by {
                if picks.contains(v@[t]) {
                    let u = choose|u: int| 0 <= u < picks.len() && picks[u] == v@[t];
                    assert(vv[u] == v@[t]);
                    assert(!req2[vv[u] as int]);
                    assert(req2[v2v[t - vv.len()] as int]);
                }
            }
        }
        v
    }
}

impl Selector for Bitos {
    fn request_pieces(&mut self, id: &str, state: State, n: u32) -> (r: Vec<u32>) {
        self.select(id, state, n)
    }
}

} // verus!
