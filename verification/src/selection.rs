//! Piece selection: given the client's required set and a peer's
//! availability, a selector returns an ordered list of piece indices to
//! request next.

use crate::bitset::Bitmap;
use vstd::prelude::*;

verus! {

/// What a selector sees: the pieces the client still needs and the pieces
/// the peer (or the swarm, for bookkeeping) offers.  Both bitmaps have one
/// bit per piece.
pub struct State {
    /// Pieces the client needs: not downloaded and not assigned to a peer.
    pub required: Bitmap,
    /// Pieces available for requesting.
    pub available: Bitmap,
}

impl Clone for State {
    fn clone(&self) -> (r: Self)
        ensures
            r.required@ == self.required@,
            r.available@ == self.available@,
    {
        State { required: self.required.clone(), available: self.available.clone() }
    }
}

/// A piece selection strategy.  Whatever the strategy, it returns at most
/// `n` distinct indices, each of them required.
pub trait Selector {
    fn request_pieces(&mut self, id: &str, state: State, n: u32) -> (r: Vec<u32>)
        requires
            state.required@.len() == state.available@.len(),
            state.required@.len() <= u32::MAX,
        ensures
            r@.len() <= n,
            forall|k: int|
                0 <= k < r@.len() ==> (r@[k] as int) < state.required@.len()
                    && state.required@[r@[k] as int],
            forall|k1: int, k2: int| 0 <= k1 < k2 < r@.len() ==> r@[k1] != r@[k2],
    ;
}

/// The strategies the store can be built with, as a tagged value.
pub enum SelectorKind {
    Inorder(crate::inorder::Inorder),
    Rare(crate::rare::Rare),
    Bitos(crate::bitos::Bitos),
}

impl SelectorKind {
    /// Dispatch to the chosen strategy.  The in-order strategy's result is
    /// exact, and the rarest-first strategy's length is; the mixed strategy
    /// splits its slots by coin flips.
    pub fn request_pieces(&mut self, id: &str, state: State, n: u32) -> (r: Vec<u32>)
        requires
            state.required@.len() == state.available@.len(),
            state.required@.len() <= u32::MAX,
        ensures
            r@.len() <= n,
            forall|k: int|
                0 <= k < r@.len() ==> (r@[k] as int) < state.required@.len()
                    && state.required@[r@[k] as int],
            forall|k1: int, k2: int| 0 <= k1 < k2 < r@.len() ==> r@[k1] != r@[k2],
            *old(self) is Inorder ==> *final(self) is Inorder && r@
                == crate::inorder::spec_take_set_bits(
                Seq::new(
                    state.required@.len(),
                    |j: int| state.required@[j] && state.available@[j],
                ),
                0,
                n as int,
            ),
            *old(self) is Rare ==> *final(self) is Rare && r@.len() == (if n as int
                <= crate::rare::spec_count_from(state.required@, 0) {
                n as int
            } else {
                crate::rare::spec_count_from(state.required@, 0)
            }),
            *old(self) is Bitos ==> *final(self) is Bitos,
    {
        match self {
            SelectorKind::Inorder(_) => crate::inorder::Inorder::pick(&state, n),
            SelectorKind::Rare(s) => s.select(id, state, n),
            SelectorKind::Bitos(s) => s.select(id, state, n),
        }
    }
}

} // verus!
