//! The rarest-first selector.  It keeps, per peer, the availability last
//! seen, and a global rarity count per piece (how many peers are known to
//! hold it).  Each call folds the peer's newly seen pieces into the counts,
//! then picks required pieces in order of ascending rarity; pieces tied at
//! the rarity boundary are shuffled so that concurrent peers do not all
//! rush the same piece.

use crate::bitset::{difference, Bitmap};
use crate::rng::shuffle_u32;
use crate::selection::{Selector, State};
use vstd::prelude::*;
use vstd::string::StringExecFns;

verus! {

/// The rarity key of piece `x`: its count, or zero where no count is known.
pub open spec fn spec_rarity_key(rarity: Seq<usize>, x: u32) -> usize {
    if (x as int) < rarity.len() {
        rarity[x as int]
    } else {
        0
    }
}

/// How many bits are set at or after `i`.
pub open spec fn spec_count_from(bits: Seq<bool>, i: int) -> int
    decreases bits.len() - i,
{
    if i < 0 || i >= bits.len() {
        0
    } else {
        (if bits[i] {
            1int
        } else {
            0
        }) + spec_count_from(bits, i + 1)
    }
}

/// The count is zero exactly when no bit at or after `i` is set, and it is
/// never negative.
pub proof fn lemma_count_from_zero(bits: Seq<bool>, i: int)
    requires
        0 <= i,
    ensures
        spec_count_from(bits, i) >= 0,
        (spec_count_from(bits, i) == 0) <==> (forall|j: int| i <= j < bits.len() ==> !bits[j]),
    decreases bits.len() - i,
{
    if i < bits.len() {
        lemma_count_from_zero(bits, i + 1);
    }
}

/// Rarity counts after one availability snapshot: a count per bit of the
/// snapshot where none existed yet, and a saturating increment wherever the
/// snapshot has a set bit.
pub open spec fn spec_bump(base: Seq<usize>, bv: Seq<bool>) -> Seq<usize> {
    Seq::new(
        base.len(),
        |i: int|
            if i < bv.len() && bv[i] && base[i] < usize::MAX {
                (base[i] + 1) as usize
            } else {
                base[i]
            },
    )
}

/// Every element of `r` names a set bit of `req`.
pub open spec fn spec_all_required(r: Seq<u32>, req: Seq<bool>) -> bool {
    forall|k: int| 0 <= k < r.len() ==> (r[k] as int) < req.len() && req[r[k] as int]
}

/// The strategy that requests the rarest pieces first.
pub struct Rare {
    history: Vec<(String, Bitmap)>,
    rarity: Vec<usize>,
}

impl Rare {
    /// The current rarity counts.
    pub closed spec fn spec_rarity(&self) -> Seq<usize> {
        self.rarity@
    }

    /// The recorded snapshots: one peer id with the availability last seen
    /// from it, per entry.
    pub closed spec fn spec_history(&self) -> Seq<(Seq<char>, Seq<bool>)> {
        Seq::new(self.history@.len(), |k: int| (self.history@[k].0@, self.history@[k].1@))
    }

    /// How many peers have a recorded availability snapshot.
    pub closed spec fn spec_history_len(&self) -> nat {
        self.history@.len()
    }
}

/// Whether some history entry records the peer `id`.
pub open spec fn spec_hist_has(h: Seq<(Seq<char>, Seq<bool>)>, id: Seq<char>) -> bool {
    exists|k: int| 0 <= k < h.len() && (#[trigger] h[k]).0 == id
}

/// The newly seen pieces against a prior snapshot: what is available now
/// and was not then.  A snapshot of another length is discarded and the
/// whole availability counts as new.
pub open spec fn spec_newly_seen(prior: Seq<bool>, available: Seq<bool>) -> Seq<bool> {
    if prior.len() == available.len() {
        Seq::new(available.len(), |i: int| available[i] && !prior[i])
    } else {
        available
    }
}

/// The rarity counts a call folds the snapshot into: the old counts, or
/// fresh zeros when none exist yet.
pub open spec fn spec_rarity_base(rarity: Seq<usize>, bv: Seq<bool>) -> Seq<usize> {
    if rarity.len() == 0 {
        Seq::new(bv.len(), |i: int| 0usize)
    } else {
        rarity
    }
}

impl Default for Rare {
    fn default() -> (r: Self)
        ensures
            r.spec_history_len() == 0,
            r.spec_rarity().len() == 0,
    {
        Rare { history: Vec::new(), rarity: Vec::new() }
    }
}

/// The rarity key of `x` under the current counts.
fn rkey(rarity: &Vec<usize>, x: u32) -> (r: usize)
    ensures
        r == spec_rarity_key(rarity@, x),
{
    if (x as usize) < rarity.len() {
        rarity[x as usize]
    } else {
        0
    }
}

/// The indices of all set bits of `req`, ascending.
fn required_indices(req: &Bitmap) -> (v: Vec<u32>)
    requires
        req@.len() <= u32::MAX,
    ensures
        v@.len() == spec_count_from(req@, 0),
        spec_all_required(v@, req@),
        forall|k1: int, k2: int| 0 <= k1 < k2 < v@.len() ==> v@[k1] < v@[k2],
        forall|i: int| 0 <= i < req@.len() && req@[i] ==> v@.contains(i as u32),
{
    let len = req.len();
    let mut v: Vec<u32> = Vec::new();
    let mut i: usize = 0;
    while i < len
        invariant
            i <= len,
            len == req@.len() <= u32::MAX,
            v@.len() + spec_count_from(req@, i as int) == spec_count_from(req@, 0),
            spec_all_required(v@, req@),
            forall|k: int| 0 <= k < v@.len() ==> (v@[k] as int) < i,
            forall|k1: int, k2: int| 0 <= k1 < k2 < v@.len() ==> v@[k1] < v@[k2],
            forall|j: int| 0 <= j < i && req@[j] ==> v@.contains(j as u32),
        decreases len - i,
    {
        let ghost pre = v@;
        if req.get(i) {
            v.push(i as u32);
            proof {
                assert(v@[v@.len() - 1] == i as u32);
                assert(v@.contains(i as u32));
            }
        }
        proof {
            assert forall|j: int| 0 <= j < i + 1 && req@[j] implies v@.contains(j as u32) by {
                if j < i {
                    let t = choose|t: int| 0 <= t < pre.len() && pre[t] == j as u32;
                    assert(v@[t] == j as u32);
                }
            }
        }
        i = i + 1;
    }
    v
}

/// Stable reordering of `v` so that rarity keys ascend: same elements (as a
/// multiset), sorted by key.
fn sort_by_rarity(v: Vec<u32>, rarity: &Vec<usize>) -> (out: Vec<u32>)
    ensures
        out@.len() == v@.len(),
        out@.to_multiset() == v@.to_multiset(),
        forall|a: int, b: int|
            0 <= a < b < out@.len() ==> spec_rarity_key(rarity@, out@[a]) <= spec_rarity_key(
                rarity@,
                out@[b],
            ),
{
    broadcast use vstd::seq_lib::group_to_multiset_ensures;
    broadcast use vstd::multiset::group_multiset_axioms;

    let mut rest = v;
    let mut out: Vec<u32> = Vec::new();
    while rest.len() > 0
        invariant
            out@.len() + rest@.len() == v@.len(),
            out@.to_multiset().add(rest@.to_multiset()) == v@.to_multiset(),
            forall|a: int, b: int|
                0 <= a < b < out@.len() ==> spec_rarity_key(rarity@, out@[a]) <= spec_rarity_key(
                    rarity@,
                    out@[b],
                ),
            forall|a: int, t: int|
                0 <= a < out@.len() && 0 <= t < rest@.len() ==> spec_rarity_key(rarity@, out@[a])
                    <= spec_rarity_key(rarity@, rest@[t]),
        decreases rest@.len(),
    {
        let mut mi: usize = 0;
        let mut t: usize = 1;
        while t < rest.len()
            invariant
                mi < t <= rest@.len() || (t <= rest@.len() && mi == 0),
                mi < rest@.len(),
                forall|u: int|
                    0 <= u < t ==> spec_rarity_key(rarity@, rest@[mi as int]) <= spec_rarity_key(
                        rarity@,
                        rest@[u],
                    ),
            decreases rest@.len() - t,
        {
            if rkey(rarity, rest[t]) < rkey(rarity, rest[mi]) {
                mi = t;
            }
            t = t + 1;
        }
        let ghost rest_pre = rest@;
        let ghost out_pre = out@;
        let x = rest.remove(mi);
        out.push(x);
        proof {
            rest_pre.to_multiset_ensures();
            out_pre.to_multiset_ensures();
            assert(rest_pre[mi as int] == x);
            assert(rest_pre.contains(x));
            assert(rest_pre.to_multiset().contains(x));
            assert(rest@ == rest_pre.remove(mi as int));
            assert(rest@.to_multiset() =~= rest_pre.to_multiset().remove(x));
            assert(out@.to_multiset() =~= out_pre.to_multiset().insert(x));
            assert(out@.to_multiset().add(rest@.to_multiset()) =~= v@.to_multiset());
        }
    }
    proof {
        assert(out@.to_multiset().add(rest@.to_multiset()) =~= out@.to_multiset());
    }
    out
}

impl Rare {
    /// Fold one availability snapshot into the rarity counts.
    fn update_rarity(&mut self, bv: &Bitmap)
        ensures
            final(self).history == old(self).history,
            final(self).rarity@ == spec_bump(
                if old(self).rarity@.len() == 0 {
                    Seq::new(bv@.len(), |i: int| 0usize)
                } else {
                    old(self).rarity@
                },
                bv@,
            ),
    {
        if self.rarity.len() == 0 {
            let mut zeros: Vec<usize> = Vec::new();
            let mut i: usize = 0;
            let len = bv.len();
            while i < len
                invariant
                    i <= len,
                    zeros@ == Seq::new(i as nat, |j: int| 0usize),
                decreases len - i,
            {
                zeros.push(0);
                proof {
                    assert(zeros@ =~= Seq::new((i + 1) as nat, |j: int| 0usize));
                }
                i = i + 1;
            }
            self.rarity = zeros;
        }
        let ghost base = self.rarity@;
        let rlen = self.rarity.len();
        let mut i: usize = 0;
        while i < rlen
            invariant
                i <= rlen,
                rlen == self.rarity@.len() == base.len(),
                self.history == old(self).history,
                forall|j: int| i <= j < rlen ==> self.rarity@[j] == base[j],
                forall|j: int| 0 <= j < i ==> self.rarity@[j] == spec_bump(base, bv@)[j],
            decreases rlen - i,
        {
            if i < bv.len() && bv.get(i) && self.rarity[i] < usize::MAX {
                let c = self.rarity[i];
                self.rarity.set(i, c + 1);
            }
            i = i + 1;
        }
        proof {
            assert(self.rarity@ =~= spec_bump(base, bv@));
        }
    }

    /// Update the peer's history and the rarity counts, then pick required
    /// pieces by ascending rarity: all pieces strictly rarer than the
    /// boundary rarity in order, and a uniformly shuffled selection of the
    /// pieces tied at the boundary to fill the remaining slots.
    #[verifier::rlimit(100)]
    pub fn select(&mut self, id: &str, state: State, n: u32) -> (r: Vec<u32>)
        requires
            state.required@.len() <= u32::MAX,
        ensures
            r@.len() == (if n as int <= spec_count_from(state.required@, 0) {
                n as int
            } else {
                spec_count_from(state.required@, 0)
            }),
            spec_all_required(r@, state.required@),
            forall|k1: int, k2: int| 0 <= k1 < k2 < r@.len() ==> r@[k1] != r@[k2],
            // A first snapshot from this peer is recorded whole and counted
            // whole; a later one replaces the recorded one and counts only
            // the newly seen pieces.
            !spec_hist_has(old(self).spec_history(), id@) ==> final(self).spec_history() == old(
                self,
            ).spec_history().push((id@, state.available@)) && final(self).spec_rarity()
                == spec_bump(
                spec_rarity_base(old(self).spec_rarity(), state.available@),
                state.available@,
            ),
            spec_hist_has(old(self).spec_history(), id@) ==> exists|k: int|
                {
                    let seen = spec_newly_seen(
                        (#[trigger] old(self).spec_history()[k]).1,
                        state.available@,
                    );
                    &&& 0 <= k < old(self).spec_history().len()
                    &&& old(self).spec_history()[k].0 == id@
                    &&& final(self).spec_history() == old(self).spec_history().update(
                        k,
                        (id@, state.available@),
                    )
                    &&& final(self).spec_rarity() == spec_bump(
                        spec_rarity_base(old(self).spec_rarity(), seen),
                        seen,
                    )
                },
            // Rarest first: the selection ascends in rarity, and no
            // selected piece is more common than a required piece left out.
            forall|a: int, b: int|
                0 <= a < b < r@.len() ==> spec_rarity_key(final(self).spec_rarity(), r@[a])
                    <= spec_rarity_key(final(self).spec_rarity(), r@[b]),
            forall|k: int, i: int|
                0 <= k < r@.len() && 0 <= i < state.required@.len() && state.required@[i]
                    && !r@.contains(i as u32) ==> spec_rarity_key(
                    final(self).spec_rarity(),
                    r@[k],
                ) <= spec_rarity_key(final(self).spec_rarity(), i as u32),
    {
        broadcast use vstd::seq_lib::group_to_multiset_ensures;

        let ids = <String as StringExecFns>::from_str(id);
        let mut found: usize = 0;
        let mut has_found: bool = false;
        let hlen = self.history.len();
        let mut k: usize = 0;
        while k < hlen
            invariant
                k <= hlen,
                ids@ == id@,
                hlen == self.history@.len(),
                self.history@ == old(self).history@,
                self.rarity@ == old(self).rarity@,
                has_found ==> found < hlen && self.history@[found as int].0@ == id@,
                !has_found ==> forall|j: int| 0 <= j < k ==> self.history@[j].0@ != id@,
            decreases hlen - k,
        {
            if self.history[k].0 == ids {
                found = k;
                has_found = true;
            }
            k = k + 1;
        }

        if has_found {
            proof {
                assert(old(self).spec_history()[found as int].0 == id@);
                assert(spec_hist_has(old(self).spec_history(), id@));
            }
            let ghost prior = old(self).spec_history()[found as int].1;
            let ghost seen = spec_newly_seen(prior, state.available@);
            if self.history[found].1.len() == state.available.len() {
                let diff = difference(&state.available, &self.history[found].1);
                proof {
                    assert(diff@ =~= seen);
                }
                self.update_rarity(&diff);
            } else {
                proof {
                    assert(state.available@ =~= seen);
                }
                self.update_rarity(&state.available);
            }
            let key = self.history[found].0.clone();
            self.history.set(found, (key, state.available.clone()));
            proof {
                assert(self.spec_history() =~= old(self).spec_history().update(
                    found as int,
                    (id@, state.available@),
                ));
                assert(spec_rarity_base(old(self).spec_rarity(), seen) =~= (
                if old(self).rarity@.len() == 0 {
                    Seq::new(seen.len(), |i: int| 0usize)
                } else {
                    old(self).rarity@
                }));
                assert(self.spec_rarity() == spec_bump(
                    spec_rarity_base(old(self).spec_rarity(), seen),
                    seen,
                ));
            }
        } else {
            proof {
                if spec_hist_has(old(self).spec_history(), id@) {
                    let j = choose|j: int|
                        0 <= j < old(self).spec_history().len() && (#[trigger] old(
                            self,
                        ).spec_history()[j]).0 == id@;
                    assert(self.history@[j].0@ == id@);
                }
            }
            self.update_rarity(&state.available);
            self.history.push((ids, state.available.clone()));
            proof {
                assert(self.spec_history() =~= old(self).spec_history().push(
                    (id@, state.available@),
                ));
                assert(spec_rarity_base(old(self).spec_rarity(), state.available@) =~= (
                if old(self).rarity@.len() == 0 {
                    Seq::new(state.available@.len(), |i: int| 0usize)
                } else {
                    old(self).rarity@
                }));
            }
        }

        let v0 = required_indices(&state.required);
        if v0.len() == 0 {
            return v0;
        }
        let ghost count = spec_count_from(state.required@, 0);
        proof {
            v0@.lemma_multiset_has_no_duplicates();
        }
        let ghost v0v = v0@;
        let v = sort_by_rarity(v0, &self.rarity);
        proof {
            assert forall|x: u32| v@.to_multiset().contains(x) implies v0v.to_multiset().contains(
                x,
            ) by {}
            v@.lemma_multiset_has_no_duplicates_conv();
        }
        let vlen = v.len();
        let b: usize = if (n as usize) < vlen - 1 {
            n as usize
        } else {
            vlen - 1
        };
        let boundary = rkey(&self.rarity, v[b]);

        let mut ret: Vec<u32> = Vec::new();
        let mut i: usize = 0;
        while i < vlen && rkey(&self.rarity, v[i]) < boundary
            invariant
                i <= vlen,
                vlen == v@.len(),
                b < vlen,
                boundary == spec_rarity_key(self.rarity@, v@[b as int]),
                ret@ == v@.take(i as int),
                forall|j: int|
                    0 <= j < i ==> spec_rarity_key(self.rarity@, v@[j]) < boundary,
            decreases vlen - i,
        {
            let ghost pre = ret@;
            ret.push(v[i]);
            proof {
                assert(pre.push(v@[i as int]) =~= v@.take(i + 1));
            }
            i = i + 1;
        }
        let p = i;
        proof {
            assert(p <= b) by {
                if p > b {
                    assert(spec_rarity_key(self.rarity@, v@[b as int]) < boundary);
                }
            }
        }
        let mut ties: Vec<u32> = Vec::new();
        while i < vlen && rkey(&self.rarity, v[i]) == boundary
            invariant
                p <= i <= vlen,
                vlen == v@.len(),
                boundary == spec_rarity_key(self.rarity@, v@[b as int]),
                ties@ == v@.subrange(p as int, i as int),
                forall|j: int|
                    p <= j < i ==> spec_rarity_key(self.rarity@, v@[j]) == boundary,
            decreases vlen - i,
        {
            let ghost pre = ties@;
            ties.push(v[i]);
            proof {
                assert(pre.push(v@[i as int]) =~= v@.subrange(p as int, i + 1));
            }
            i = i + 1;
        }
        let t = i;

        proof {
            // Everything up to the boundary position is covered by the
            // prefix and the tied run.
            if t < vlen {
                if t == p {
                    assert(spec_rarity_key(self.rarity@, v@[t as int]) >= boundary);
                } else {
                    assert(spec_rarity_key(self.rarity@, v@[t - 1]) == boundary);
                    assert(spec_rarity_key(self.rarity@, v@[t as int]) >= boundary);
                }
                assert(t > b);
            }
            if vlen > n as usize {
                assert(b == n as usize);
                assert(t > n as usize);
            } else {
                assert(b == vlen - 1);
                assert(t == vlen);
            }
        }

        let ghost ties_pre = ties@;
        shuffle_u32(&mut ties);
        proof {
            assert forall|x: u32| ties@.to_multiset().contains(x) implies ties_pre.to_multiset()
                .contains(x) by {}
            ties_pre.lemma_multiset_has_no_duplicates();
            ties@.lemma_multiset_has_no_duplicates_conv();
        }
        let ghost ties_shuffled = ties@;
        ties.truncate(n as usize - p);
        proof {
            assert(ties@ =~= ties_shuffled.take(
                if n as usize - p <= ties_shuffled.len() {
                    n - p
                } else {
                    ties_shuffled.len() as int
                },
            ));
        }
        let ghost retv = ret@;
        let ghost tiesv = ties@;
        ret.append(&mut ties);
        proof {
            assert(ret@.len() == (if n as int <= count {
                n as int
            } else {
                count
            }));
            assert forall|kk: int| 0 <= kk < ret@.len() implies (ret@[kk] as int)
                < state.required@.len() && state.required@[ret@[kk] as int] by {
                let x = ret@[kk];
                if kk < retv.len() {
                    assert(x == v@[kk]);
                } else {
                    let x2 = tiesv[kk - retv.len()];
                    assert(x == x2);
                    assert(ties_shuffled.to_multiset().contains(x2));
                    assert(ties_pre.to_multiset().contains(x2));
                    assert(ties_pre.contains(x2));
                }
                assert(v0v.to_multiset().contains(x));
                assert(v0v.contains(x));
            }
            assert forall|k1: int, k2: int|
                0 <= k1 < k2 < ret@.len() implies ret@[k1] != ret@[k2] by {
                let x1 = ret@[k1];
                let x2 = ret@[k2];
                if k1 < retv.len() && k2 < retv.len() {
                    assert(x1 == v@[k1] && x2 == v@[k2]);
                } else if k1 < retv.len() {
                    assert(spec_rarity_key(self.rarity@, x1) < boundary);
                    let y = tiesv[k2 - retv.len()];
                    assert(x2 == y);
                    assert(ties_shuffled.to_multiset().contains(y));
                    assert(ties_pre.to_multiset().contains(y));
                    assert(ties_pre.contains(y));
                    assert(spec_rarity_key(self.rarity@, x2) == boundary);
                } else {
                    let j1 = k1 - retv.len();
                    let j2 = k2 - retv.len();
                    assert(tiesv[j1] == ties_shuffled[j1] && tiesv[j2] == ties_shuffled[j2]);
                }
            }
            // The selection ascends in rarity: the prefix is sorted and
            // everything behind it is tied at the boundary.
            assert forall|a2: int, b2: int|
                0 <= a2 < b2 < ret@.len() implies spec_rarity_key(self.rarity@, ret@[a2])
                <= spec_rarity_key(self.rarity@, ret@[b2]) by {
                if b2 >= retv.len() {
                    let y = tiesv[b2 - retv.len()];
                    assert(ret@[b2] == y);
                    assert(ties_shuffled.to_multiset().contains(y));
                    assert(ties_pre.to_multiset().contains(y));
                    assert(ties_pre.contains(y));
                    assert(spec_rarity_key(self.rarity@, y) == boundary);
                    if a2 < retv.len() {
                        assert(ret@[a2] == v@[a2]);
                        assert(spec_rarity_key(self.rarity@, ret@[a2]) < boundary);
                    } else {
                        let x = tiesv[a2 - retv.len()];
                        assert(ret@[a2] == x);
                        assert(ties_shuffled.to_multiset().contains(x));
                        assert(ties_pre.to_multiset().contains(x));
                        assert(ties_pre.contains(x));
                        assert(spec_rarity_key(self.rarity@, x) == boundary);
                    }
                } else {
                    assert(ret@[a2] == v@[a2] && ret@[b2] == v@[b2]);
                }
            }
            // Nothing selected is more common than a required piece left
            // out: the left-out piece sits at or past the tie boundary.
            assert forall|k2: int, i: int|
                0 <= k2 < ret@.len() && 0 <= i < state.required@.len() && state.required@[i]
                    && !ret@.contains(i as u32) implies spec_rarity_key(self.rarity@, ret@[k2])
                <= spec_rarity_key(self.rarity@, i as u32) by {
                assert(v0v.contains(i as u32));
                assert(v0v.to_multiset().contains(i as u32));
                assert(v@.to_multiset().contains(i as u32));
                assert(v@.contains(i as u32));
                let j = choose|j: int| 0 <= j < v@.len() && v@[j] == i as u32;
                if j < p {
                    assert(ret@[j] == v@[j]);
                    assert(ret@.contains(i as u32));
                } else {
                    if j < t {
                        assert(spec_rarity_key(self.rarity@, v@[j]) == boundary);
                    } else {
                        assert(spec_rarity_key(self.rarity@, v@[j]) >= spec_rarity_key(
                            self.rarity@,
                            v@[t as int],
                        ));
                        assert(spec_rarity_key(self.rarity@, v@[t as int]) >= boundary);
                    }
                    if k2 < retv.len() {
                        assert(ret@[k2] == v@[k2]);
                        assert(spec_rarity_key(self.rarity@, ret@[k2]) < boundary);
                    } else {
                        let y = tiesv[k2 - retv.len()];
                        assert(ret@[k2] == y);
                        assert(ties_shuffled.to_multiset().contains(y));
                        assert(ties_pre.to_multiset().contains(y));
                        assert(ties_pre.contains(y));
                        assert(spec_rarity_key(self.rarity@, y) == boundary);
                    }
                }
            }
        }
        ret
    }
}

impl Selector for Rare {
    fn request_pieces(&mut self, id: &str, state: State, n: u32) -> (r: Vec<u32>) {
        self.select(id, state, n)
    }
}

} // verus!
