//! The shared piece store: the authoritative status of every piece
//! (absent, requested by one peer, or downloaded), the arbiter that keeps
//! two peers from being assigned the same piece, the registry of command
//! channels that learn of every new piece, and the bookkeeping for
//! emitting the payload in piece order.
//!
//! Locking is the caller's business: one store sits behind one
//! reader/writer lock, and every method here works on the locked value.

use crate::bitset::Bitmap;
use crate::connection::{channel_send, Command};
use crate::encoding::clone_bytes;
use crate::metainfo::Metainfo;
use crate::selection::{SelectorKind, State};
use std::sync::mpsc::Sender;
use vstd::prelude::*;
use vstd::string::StringExecFns;

verus! {

/// What the store records for one piece.
pub enum PieceStatus {
    /// Assigned to the peer with this id; not yet received.
    Requested(String),
    /// Received and verified; the payload.
    Downloaded(Vec<u8>),
}

/// The mathematical status of one piece.  `Absent` stands for a slot the
/// store holds as empty.
pub enum StatusV {
    Absent,
    Requested(Seq<char>),
    Downloaded(Seq<u8>),
}

/// How many pieces are not yet downloaded, counting from slot `i` on.
pub open spec fn spec_missing_from(statuses: Seq<StatusV>, i: int) -> int
    decreases statuses.len() - i,
{
    if i < 0 || i >= statuses.len() {
        0
    } else {
        (if statuses[i] is Downloaded {
            0int
        } else {
            1
        }) + spec_missing_from(statuses, i + 1)
    }
}

/// The ownership bitmap over statuses: a downloaded piece is owned, a
/// requested piece counts as owned only when `include_requested` says so.
pub open spec fn spec_owned(statuses: Seq<StatusV>, include_requested: bool) -> Seq<bool> {
    Seq::new(
        statuses.len(),
        |i: int|
            match statuses[i] {
                StatusV::Absent => false,
                StatusV::Requested(_) => include_requested,
                StatusV::Downloaded(_) => true,
            },
    )
}

/// The missing count never leaves `[0, statuses.len() - i]`.
proof fn lemma_missing_bounds(statuses: Seq<StatusV>, i: int)
    requires
        0 <= i <= statuses.len(),
    ensures
        0 <= spec_missing_from(statuses, i) <= statuses.len() - i,
    decreases statuses.len() - i,
{
    if i < statuses.len() {
        lemma_missing_bounds(statuses, i + 1);
    }
}

/// When every slot from `i` on is missing, the count is full.
proof fn lemma_missing_full(statuses: Seq<StatusV>, i: int)
    requires
        0 <= i <= statuses.len(),
        forall|j: int| i <= j < statuses.len() ==> !(statuses[j] is Downloaded),
    ensures
        spec_missing_from(statuses, i) == statuses.len() - i,
    decreases statuses.len() - i,
{
    if i < statuses.len() {
        lemma_missing_full(statuses, i + 1);
    }
}

/// When every slot from `i` on is downloaded, nothing is missing.
proof fn lemma_missing_none(statuses: Seq<StatusV>, i: int)
    requires
        0 <= i <= statuses.len(),
        forall|j: int| i <= j < statuses.len() ==> statuses[j] is Downloaded,
    ensures
        spec_missing_from(statuses, i) == 0,
    decreases statuses.len() - i,
{
    if i < statuses.len() {
        lemma_missing_none(statuses, i + 1);
    }
}

/// A slot that is not downloaded contributes one to the count.
proof fn lemma_missing_at_least_one(statuses: Seq<StatusV>, i: int, j: int)
    requires
        0 <= i <= j < statuses.len(),
        !(statuses[j] is Downloaded),
    ensures
        spec_missing_from(statuses, i) >= 1,
    decreases j - i,
{
    lemma_missing_bounds(statuses, i + 1);
    if i < j {
        lemma_missing_at_least_one(statuses, i + 1, j);
    }
}

/// How one slot's change moves the missing count.
proof fn lemma_missing_update(statuses: Seq<StatusV>, i: int, j: int, v: StatusV)
    requires
        0 <= i <= statuses.len(),
        0 <= j < statuses.len(),
    ensures
        spec_missing_from(statuses.update(j, v), i) == spec_missing_from(statuses, i) + (if j >= i {
            (if v is Downloaded {
                0int
            } else {
                1
            }) - (if statuses[j] is Downloaded {
                0int
            } else {
                1
            })
        } else {
            0
        }),
    decreases statuses.len() - i,
{
    if i < statuses.len() {
        lemma_missing_update(statuses, i + 1, j, v);
        assert(statuses.update(j, v).len() == statuses.len());
        if i != j {
            assert(statuses.update(j, v)[i] == statuses[i]);
        }
    }
}

/// A fresh copy of an index list.
fn clone_indices(v: &Vec<u32>) -> (r: Vec<u32>)
    ensures
        r@ == v@,
{
    let mut out: Vec<u32> = Vec::new();
    let mut i: usize = 0;
    while i < v.len()
        invariant
            i <= v@.len(),
            out@ == v@.take(i as int),
        decreases v@.len() - i,
    {
        out.push(v[i]);
        proof {
            assert(v@.take(i as int).push(v@[i as int]) =~= v@.take(i + 1));
        }
        i = i + 1;
    }
    proof {
        assert(v@.take(v@.len() as int) =~= v@);
    }
    out
}

/// The index list without every occurrence of `x`, order kept.
fn without_index(v: &Vec<u32>, x: u32) -> (r: Vec<u32>)
    requires
        forall|t1: int, t2: int| 0 <= t1 < t2 < v@.len() ==> v@[t1] != v@[t2],
    ensures
        forall|t: int| 0 <= t < r@.len() ==> r@[t] != x && v@.contains(r@[t]),
        forall|t: int| 0 <= t < v@.len() && v@[t] != x ==> r@.contains(v@[t]),
        forall|t1: int, t2: int| 0 <= t1 < t2 < r@.len() ==> r@[t1] != r@[t2],
{
    let mut out: Vec<u32> = Vec::new();
    let mut i: usize = 0;
    while i < v.len()
        invariant
            i <= v@.len(),
            forall|t1: int, t2: int| 0 <= t1 < t2 < v@.len() ==> v@[t1] != v@[t2],
            forall|t: int|
                0 <= t < out@.len() ==> out@[t] != x && v@.take(i as int).contains(out@[t]),
            forall|t: int| 0 <= t < i && v@[t] != x ==> out@.contains(v@[t]),
            forall|t1: int, t2: int| 0 <= t1 < t2 < out@.len() ==> out@[t1] != out@[t2],
        decreases v@.len() - i,
    {
        let y = v[i];
        let ghost out_pre = out@;
        if y != x {
            proof {
                assert forall|t: int| 0 <= t < out@.len() implies out@[t] != y by {
                    let u = choose|u: int|
                        0 <= u < v@.take(i as int).len() && v@.take(i as int)[u] == out@[t];
                    assert(v@[u] == out@[t]);
                }
            }
            out.push(y);
            proof {
                assert(out@[out@.len() - 1] == y);
                assert(out@.contains(y));
            }
        }
        proof {
            assert forall|t: int|
                0 <= t < out@.len() implies out@[t] != x && v@.take(i + 1).contains(out@[t]) by {
                if t < out_pre.len() {
                    assert(out@[t] == out_pre[t]);
                    let u = choose|u: int|
                        0 <= u < v@.take(i as int).len() && v@.take(i as int)[u] == out_pre[t];
                    assert(v@.take(i + 1)[u] == out@[t]);
                } else {
                    assert(out@[t] == y);
                    assert(v@.take(i + 1)[i as int] == out@[t]);
                }
            }
            assert forall|t: int|
                0 <= t < i + 1 && v@[t] != x implies out@.contains(v@[t]) by {
                if t < i {
                    let u = choose|u: int| 0 <= u < out_pre.len() && out_pre[u] == v@[t];
                    assert(out@[u] == v@[t]);
                } else {
                    assert(out@[out@.len() - 1] == v@[t]);
                }
            }
        }
        i = i + 1;
    }
    proof {
        assert forall|t: int| 0 <= t < out@.len() implies out@[t] != x && v@.contains(out@[t]) by {
            let u = choose|u: int|
                0 <= u < v@.take(v@.len() as int).len() && v@.take(v@.len() as int)[u] == out@[t];
            assert(v@[u] == out@[t]);
        }
    }
    out
}

/// The store.  `left` counts the pieces still missing.
pub struct PieceStore {
    data: Vec<Option<PieceStatus>>,
    inprogress: Vec<(String, Vec<u32>)>,
    pub left: u32,
    handlers: Vec<Sender<Command>>,
    next: usize,
    selector: SelectorKind,
}

impl PieceStore {
    /// The status of every piece.
    pub closed spec fn spec_statuses(&self) -> Seq<StatusV> {
        Seq::new(
            self.data@.len(),
            |i: int|
                match self.data@[i] {
                    None => StatusV::Absent,
                    Some(PieceStatus::Requested(id)) => StatusV::Requested(id@),
                    Some(PieceStatus::Downloaded(d)) => StatusV::Downloaded(d@),
                },
        )
    }

    /// Whether piece `i` is recorded as in progress for the peer `id`.
    pub closed spec fn spec_in_progress(&self, id: Seq<char>, i: u32) -> bool {
        exists|k: int|
            0 <= k < self.inprogress@.len() && self.inprogress@[k].0@ == id
                && self.inprogress@[k].1@.contains(i)
    }

    /// The selection strategy the store was built with.
    pub closed spec fn spec_selector(&self) -> SelectorKind {
        self.selector
    }

    /// How many pieces are still missing (the public counter `left`).
    pub closed spec fn spec_left(&self) -> u32 {
        self.left
    }

    /// How many command channels are registered.
    pub closed spec fn spec_handlers_len(&self) -> nat {
        self.handlers@.len()
    }

    /// The first piece index not yet emitted to the contiguous output.
    pub closed spec fn spec_next(&self) -> nat {
        self.next as nat
    }

    /// The store's invariant: the missing counter agrees with the
    /// statuses; everything before `next` is downloaded; the in-progress
    /// table has one entry per peer, lists each index once, and lists
    /// exactly the indices requested by that peer.
    pub closed spec fn wf(&self) -> bool {
        &&& self.data@.len() <= u32::MAX
        &&& self.left as int == spec_missing_from(self.spec_statuses(), 0)
        &&& self.next <= self.data@.len()
        &&& (forall|j: int| 0 <= j < self.next ==> self.spec_statuses()[j] is Downloaded)
        &&& (forall|k1: int, k2: int|
            0 <= k1 < k2 < self.inprogress@.len() ==> self.inprogress@[k1].0@
                != self.inprogress@[k2].0@)
        &&& (forall|k: int, t1: int, t2: int|
            0 <= k < self.inprogress@.len() && 0 <= t1 < t2 < self.inprogress@[k].1@.len()
                ==> self.inprogress@[k].1@[t1] != self.inprogress@[k].1@[t2])
        &&& (forall|k: int, t: int|
            0 <= k < self.inprogress@.len() && 0 <= t < self.inprogress@[k].1@.len() ==> (
            self.inprogress@[k].1@[t] as int) < self.data@.len() && self.spec_statuses()[self.inprogress@[k].1@[t] as int]
                == StatusV::Requested(self.inprogress@[k].0@))
        &&& (forall|i: int, id: Seq<char>|
            0 <= i < self.data@.len() && self.spec_statuses()[i] == StatusV::Requested(id)
                ==> #[trigger] self.spec_in_progress(id, i as u32))
    }

    /// A fresh store: one absent slot per piece, nothing in progress, no
    /// registered channels, everything still missing.
    pub fn new(mi: &Metainfo, selector: SelectorKind) -> (r: Self)
        requires
            mi.valid(),
        ensures
            r.wf(),
            r.spec_statuses() == Seq::new(mi.spec_num_pieces() as nat, |i: int| StatusV::Absent),
            r.spec_left() == mi.spec_num_pieces(),
            r.spec_handlers_len() == 0,
            r.spec_next() == 0,
            r.spec_selector() == selector,
            forall|id: Seq<char>, i: u32| !r.spec_in_progress(id, i),
    {
        let np = mi.num_pieces() as usize;
        let mut data: Vec<Option<PieceStatus>> = Vec::new();
        let mut i: usize = 0;
        while i < np
            invariant
                i <= np,
                data@.len() == i,
                forall|j: int| 0 <= j < i ==> data@[j] is None,
            decreases np - i,
        {
            data.push(None);
            i = i + 1;
        }
        let r = PieceStore {
            left: np as u32,
            data,
            inprogress: Vec::new(),
            handlers: Vec::new(),
            next: 0,
            selector,
        };
        proof {
            assert(r.spec_statuses() =~= Seq::new(
                mi.spec_num_pieces() as nat,
                |i: int| StatusV::Absent,
            ));
            lemma_missing_full(r.spec_statuses(), 0);
        }
        r
    }

    /// Add a connection's command channel to the broadcast list.
    pub fn register(&mut self, tx: Sender<Command>)
        requires
            old(self).wf(),
        ensures
            final(self).wf(),
            final(self).spec_statuses() == old(self).spec_statuses(),
            final(self).spec_left() == old(self).spec_left(),
            final(self).spec_next() == old(self).spec_next(),
            final(self).spec_handlers_len() == old(self).spec_handlers_len() + 1,
            final(self).spec_selector() == old(self).spec_selector(),
            forall|id: Seq<char>, i: u32|
                final(self).spec_in_progress(id, i) == old(self).spec_in_progress(id, i),
    {
        self.handlers.push(tx);
        proof {
            assert(self.spec_statuses() =~= old(self).spec_statuses());
            assert forall|id: Seq<char>, i: u32|
                self.spec_in_progress(id, i) == old(self).spec_in_progress(id, i) by {
                assert(self.inprogress@ == old(self).inprogress@);
                if old(self).spec_in_progress(id, i) {
                    let k = choose|k: int|
                        0 <= k < old(self).inprogress@.len() && old(self).inprogress@[k].0@ == id
                            && old(self).inprogress@[k].1@.contains(i);
                    assert(self.inprogress@[k].0@ == id && self.inprogress@[k].1@.contains(i));
                }
                if self.spec_in_progress(id, i) {
                    let k = choose|k: int|
                        0 <= k < self.inprogress@.len() && self.inprogress@[k].0@ == id
                            && self.inprogress@[k].1@.contains(i);
                    assert(old(self).inprogress@[k].0@ == id && old(self).inprogress@[k].1@.contains(
                        i,
                    ));
                }
            }
        }
    }

    /// The ownership bitmap: a bit per piece, set for downloaded pieces,
    /// and for requested ones too when `include_requested` asks for it.
    pub fn as_bitvec(&self, include_requested: bool) -> (r: Bitmap)
        ensures
            r@ == spec_owned(self.spec_statuses(), include_requested),
    {
        let len = self.data.len();
        let mut bits = Bitmap::new(len);
        let mut i: usize = 0;
        while i < len
            invariant
                i <= len,
                len == self.data@.len(),
                bits@.len() == len,
                forall|j: int| 0 <= j < i ==> bits@[j] == spec_owned(
                    self.spec_statuses(),
                    include_requested,
                )[j],
                forall|j: int| i <= j < len ==> bits@[j] == false,
            decreases len - i,
        {
            let b = match &self.data[i] {
                Option::None => false,
                Option::Some(PieceStatus::Requested(_)) => include_requested,
                Option::Some(PieceStatus::Downloaded(_)) => true,
            };
            bits.set(i, b);
            i = i + 1;
        }
        proof {
            assert(bits@ =~= spec_owned(self.spec_statuses(), include_requested));
        }
        bits
    }

    /// The payload of piece `index`, if downloaded.
    pub fn get(&self, index: u32) -> (r: Option<Vec<u8>>)
        requires
            (index as int) < self.spec_statuses().len(),
        ensures
            match r {
                Some(v) => self.spec_statuses()[index as int] == StatusV::Downloaded(v@),
                None => !(self.spec_statuses()[index as int] is Downloaded),
            },
    {
        match &self.data[index as usize] {
            Option::Some(PieceStatus::Downloaded(v)) => Some(clone_bytes(v.as_slice())),
            _ => None,
        }
    }

    /// Record that `id` was assigned the absent piece `index`: the slot
    /// becomes requested by `id` and the assignment joins `id`'s
    /// in-progress set.
    #[verifier::rlimit(100)]
    fn mark(&mut self, id: &String, index: u32)
        requires
            old(self).wf(),
            (index as int) < old(self).spec_statuses().len(),
            old(self).spec_statuses()[index as int] is Absent,
        ensures
            final(self).wf(),
            final(self).spec_statuses() == old(self).spec_statuses().update(
                index as int,
                StatusV::Requested(id@),
            ),
            final(self).spec_left() == old(self).spec_left(),
            final(self).spec_next() == old(self).spec_next(),
            final(self).spec_handlers_len() == old(self).spec_handlers_len(),
            final(self).spec_selector() == old(self).spec_selector(),
            forall|idp: Seq<char>, i: u32|
                #[trigger] final(self).spec_in_progress(idp, i) == (old(self).spec_in_progress(
                    idp,
                    i,
                ) || (idp == id@ && i == index)),
    {
        let ghost old_statuses = self.spec_statuses();
        let hlen = self.inprogress.len();
        let mut k: usize = 0;
        let mut found: bool = false;
        let mut fk: usize = 0;
        while k < hlen
            invariant
                k <= hlen,
                hlen == self.inprogress@.len(),
                found ==> fk < hlen && self.inprogress@[fk as int].0@ == id@,
                !found ==> forall|j: int| 0 <= j < k ==> self.inprogress@[j].0@ != id@,
            decreases hlen - k,
        {
            if self.inprogress[k].0 == *id {
                fk = k;
                found = true;
            }
            k = k + 1;
        }
        let ghost table_pre = self.inprogress@;
        if found {
            let key = self.inprogress[fk].0.clone();
            let mut vec = clone_indices(&self.inprogress[fk].1);
            vec.push(index);
            self.inprogress.set(fk, (key, vec));
        } else {
            let mut vec: Vec<u32> = Vec::new();
            vec.push(index);
            self.inprogress.push((id.clone(), vec));
        }
        self.data.set(index as usize, Some(PieceStatus::Requested(id.clone())));
        proof {
            let st_new = self.spec_statuses();
            assert(st_new =~= old_statuses.update(index as int, StatusV::Requested(id@)));
            lemma_missing_update(old_statuses, 0, index as int, StatusV::Requested(id@));

            // No entry held `index` before: its status was absent.
            assert forall|kk: int, t: int|
                0 <= kk < table_pre.len() && 0 <= t < table_pre[kk].1@.len() implies table_pre[kk].1@[t]
                != index by {
                assert(old_statuses[table_pre[kk].1@[t] as int] == StatusV::Requested(
                    table_pre[kk].0@,
                ));
            }

            // The new table's assignments.
            assert forall|idp: Seq<char>, i: u32|
                #[trigger] self.spec_in_progress(idp, i) == (old(self).spec_in_progress(idp, i)
                    || (idp == id@ && i == index)) by {
                if self.spec_in_progress(idp, i) {
                    let kk = choose|kk: int|
                        0 <= kk < self.inprogress@.len() && self.inprogress@[kk].0@ == idp
                            && self.inprogress@[kk].1@.contains(i);
                    let t = choose|t: int|
                        0 <= t < self.inprogress@[kk].1@.len() && self.inprogress@[kk].1@[t] == i;
                    if found && kk == fk {
                        if t < table_pre[fk as int].1@.len() {
                            assert(table_pre[fk as int].1@[t] == i);
                            assert(old(self).spec_in_progress(idp, i));
                        } else {
                            assert(i == index && idp == id@);
                        }
                    } else if !found && kk == table_pre.len() {
                        assert(i == index && idp == id@);
                    } else {
                        assert(table_pre[kk].0@ == idp && table_pre[kk].1@.contains(i));
                        assert(old(self).spec_in_progress(idp, i));
                    }
                }
                if old(self).spec_in_progress(idp, i) {
                    let kk = choose|kk: int|
                        0 <= kk < table_pre.len() && table_pre[kk].0@ == idp
                            && table_pre[kk].1@.contains(i);
                    if found && kk == fk {
                        let t = choose|t: int|
                            0 <= t < table_pre[fk as int].1@.len() && table_pre[fk as int].1@[t]
                                == i;
                        assert(self.inprogress@[fk as int].1@[t] == i);
                        assert(self.inprogress@[fk as int].1@.contains(i));
                        assert(self.spec_in_progress(idp, i));
                    } else {
                        assert(self.inprogress@[kk].0@ == idp && self.inprogress@[kk].1@.contains(
                            i,
                        ));
                        assert(self.spec_in_progress(idp, i));
                    }
                }
                if idp == id@ && i == index {
                    if found {
                        let vlen = self.inprogress@[fk as int].1@.len();
                        assert(self.inprogress@[fk as int].1@[vlen - 1] == index);
                        assert(self.inprogress@[fk as int].1@.contains(index));
                        assert(self.spec_in_progress(idp, i));
                    } else {
                        let kk = table_pre.len() as int;
                        assert(self.inprogress@[kk].0@ == id@);
                        assert(self.inprogress@[kk].1@[0] == index);
                        assert(self.inprogress@[kk].1@.contains(index));
                        assert(self.spec_in_progress(idp, i));
                    }
                }
            }

            // The invariant again, piece by piece.
            assert forall|i: int, idp: Seq<char>|
                0 <= i < self.data@.len() && self.spec_statuses()[i] == StatusV::Requested(idp)
                    implies #[trigger] self.spec_in_progress(idp, i as u32) by {
                if i == index as int {
                    assert(self.spec_in_progress(id@, index));
                } else {
                    assert(old_statuses[i] == StatusV::Requested(idp));
                    assert(old(self).spec_in_progress(idp, i as u32));
                }
            }
            assert(self.data@.len() <= u32::MAX);
            assert(self.left as int == spec_missing_from(self.spec_statuses(), 0));
            assert(self.next <= self.data@.len());
            assert(forall|j: int| 0 <= j < self.next ==> self.spec_statuses()[j] is Downloaded);
            assert(forall|k1: int, k2: int|
                0 <= k1 < k2 < self.inprogress@.len() ==> self.inprogress@[k1].0@
                    != self.inprogress@[k2].0@);
            assert forall|kk: int, t1: int, t2: int|
                0 <= kk < self.inprogress@.len() && 0 <= t1 < t2
                    < self.inprogress@[kk].1@.len() implies self.inprogress@[kk].1@[t1]
                != self.inprogress@[kk].1@[t2] by {
                if found && kk == fk as int {
                    if t2 < table_pre[kk].1@.len() {
                        assert(table_pre[kk].1@[t1] != table_pre[kk].1@[t2]);
                    } else {
                        assert(self.inprogress@[kk].1@[t2] == index);
                        assert(table_pre[kk].1@[t1] != index);
                    }
                } else if !found && kk == table_pre.len() as int {
                } else {
                    assert(table_pre[kk].1@[t1] != table_pre[kk].1@[t2]);
                }
            }
            assert forall|kk: int, t: int|
                0 <= kk < self.inprogress@.len() && 0 <= t < self.inprogress@[kk].1@.len() implies
                (self.inprogress@[kk].1@[t] as int) < self.data@.len()
                    && self.spec_statuses()[self.inprogress@[kk].1@[t] as int]
                    == StatusV::Requested(self.inprogress@[kk].0@) by {
                let x = self.inprogress@[kk].1@[t];
                if found && kk == fk as int {
                    if t < table_pre[kk].1@.len() {
                        assert(x == table_pre[kk].1@[t]);
                        assert(x != index);
                        assert(old_statuses[x as int] == StatusV::Requested(table_pre[kk].0@));
                    } else {
                        assert(x == index);
                    }
                } else if !found && kk == table_pre.len() as int {
                    assert(x == index);
                } else {
                    assert(x == table_pre[kk].1@[t]);
                    assert(x != index);
                    assert(old_statuses[x as int] == StatusV::Requested(table_pre[kk].0@));
                }
            }
            assert(self.wf());
        }
    }

    /// Record a verified piece: the slot becomes downloaded, the piece
    /// leaves every in-progress set, the missing counter drops by one, and
    /// `ClientHave` is sent to every registered channel; channels whose
    /// receiving end is gone are dropped from the list.  The caller emits
    /// any newly contiguous pieces afterwards with `take_ready`.
    #[allow(unused_variables)]
    pub fn store(&mut self, id: &str, index: u32, piece: Vec<u8>)
        requires
            old(self).wf(),
            (index as int) < old(self).spec_statuses().len(),
            !(old(self).spec_statuses()[index as int] is Downloaded),
        ensures
            final(self).wf(),
            final(self).spec_statuses() == old(self).spec_statuses().update(
                index as int,
                StatusV::Downloaded(piece@),
            ),
            final(self).spec_left() == old(self).spec_left() - 1,
            final(self).spec_next() == old(self).spec_next(),
            final(self).spec_handlers_len() <= old(self).spec_handlers_len(),
            final(self).spec_selector() == old(self).spec_selector(),
            forall|idp: Seq<char>, i: u32|
                #[trigger] final(self).spec_in_progress(idp, i) == (old(self).spec_in_progress(
                    idp,
                    i,
                ) && i != index),
    {
        let ghost old_statuses = self.spec_statuses();
        proof {
            lemma_missing_at_least_one(old_statuses, 0, index as int);
            lemma_missing_update(old_statuses, 0, index as int, StatusV::Downloaded(piece@));
        }
        self.data.set(index as usize, Some(PieceStatus::Downloaded(piece)));
        self.left = self.left - 1;
        proof {
            assert(self.spec_statuses() =~= old_statuses.update(
                index as int,
                StatusV::Downloaded(piece@),
            ));
        }

        // Drop the piece from every in-progress set.
        let ghost table_pre = self.inprogress@;
        let hlen = self.inprogress.len();
        let mut k: usize = 0;
        while k < hlen
            invariant
                k <= hlen,
                old(self).wf(),
                table_pre == old(self).inprogress@,
                (index as int) < old(self).spec_statuses().len(),
                hlen == self.inprogress@.len() == table_pre.len(),
                self.data@ == old(self).data@.update(
                    index as int,
                    Some(PieceStatus::Downloaded(piece)),
                ),
                self.left == old(self).left - 1,
                self.next == old(self).next,
                self.handlers@ == old(self).handlers@,
                self.selector == old(self).selector,
                forall|j: int| k <= j < hlen ==> self.inprogress@[j] == table_pre[j],
                forall|j: int| 0 <= j < k ==> self.inprogress@[j].0@ == table_pre[j].0@,
                forall|j: int, t: int|
                    0 <= j < k && 0 <= t < self.inprogress@[j].1@.len()
                        ==> self.inprogress@[j].1@[t] != index && table_pre[j].1@.contains(
                        self.inprogress@[j].1@[t],
                    ),
                forall|j: int, t: int|
                    0 <= j < k && 0 <= t < table_pre[j].1@.len() && table_pre[j].1@[t] != index
                        ==> self.inprogress@[j].1@.contains(table_pre[j].1@[t]),
                forall|j: int, t1: int, t2: int|
                    0 <= j < k && 0 <= t1 < t2 < self.inprogress@[j].1@.len()
                        ==> self.inprogress@[j].1@[t1] != self.inprogress@[j].1@[t2],
            decreases hlen - k,
        {
            proof {
                assert(self.inprogress@[k as int] == table_pre[k as int]);
                assert forall|t1: int, t2: int|
                    0 <= t1 < t2 < self.inprogress@[k as int].1@.len() implies self.inprogress@[k as int].1@[t1]
                    != self.inprogress@[k as int].1@[t2] by {
                    assert(old(self).inprogress@[k as int].1@[t1] != old(self).inprogress@[k as int].1@[t2]);
                }
            }
            let key = self.inprogress[k].0.clone();
            let vec = without_index(&self.inprogress[k].1, index);
            let ghost vecv = vec@;
            self.inprogress.set(k, (key, vec));
            proof {
                assert(self.inprogress@[k as int].1@ == vecv);
                assert(self.inprogress@[k as int].0@ == table_pre[k as int].0@);
                assert forall|j: int, t: int|
                    0 <= j < k + 1 && 0 <= t < self.inprogress@[j].1@.len() implies self.inprogress@[j].1@[t]
                    != index && table_pre[j].1@.contains(self.inprogress@[j].1@[t]) by {
                    if j == k as int {
                        assert(vecv[t] != index && table_pre[k as int].1@.contains(vecv[t]));
                    }
                }
                assert forall|j: int, t: int|
                    0 <= j < k + 1 && 0 <= t < table_pre[j].1@.len() && table_pre[j].1@[t]
                        != index implies self.inprogress@[j].1@.contains(table_pre[j].1@[t]) by {
                    if j == k as int {
                        assert(vecv.contains(table_pre[k as int].1@[t]));
                    }
                }
            }
            k = k + 1;
        }

        // Tell every registered connection, keeping only live channels.
        let ghost handlers_pre = self.handlers@;
        let mut kept: Vec<Sender<Command>> = Vec::new();
        while self.handlers.len() > 0
            invariant
                kept@.len() + self.handlers@.len() <= handlers_pre.len(),
                self.data@ == old(self).data@.update(
                    index as int,
                    Some(PieceStatus::Downloaded(piece)),
                ),
                self.left == old(self).left - 1,
                self.next == old(self).next,
                self.selector == old(self).selector,
                self.inprogress@.len() == table_pre.len(),
                forall|j: int| 0 <= j < table_pre.len() ==> self.inprogress@[j].0@
                    == table_pre[j].0@,
                forall|j: int, t: int|
                    0 <= j < table_pre.len() && 0 <= t < self.inprogress@[j].1@.len()
                        ==> self.inprogress@[j].1@[t] != index && table_pre[j].1@.contains(
                        self.inprogress@[j].1@[t],
                    ),
                forall|j: int, t: int|
                    0 <= j < table_pre.len() && 0 <= t < table_pre[j].1@.len() && table_pre[j].1@[t]
                        != index ==> self.inprogress@[j].1@.contains(table_pre[j].1@[t]),
                forall|j: int, t1: int, t2: int|
                    0 <= j < table_pre.len() && 0 <= t1 < t2 < self.inprogress@[j].1@.len()
                        ==> self.inprogress@[j].1@[t1] != self.inprogress@[j].1@[t2],
            decreases self.handlers@.len(),
        {
            let tx = match self.handlers.pop() {
                Some(tx) => tx,
                None => {
                    proof {
                        assert(false);
                    }
                    return ;
                },
            };
            if channel_send(&tx, Command::ClientHave(index)) {
                kept.push(tx);
            }
        }
        self.handlers = kept;

        proof {
            let st_new = self.spec_statuses();
            assert(st_new =~= old_statuses.update(index as int, StatusV::Downloaded(piece@)));

            // The in-progress sets lost exactly `index`.
            assert forall|idp: Seq<char>, i: u32|
                #[trigger] self.spec_in_progress(idp, i) == (old(self).spec_in_progress(idp, i)
                    && i != index) by {
                if self.spec_in_progress(idp, i) {
                    let kk = choose|kk: int|
                        0 <= kk < self.inprogress@.len() && self.inprogress@[kk].0@ == idp
                            && self.inprogress@[kk].1@.contains(i);
                    let t = choose|t: int|
                        0 <= t < self.inprogress@[kk].1@.len() && self.inprogress@[kk].1@[t] == i;
                    assert(i != index);
                    assert(table_pre[kk].1@.contains(i));
                    assert(old(self).spec_in_progress(idp, i));
                }
                if old(self).spec_in_progress(idp, i) && i != index {
                    let kk = choose|kk: int|
                        0 <= kk < table_pre.len() && table_pre[kk].0@ == idp
                            && table_pre[kk].1@.contains(i);
                    let t = choose|t: int|
                        0 <= t < table_pre[kk].1@.len() && table_pre[kk].1@[t] == i;
                    assert(self.inprogress@[kk].1@.contains(i));
                    assert(self.spec_in_progress(idp, i));
                }
            }

            // The invariant holds again.
            assert forall|kk: int, t: int|
                0 <= kk < self.inprogress@.len() && 0 <= t < self.inprogress@[kk].1@.len() implies (
            self.inprogress@[kk].1@[t] as int) < self.data@.len()
                && self.spec_statuses()[self.inprogress@[kk].1@[t] as int] == StatusV::Requested(
                self.inprogress@[kk].0@,
            ) by {
                let x = self.inprogress@[kk].1@[t];
                assert(table_pre[kk].1@.contains(x));
                let tp = choose|tp: int|
                    0 <= tp < table_pre[kk].1@.len() && table_pre[kk].1@[tp] == x;
                assert(old_statuses[x as int] == StatusV::Requested(table_pre[kk].0@));
            }
            assert forall|i: int, idp: Seq<char>|
                0 <= i < self.data@.len() && self.spec_statuses()[i] == StatusV::Requested(idp)
                    implies #[trigger] self.spec_in_progress(idp, i as u32) by {
                assert(old_statuses[i] == StatusV::Requested(idp));
                assert(old(self).spec_in_progress(idp, i as u32));
                assert(i != index as int);
            }
            assert(self.left as int == spec_missing_from(self.spec_statuses(), 0));
            assert(index as int >= self.next);
            assert forall|j: int| 0 <= j < self.next implies self.spec_statuses()[j] is Downloaded
                by {
                assert(old_statuses[j] is Downloaded);
            }
            assert forall|k1: int, k2: int|
                0 <= k1 < k2 < self.inprogress@.len() implies self.inprogress@[k1].0@
                != self.inprogress@[k2].0@ by {
                assert(table_pre[k1].0@ != table_pre[k2].0@);
            }
            assert(self.wf());
        }
    }

    /// Hand out the payloads of every piece that is now contiguous with
    /// the already emitted prefix, in piece order, and advance the emitted
    /// prefix past them.  The statuses themselves do not change.
    pub fn take_ready(&mut self) -> (r: Vec<Vec<u8>>)
        requires
            old(self).wf(),
        ensures
            final(self).wf(),
            final(self).spec_statuses() == old(self).spec_statuses(),
            final(self).spec_left() == old(self).spec_left(),
            final(self).spec_handlers_len() == old(self).spec_handlers_len(),
            final(self).spec_next() == old(self).spec_next() + r@.len(),
            final(self).spec_selector() == old(self).spec_selector(),
            forall|j: int|
                0 <= j < r@.len() ==> final(self).spec_statuses()[old(self).spec_next() + j]
                    == StatusV::Downloaded(r@[j]@),
            final(self).spec_next() == final(self).spec_statuses().len() || !(final(self).spec_statuses()[final(self).spec_next() as int] is Downloaded),
            forall|idp: Seq<char>, i: u32|
                #[trigger] final(self).spec_in_progress(idp, i) == old(self).spec_in_progress(
                    idp,
                    i,
                ),
    {
        let mut out: Vec<Vec<u8>> = Vec::new();
        let len = self.data.len();
        loop
            invariant
                old(self).spec_next() + out@.len() == self.next,
                self.next <= len,
                len == self.data@.len(),
                self.data@ == old(self).data@,
                self.left == old(self).left,
                self.handlers@ == old(self).handlers@,
                self.inprogress@ == old(self).inprogress@,
                self.selector == old(self).selector,
                old(self).wf(),
                forall|j: int|
                    0 <= j < out@.len() ==> self.spec_statuses()[old(self).spec_next() + j]
                        == StatusV::Downloaded(out@[j]@),
            ensures
                self.next == len || !(self.spec_statuses()[self.next as int] is Downloaded),
                old(self).spec_next() + out@.len() == self.next,
                self.next <= len,
                self.data@ == old(self).data@,
                self.left == old(self).left,
                self.handlers@ == old(self).handlers@,
                self.inprogress@ == old(self).inprogress@,
                self.selector == old(self).selector,
                forall|j: int|
                    0 <= j < out@.len() ==> self.spec_statuses()[old(self).spec_next() + j]
                        == StatusV::Downloaded(out@[j]@),
            decreases len - self.next,
        {
            if self.next >= len {
                break ;
            }
            let ready = match &self.data[self.next] {
                Option::Some(PieceStatus::Downloaded(v)) => Some(clone_bytes(v.as_slice())),
                _ => None,
            };
            match ready {
                Some(v) => {
                    out.push(v);
                    self.next = self.next + 1;
                },
                None => {
                    break ;
                },
            }
        }
        proof {
            lemma_in_progress_same(self, old(self));
            assert(self.spec_statuses() =~= old(self).spec_statuses());
            assert forall|j: int| 0 <= j < self.next implies self.spec_statuses()[j] is Downloaded
                by {
                if j < old(self).next {
                } else {
                    assert(self.spec_statuses()[old(self).spec_next() + (j - old(self).next)]
                        == StatusV::Downloaded(out@[j - old(self).next]@));
                }
            }
            assert(self.wf());
        }
        out
    }

    /// Forget every assignment made to the peer `id`: each piece it had
    /// requested reverts to absent and its in-progress entry is dropped.
    /// Called when the peer chokes us and when its connection goes down.
    #[verifier::rlimit(100)]
    pub fn clear_requests(&mut self, id: &str)
        requires
            old(self).wf(),
        ensures
            final(self).wf(),
            final(self).spec_statuses().len() == old(self).spec_statuses().len(),
            forall|i: int|
                0 <= i < old(self).spec_statuses().len() ==> final(self).spec_statuses()[i] == (
                if old(self).spec_statuses()[i] == StatusV::Requested(id@) {
                    StatusV::Absent
                } else {
                    old(self).spec_statuses()[i]
                }),
            final(self).spec_left() == old(self).spec_left(),
            final(self).spec_next() == old(self).spec_next(),
            final(self).spec_handlers_len() == old(self).spec_handlers_len(),
            final(self).spec_selector() == old(self).spec_selector(),
            forall|idp: Seq<char>, i: u32|
                #[trigger] final(self).spec_in_progress(idp, i) == (old(self).spec_in_progress(
                    idp,
                    i,
                ) && idp != id@),
    {
        let ids = <String as StringExecFns>::from_str(id);
        let ghost table_pre = self.inprogress@;
        let ghost old_statuses = self.spec_statuses();
        let hlen = self.inprogress.len();
        let mut k: usize = 0;
        let mut found: bool = false;
        let mut fk: usize = 0;
        while k < hlen
            invariant
                k <= hlen,
                ids@ == id@,
                hlen == self.inprogress@.len(),
                found ==> fk < hlen && self.inprogress@[fk as int].0@ == id@,
                !found ==> forall|j: int| 0 <= j < k ==> self.inprogress@[j].0@ != id@,
            decreases hlen - k,
        {
            if self.inprogress[k].0 == ids {
                fk = k;
                found = true;
            }
            k = k + 1;
        }
        if !found {
            proof {
                assert forall|i: int|
                    0 <= i < old_statuses.len() implies old_statuses[i] != StatusV::Requested(
                    id@,
                ) by {
                    if old_statuses[i] == StatusV::Requested(id@) {
                        assert(old(self).spec_in_progress(id@, i as u32));
                        let kk = choose|kk: int|
                            0 <= kk < table_pre.len() && table_pre[kk].0@ == id@
                                && table_pre[kk].1@.contains(i as u32);
                    }
                }
                assert forall|idp: Seq<char>, i: u32|
                    #[trigger] self.spec_in_progress(idp, i) == (old(self).spec_in_progress(idp, i)
                        && idp != id@) by {
                    if self.spec_in_progress(idp, i) && idp == id@ {
                        let kk = choose|kk: int|
                            0 <= kk < table_pre.len() && table_pre[kk].0@ == id@
                                && table_pre[kk].1@.contains(i);
                    }
                }
            }
            return ;
        }
        let entry = self.inprogress.remove(fk);
        let vec = entry.1;
        let ghost table_mid = self.inprogress@;
        proof {
            assert(table_mid == table_pre.remove(fk as int));
            assert forall|j: int|
                0 <= j < table_mid.len() implies table_mid[j] == (if j < fk {
                table_pre[j]
            } else {
                table_pre[j + 1]
            }) by {}
        }
        let vlen = vec.len();
        let mut t: usize = 0;
        while t < vlen
            invariant
                t <= vlen,
                ids@ == id@,
                vlen == vec@.len(),
                old(self).wf(),
                table_pre == old(self).inprogress@,
                old_statuses == old(self).spec_statuses(),
                found && fk < table_pre.len(),
                table_pre[fk as int].0@ == id@,
                vec@ == table_pre[fk as int].1@,
                self.inprogress@ == table_pre.remove(fk as int),
                self.data@.len() == old(self).data@.len(),
                self.left == old(self).left,
                self.next == old(self).next,
                self.handlers@ == old(self).handlers@,
                self.selector == old(self).selector,
                self.left as int == spec_missing_from(self.spec_statuses(), 0),
                forall|i: int|
                    0 <= i < old_statuses.len() ==> self.spec_statuses()[i] == (if vec@.take(
                        t as int,
                    ).contains(i as u32) {
                        StatusV::Absent
                    } else {
                        old_statuses[i]
                    }),
            decreases vlen - t,
        {
            let x = vec[t];
            proof {
                assert(vec@.contains(vec@[t as int]));
                assert(old_statuses[x as int] == StatusV::Requested(id@));
                assert(!vec@.take(t as int).contains(x));
                assert(self.spec_statuses()[x as int] == StatusV::Requested(id@));
            }
            let ghost st_pre = self.spec_statuses();
            let clear = match &self.data[x as usize] {
                Option::Some(PieceStatus::Requested(rid)) => *rid == ids,
                _ => false,
            };
            if clear {
                self.data.set(x as usize, None);
            }
            proof {
                assert(clear);
                assert(self.spec_statuses() =~= st_pre.update(x as int, StatusV::Absent));
                lemma_missing_update(st_pre, 0, x as int, StatusV::Absent);
                assert forall|i: int|
                    0 <= i < old_statuses.len() implies self.spec_statuses()[i] == (if vec@.take(
                    t + 1,
                ).contains(i as u32) {
                    StatusV::Absent
                } else {
                    old_statuses[i]
                }) by {
                    if i == x as int {
                        assert(vec@.take(t + 1)[t as int] == x);
                        assert(vec@.take(t + 1).contains(x));
                    } else {
                        if vec@.take(t + 1).contains(i as u32) {
                            let u = choose|u: int|
                                #![trigger vec@.take(t + 1)[u]]
                                0 <= u < vec@.take(t + 1).len() && vec@.take(t + 1)[u] == i as u32;
                            assert(vec@.take(t as int)[u] == i as u32);
                        } else if vec@.take(t as int).contains(i as u32) {
                            let u = choose|u: int|
                                #![trigger vec@.take(t as int)[u]]
                                0 <= u < vec@.take(t as int).len() && vec@.take(t as int)[u] == i
                                    as u32;
                            assert(vec@.take(t + 1)[u] == i as u32);
                        }
                    }
                }
            }
            t = t + 1;
        }
        proof {
            // Cleared exactly the pieces this peer had requested.
            assert(vec@.take(vlen as int) =~= vec@);
            assert forall|i: int|
                0 <= i < old_statuses.len() implies self.spec_statuses()[i] == (if old_statuses[i]
                == StatusV::Requested(id@) {
                StatusV::Absent
            } else {
                old_statuses[i]
            }) by {
                if vec@.contains(i as u32) {
                    assert(old_statuses[i] == StatusV::Requested(id@));
                } else if old_statuses[i] == StatusV::Requested(id@) {
                    assert(old(self).spec_in_progress(id@, i as u32));
                    let kk = choose|kk: int|
                        0 <= kk < table_pre.len() && table_pre[kk].0@ == id@
                            && table_pre[kk].1@.contains(i as u32);
                    assert(kk == fk as int);
                }
            }

            // The assignments that remain are those of the other peers.
            assert forall|idp: Seq<char>, i: u32|
                #[trigger] self.spec_in_progress(idp, i) == (old(self).spec_in_progress(idp, i)
                    && idp != id@) by {
                if self.spec_in_progress(idp, i) {
                    let kk = choose|kk: int|
                        0 <= kk < self.inprogress@.len() && self.inprogress@[kk].0@ == idp
                            && self.inprogress@[kk].1@.contains(i);
                    let kp = if kk < fk as int {
                        kk
                    } else {
                        kk + 1
                    };
                    assert(table_pre[kp].0@ == idp && table_pre[kp].1@.contains(i));
                    assert(old(self).spec_in_progress(idp, i));
                    assert(kp != fk as int);
                    assert(idp != id@);
                }
                if old(self).spec_in_progress(idp, i) && idp != id@ {
                    let kk = choose|kk: int|
                        0 <= kk < table_pre.len() && table_pre[kk].0@ == idp
                            && table_pre[kk].1@.contains(i);
                    assert(kk != fk as int);
                    let kp = if kk < fk as int {
                        kk
                    } else {
                        kk - 1
                    };
                    assert(self.inprogress@[kp].0@ == idp && self.inprogress@[kp].1@.contains(i));
                    assert(self.spec_in_progress(idp, i));
                }
            }

            // The invariant holds again.
            assert forall|j: int| 0 <= j < self.next implies self.spec_statuses()[j] is Downloaded
                by {
                assert(old_statuses[j] is Downloaded);
            }
            assert forall|k1: int, k2: int|
                0 <= k1 < k2 < self.inprogress@.len() implies self.inprogress@[k1].0@
                != self.inprogress@[k2].0@ by {
                let p1 = if k1 < fk as int {
                    k1
                } else {
                    k1 + 1
                };
                let p2 = if k2 < fk as int {
                    k2
                } else {
                    k2 + 1
                };
                assert(table_pre[p1].0@ != table_pre[p2].0@);
            }
            assert forall|kk: int, t1: int, t2: int|
                0 <= kk < self.inprogress@.len() && 0 <= t1 < t2
                    < self.inprogress@[kk].1@.len() implies self.inprogress@[kk].1@[t1]
                != self.inprogress@[kk].1@[t2] by {
                let kp = if kk < fk as int {
                    kk
                } else {
                    kk + 1
                };
                assert(table_pre[kp].1@[t1] != table_pre[kp].1@[t2]);
            }
            assert forall|kk: int, t: int|
                0 <= kk < self.inprogress@.len() && 0 <= t < self.inprogress@[kk].1@.len() implies
                (self.inprogress@[kk].1@[t] as int) < self.data@.len()
                    && self.spec_statuses()[self.inprogress@[kk].1@[t] as int]
                    == StatusV::Requested(self.inprogress@[kk].0@) by {
                let kp = if kk < fk as int {
                    kk
                } else {
                    kk + 1
                };
                let x = self.inprogress@[kk].1@[t];
                assert(x == table_pre[kp].1@[t]);
                assert(old_statuses[x as int] == StatusV::Requested(table_pre[kp].0@));
                assert(table_pre[kp].0@ != id@);
            }
            assert forall|i: int, idp: Seq<char>|
                0 <= i < self.data@.len() && self.spec_statuses()[i] == StatusV::Requested(idp)
                    implies #[trigger] self.spec_in_progress(idp, i as u32) by {
                assert(old_statuses[i] == StatusV::Requested(idp));
                assert(idp != id@);
                assert(old(self).spec_in_progress(idp, i as u32));
            }
            assert(self.wf());
        }
    }

    /// Ask the selector for up to `n` pieces for the peer `id`, and mark
    /// every returned piece as requested by it.  The peer's availability is
    /// widened with the client's own pieces for the selector's bookkeeping;
    /// the required set excludes everything downloaded or already assigned.
    /// An empty selection is the distinct outcome `Err`, on which the
    /// caller sends `NotInterested`; the statuses are then unchanged.
    pub fn request_pieces(&mut self, id: &str, availability: Bitmap, n: u32) -> (r: Result<
        Vec<u32>,
        (),
    >)
        requires
            old(self).wf(),
            availability@.len() == old(self).spec_statuses().len(),
        ensures
            final(self).wf(),
            final(self).spec_left() == old(self).spec_left(),
            final(self).spec_next() == old(self).spec_next(),
            final(self).spec_handlers_len() == old(self).spec_handlers_len(),
            // The strategy keeps its kind, and for the deterministic
            // strategies success is owed: the in-order one finds a piece
            // exactly when one is absent and available, the rarest-first
            // one exactly when one is absent.
            old(self).spec_selector() is Inorder ==> final(self).spec_selector() is Inorder && (
            r is Ok <==> n > 0 && exists|i: int|
                0 <= i < old(self).spec_statuses().len() && (#[trigger] old(
                    self,
                ).spec_statuses()[i]) is Absent && availability@[i]),
            old(self).spec_selector() is Rare ==> final(self).spec_selector() is Rare && (r is Ok
                <==> n > 0 && exists|i: int|
                0 <= i < old(self).spec_statuses().len() && (#[trigger] old(
                    self,
                ).spec_statuses()[i]) is Absent),
            old(self).spec_selector() is Bitos ==> final(self).spec_selector() is Bitos,
            match r {
                Ok(v) => {
                    &&& 0 < v@.len() <= n
                    &&& (old(self).spec_selector() is Inorder ==> v@
                        == crate::inorder::spec_inorder_picks(
                        spec_owned(old(self).spec_statuses(), true).map_values(|b: bool| !b),
                        Seq::new(
                            old(self).spec_statuses().len(),
                            |i: int| availability@[i] || spec_owned(
                                old(self).spec_statuses(),
                                false,
                            )[i],
                        ),
                        n as int,
                    ))
                    &&& (forall|k: int|
                        0 <= k < v@.len() ==> (v@[k] as int) < old(self).spec_statuses().len()
                            && old(self).spec_statuses()[v@[k] as int] is Absent)
                    &&& (forall|k1: int, k2: int|
                        0 <= k1 < k2 < v@.len() ==> v@[k1] != v@[k2])
                    &&& final(self).spec_statuses().len() == old(self).spec_statuses().len()
                    &&& (forall|i: int|
                        0 <= i < old(self).spec_statuses().len()
                            ==> final(self).spec_statuses()[i] == (if v@.contains(i as u32) {
                            StatusV::Requested(id@)
                        } else {
                            old(self).spec_statuses()[i]
                        }))
                    &&& (forall|idp: Seq<char>, i: u32|
                        #[trigger] final(self).spec_in_progress(idp, i) == (old(
                            self,
                        ).spec_in_progress(idp, i) || (idp == id@ && v@.contains(i))))
                },
                Err(()) => {
                    &&& final(self).spec_statuses() == old(self).spec_statuses()
                    &&& (forall|idp: Seq<char>, i: u32|
                        #[trigger] final(self).spec_in_progress(idp, i) == old(
                            self,
                        ).spec_in_progress(idp, i))
                },
            },
    {
        let owned_plain = self.as_bitvec(false);
        let avail = crate::bitset::union(&availability, &owned_plain);
        let owned_all = self.as_bitvec(true);
        let required = owned_all.complement();
        let ghost required_v = required@;
        let ghost avail_v = avail@;
        let v = self.selector.request_pieces(id, State { required, available: avail }, n);
        proof {
            lemma_in_progress_same(self, old(self));
            assert(self.spec_statuses() =~= old(self).spec_statuses());
            let st = old(self).spec_statuses();
            assert(forall|i: int|
                0 <= i < st.len() ==> required_v[i] == ((#[trigger] st[i]) is Absent));
            assert(forall|i: int|
                0 <= i < st.len() ==> (required_v[i] && avail_v[i]) == (((#[trigger] st[i])
                    is Absent) && availability@[i]));
            if old(self).spec_selector() is Inorder {
                let inter = Seq::new(required_v.len(), |j: int| required_v[j] && avail_v[j]);
                crate::inorder::lemma_take_set_bits_empty(inter, 0, n as int);
                assert(inter.len() == st.len());
                assert(required_v =~= spec_owned(st, true).map_values(|b: bool| !b));
                assert(avail_v =~= Seq::new(
                    st.len(),
                    |i: int| availability@[i] || spec_owned(st, false)[i],
                ));
                assert(v@ == crate::inorder::spec_inorder_picks(
                    spec_owned(st, true).map_values(|b: bool| !b),
                    Seq::new(st.len(), |i: int| availability@[i] || spec_owned(st, false)[i]),
                    n as int,
                ));
                if v@.len() == 0 && n > 0 {
                    assert forall|j: int|
                        0 <= j < st.len() implies !(((#[trigger] st[j]) is Absent)
                        && availability@[j]) by {
                        assert(!inter[j]);
                    }
                }
                if v@.len() > 0 {
                    assert(!(n as int <= 0 || forall|j: int|
                        0 <= j < inter.len() ==> !inter[j]));
                    let j = choose|j: int| 0 <= j < inter.len() && inter[j];
                    assert((st[j] is Absent) && availability@[j]);
                }
            }
            if old(self).spec_selector() is Rare {
                crate::rare::lemma_count_from_zero(required_v, 0);
                if v@.len() == 0 && n > 0 {
                    assert(crate::rare::spec_count_from(required_v, 0) == 0);
                    assert forall|j: int|
                        0 <= j < st.len() implies !((#[trigger] st[j]) is Absent) by {
                        assert(!required_v[j]);
                    }
                }
                if v@.len() > 0 {
                    assert(crate::rare::spec_count_from(required_v, 0) != 0);
                    assert(!(forall|j: int| 0 <= j < required_v.len() ==> !required_v[j]));
                    let j = choose|j: int| 0 <= j < required_v.len() && required_v[j];
                    assert(st[j] is Absent);
                }
            }
        }
        if v.len() == 0 {
            return Err(());
        }
        let ids = <String as StringExecFns>::from_str(id);
        let ghost sel_mid = self.spec_selector();
        let ghost base_statuses = self.spec_statuses();
        let vlen = v.len();
        let mut k: usize = 0;
        while k < vlen
            invariant
                k <= vlen,
                ids@ == id@,
                vlen == v@.len(),
                self.wf(),
                self.spec_selector() == sel_mid,
                self.left == old(self).left,
                self.spec_next() == old(self).spec_next(),
                self.spec_handlers_len() == old(self).spec_handlers_len(),
                base_statuses == old(self).spec_statuses(),
                self.spec_statuses().len() == base_statuses.len(),
                forall|kk: int|
                    0 <= kk < vlen ==> (v@[kk] as int) < base_statuses.len()
                        && base_statuses[v@[kk] as int] is Absent,
                forall|k1: int, k2: int| 0 <= k1 < k2 < vlen ==> v@[k1] != v@[k2],
                forall|i: int|
                    0 <= i < base_statuses.len() ==> self.spec_statuses()[i] == (if v@.take(
                        k as int,
                    ).contains(i as u32) {
                        StatusV::Requested(id@)
                    } else {
                        base_statuses[i]
                    }),
                forall|idp: Seq<char>, i: u32|
                    #[trigger] self.spec_in_progress(idp, i) == (old(self).spec_in_progress(idp, i)
                        || (idp == id@ && v@.take(k as int).contains(i))),
            decreases vlen - k,
        {
            let x = v[k];
            proof {
                assert(!v@.take(k as int).contains(x));
                assert(self.spec_statuses()[x as int] is Absent);
            }
            let ghost st_pre = self.spec_statuses();
            let ghost prog_pre = *self;
            self.mark(&ids, x);
            proof {
                assert forall|i: int|
                    0 <= i < base_statuses.len() implies self.spec_statuses()[i] == (if v@.take(
                    k + 1,
                ).contains(i as u32) {
                    StatusV::Requested(id@)
                } else {
                    base_statuses[i]
                }) by {
                    if i == x as int {
                        assert(v@.take(k + 1)[k as int] == x);
                        assert(v@.take(k + 1).contains(x));
                    } else {
                        if v@.take(k + 1).contains(i as u32) {
                            let u = choose|u: int|
                                #![trigger v@.take(k + 1)[u]]
                                0 <= u < v@.take(k + 1).len() && v@.take(k + 1)[u] == i as u32;
                            assert(v@.take(k as int)[u] == i as u32);
                        } else if v@.take(k as int).contains(i as u32) {
                            let u = choose|u: int|
                                #![trigger v@.take(k as int)[u]]
                                0 <= u < v@.take(k as int).len() && v@.take(k as int)[u] == i
                                    as u32;
                            assert(v@.take(k + 1)[u] == i as u32);
                        }
                    }
                }
                assert forall|idp: Seq<char>, i: u32|
                    #[trigger] self.spec_in_progress(idp, i) == (old(self).spec_in_progress(idp, i)
                        || (idp == id@ && v@.take(k + 1).contains(i))) by {
                    if v@.take(k + 1).contains(i) && !(v@.take(k as int).contains(i)) && i != x {
                        let u = choose|u: int|
                            #![trigger v@.take(k + 1)[u]]
                            0 <= u < v@.take(k + 1).len() && v@.take(k + 1)[u] == i;
                        assert(v@.take(k as int)[u] == i);
                    }
                    if v@.take(k as int).contains(i) {
                        let u = choose|u: int|
                            #![trigger v@.take(k as int)[u]]
                            0 <= u < v@.take(k as int).len() && v@.take(k as int)[u] == i;
                        assert(v@.take(k + 1)[u] == i);
                    }
                    if i == x {
                        assert(v@.take(k + 1)[k as int] == x);
                        assert(v@.take(k + 1).contains(x));
                    }
                }
            }
            k = k + 1;
        }
        proof {
            assert(v@.take(vlen as int) =~= v@);
        }
        Ok(v)
    }

    /// Fill every slot from a complete local payload, for seed-only
    /// operation: piece `i` holds its sub-range of the payload, nothing is
    /// missing, and the contiguous prefix counts as already emitted.
    pub fn bootstrap(&mut self, mi: &Metainfo, payload: &[u8])
        requires
            old(self).wf(),
            mi.valid(),
            old(self).spec_statuses().len() == mi.spec_num_pieces(),
            payload@.len() >= mi.info.length,
        ensures
            final(self).wf(),
            final(self).spec_statuses().len() == old(self).spec_statuses().len(),
            forall|i: int|
                0 <= i < old(self).spec_statuses().len() ==> final(self).spec_statuses()[i]
                    == StatusV::Downloaded(
                    payload@.subrange(
                        i * mi.info.piece_length,
                        i * mi.info.piece_length + mi.spec_piece_size(i),
                    ),
                ),
            final(self).spec_left() == 0,
            final(self).spec_next() == old(self).spec_statuses().len(),
            final(self).spec_handlers_len() == old(self).spec_handlers_len(),
            final(self).spec_selector() == old(self).spec_selector(),
            forall|idp: Seq<char>, i: u32| !final(self).spec_in_progress(idp, i),
    {
        let np = mi.num_pieces();
        let mut off: usize = 0;
        let mut i: u32 = 0;
        while i < np
            invariant
                i <= np,
                np == mi.spec_num_pieces(),
                mi.valid(),
                payload@.len() >= mi.info.length,
                off as int == (if (i as int) < np as int {
                    i as int * mi.info.piece_length
                } else {
                    mi.info.length as int
                }),
                self.data@.len() == old(self).data@.len() == np,
                self.inprogress@ == old(self).inprogress@,
                self.handlers@ == old(self).handlers@,
                self.selector == old(self).selector,
                self.left == old(self).left,
                self.next == old(self).next,
                forall|j: int|
                    0 <= j < i ==> self.spec_statuses()[j] == StatusV::Downloaded(
                        payload@.subrange(
                            j * mi.info.piece_length,
                            j * mi.info.piece_length + mi.spec_piece_size(j),
                        ),
                    ),
                forall|j: int| i <= j < np ==> self.spec_statuses()[j] == old(
                    self,
                ).spec_statuses()[j],
            decreases np - i,
        {
            let size = mi.get_piece_size(i) as usize;
            proof {
                let ghost length = mi.info.length as int;
                let ghost pl = mi.info.piece_length as int;
                let ghost q = mi.spec_num_pieces() - 1;
                mi.info.lemma_piece_size_bounds(i as int);
                vstd::arithmetic::div_mod::lemma_fundamental_div_mod(length - 1, pl);
                vstd::arithmetic::div_mod::lemma_mod_bound(length - 1, pl);
                assert(q * pl == pl * q) by (nonlinear_arith);
                if i as int != q {
                    assert((i as int + 1) * pl == i as int * pl + pl) by (nonlinear_arith);
                    vstd::arithmetic::mul::lemma_mul_inequality(i as int + 1, q, pl);
                }
                assert(off + size <= payload@.len());
                assert((i as int + 1 < np as int) ==> off + size == (i as int + 1) * pl);
            }
            let chunk = clone_bytes(vstd::slice::slice_subrange(payload, off, off + size));
            let ghost st_pre = self.spec_statuses();
            self.data.set(i as usize, Some(PieceStatus::Downloaded(chunk)));
            proof {
                assert(self.spec_statuses() =~= st_pre.update(
                    i as int,
                    StatusV::Downloaded(
                        payload@.subrange(off as int, off as int + mi.spec_piece_size(i as int)),
                    ),
                ));
            }
            off = off + size;
            i = i + 1;
        }
        let ghost st = self.spec_statuses();
        self.left = 0;
        self.next = self.data.len();
        self.inprogress = Vec::new();
        proof {
            assert(self.spec_statuses() =~= st);
            assert forall|j: int| 0 <= j < st.len() implies st[j] is Downloaded by {}
            lemma_missing_none(st, 0);
            assert forall|idp: Seq<char>, i: u32| !self.spec_in_progress(idp, i) by {}
            assert(self.wf());
        }
    }

    /// True iff the slot is absent: neither requested nor downloaded.
    pub fn check_if_needed(&self, index: u32) -> (r: bool)
        requires
            (index as int) < self.spec_statuses().len(),
        ensures
            r == (self.spec_statuses()[index as int] is Absent),
    {
        match &self.data[index as usize] {
            Option::Some(_) => false,
            Option::None => true,
        }
    }
}

/// Two stores with the same in-progress table record the same assignments.
proof fn lemma_in_progress_same(s1: &PieceStore, s2: &PieceStore)
    requires
        s1.inprogress@ == s2.inprogress@,
    ensures
        forall|id: Seq<char>, i: u32|
            #[trigger] s1.spec_in_progress(id, i) == s2.spec_in_progress(id, i),
{
    assert forall|id: Seq<char>, i: u32|
        #[trigger] s1.spec_in_progress(id, i) == s2.spec_in_progress(id, i) by {
        if s1.spec_in_progress(id, i) {
            let k = choose|k: int|
                0 <= k < s1.inprogress@.len() && s1.inprogress@[k].0@ == id
                    && s1.inprogress@[k].1@.contains(i);
            assert(s2.inprogress@[k].0@ == id && s2.inprogress@[k].1@.contains(i));
        }
        if s2.spec_in_progress(id, i) {
            let k = choose|k: int|
                0 <= k < s2.inprogress@.len() && s2.inprogress@[k].0@ == id
                    && s2.inprogress@[k].1@.contains(i);
            assert(s1.inprogress@[k].0@ == id && s1.inprogress@[k].1@.contains(i));
        }
    }
}

/// Whatever is reported to peers covers at least whatever is advertised as
/// owned: the bitmap that counts requested pieces is a superset of the one
/// that does not.
pub proof fn lemma_as_bitvec_superset(statuses: Seq<StatusV>)
    ensures
        forall|i: int|
            0 <= i < statuses.len() ==> (spec_owned(statuses, false)[i] ==> spec_owned(
                statuses,
                true,
            )[i]),
{
}

/// The missing counter always equals the number of pieces whose status is
/// not downloaded.
pub proof fn lemma_left_counts_missing(s: &PieceStore)
    requires
        s.wf(),
    ensures
        s.spec_left() as int == spec_missing_from(s.spec_statuses(), 0),
{
}

/// The in-progress table records exactly the requested pieces: a piece is
/// in progress for a peer exactly when its status says that peer requested
/// it.
pub proof fn lemma_in_progress_matches(s: &PieceStore)
    requires
        s.wf(),
    ensures
        forall|id: Seq<char>, i: u32|
            (i as int) < s.spec_statuses().len() ==> (s.spec_in_progress(id, i)
                <==> s.spec_statuses()[i as int] == StatusV::Requested(id)),
{
    assert forall|id: Seq<char>, i: u32|
        (i as int) < s.spec_statuses().len() && s.spec_in_progress(id, i) implies s.spec_statuses()[i as int]
        == StatusV::Requested(id) by {
        let k = choose|k: int|
            0 <= k < s.inprogress@.len() && s.inprogress@[k].0@ == id
                && s.inprogress@[k].1@.contains(i);
        let t = choose|t: int| 0 <= t < s.inprogress@[k].1@.len() && s.inprogress@[k].1@[t] == i;
        assert(s.spec_statuses()[s.inprogress@[k].1@[t] as int] == StatusV::Requested(
            s.inprogress@[k].0@,
        ));
    }
    assert forall|id: Seq<char>, i: u32|
        (i as int) < s.spec_statuses().len() && s.spec_statuses()[i as int]
            == StatusV::Requested(id) implies s.spec_in_progress(id, i) by {
        assert(s.spec_in_progress(id, ((i as int) as u32)));
    }
}

} // verus!
