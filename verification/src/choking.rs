//! The choking controller: a periodic fairness pass over every live
//! connection.  Each tick prunes dead connections, keeps one "optimistic
//! unchoke" slot, and unchokes the four peers serving us best (by bytes
//! downloaded while downloading, by bytes served while seeding) plus any
//! peer that gives without asking; everyone else is choked.

use crate::connection::{channel_send, Command, Snapshot};
use crate::rng::random_below;
use std::sync::mpsc::Sender;
use vstd::prelude::*;

verus! {

/// Whether a peer competes for the preferred set: while downloading it
/// must be unchoking us and interested; while seeding interest suffices.
pub open spec fn spec_eligible(s: Snapshot, by_upload: bool) -> bool {
    if by_upload {
        s.state.peer_interested
    } else {
        !s.state.peer_choked && s.state.peer_interested
    }
}

/// The rate the tick ranks by.
pub open spec fn spec_rate(s: Snapshot, by_upload: bool) -> u64 {
    if by_upload {
        s.uploaded
    } else {
        s.downloaded
    }
}

/// Whether peer `j` outranks peer `i`: a strictly higher rate, or the same
/// rate and an earlier position.
pub open spec fn spec_beats(snaps: Seq<Snapshot>, by_upload: bool, j: int, i: int) -> bool {
    spec_rate(snaps[j], by_upload) > spec_rate(snaps[i], by_upload) || (spec_rate(
        snaps[j],
        by_upload,
    ) == spec_rate(snaps[i], by_upload) && j < i)
}

/// How many eligible peers among the first `upto` outrank peer `i`.
pub open spec fn spec_count_better(snaps: Seq<Snapshot>, by_upload: bool, i: int, upto: int) -> int
    decreases upto,
{
    if upto <= 0 {
        0
    } else {
        (if spec_eligible(snaps[upto - 1], by_upload) && upto - 1 != i && spec_beats(
            snaps,
            by_upload,
            upto - 1,
            i,
        ) {
            1int
        } else {
            0
        }) + spec_count_better(snaps, by_upload, i, upto - 1)
    }
}

/// The preferred (tit-for-tat) set: the four best eligible peers.
pub open spec fn spec_preferred(snaps: Seq<Snapshot>, by_upload: bool, i: int) -> bool {
    spec_eligible(snaps[i], by_upload) && spec_count_better(snaps, by_upload, i, snaps.len() as int)
        < 4
}

/// The lowest rate in the preferred set among the first `upto` peers;
/// `None` when the set is empty there.
pub open spec fn spec_threshold_upto(snaps: Seq<Snapshot>, by_upload: bool, upto: int) -> Option<
    u64,
>
    decreases upto,
{
    if upto <= 0 {
        None
    } else {
        let rest = spec_threshold_upto(snaps, by_upload, upto - 1);
        if spec_preferred(snaps, by_upload, upto - 1) {
            match rest {
                None => Some(spec_rate(snaps[upto - 1], by_upload)),
                Some(m) => Some(
                    if spec_rate(snaps[upto - 1], by_upload) < m {
                        spec_rate(snaps[upto - 1], by_upload)
                    } else {
                        m
                    },
                ),
            }
        } else {
            rest
        }
    }
}

/// The threshold an auxiliary unchoke must beat: the minimum preferred
/// rate, or zero when the preferred set is empty.
pub open spec fn spec_threshold(snaps: Seq<Snapshot>, by_upload: bool) -> u64 {
    match spec_threshold_upto(snaps, by_upload, snaps.len() as int) {
        None => 0,
        Some(m) => m,
    }
}

/// The auxiliary unchokes: peers that give more than the threshold without
/// asking for anything (while downloading they must also be unchoking us).
pub open spec fn spec_aux(s: Snapshot, threshold: u64, by_upload: bool) -> bool {
    if by_upload {
        !s.state.peer_interested && (s.uploaded > threshold || threshold == 0)
    } else {
        !s.state.peer_choked && !s.state.peer_interested && (s.downloaded > threshold || threshold
            == 0)
    }
}

/// One tick's verdict for every peer: unchoke exactly the preferred set
/// and the auxiliary set.
pub fn decide(snaps: &Vec<Snapshot>, by_upload: bool) -> (r: Vec<bool>)
    ensures
        r@.len() == snaps@.len(),
        forall|i: int|
            0 <= i < r@.len() ==> r@[i] == (spec_preferred(snaps@, by_upload, i) || spec_aux(
                snaps@[i],
                spec_threshold(snaps@, by_upload),
                by_upload,
            )),
{
    let n = snaps.len();

    // Which peers are preferred: count, for each, the eligible peers that
    // outrank it.
    let mut preferred: Vec<bool> = Vec::new();
    let mut i: usize = 0;
    while i < n
        invariant
            i <= n,
            n == snaps@.len(),
            preferred@.len() == i,
            forall|t: int| 0 <= t < i ==> preferred@[t] == spec_preferred(snaps@, by_upload, t),
        decreases n - i,
    {
        let si = &snaps[i];
        let eligible = if by_upload {
            si.state.peer_interested
        } else {
            !si.state.peer_choked && si.state.peer_interested
        };
        let ri = if by_upload {
            si.uploaded
        } else {
            si.downloaded
        };
        let mut count: u64 = 0;
        let mut j: usize = 0;
        while j < n
            invariant
                j <= n,
                i < n,
                n == snaps@.len(),
                ri == spec_rate(snaps@[i as int], by_upload),
                count == spec_count_better(snaps@, by_upload, i as int, j as int),
                count <= j,
            decreases n - j,
        {
            let sj = &snaps[j];
            let ej = if by_upload {
                sj.state.peer_interested
            } else {
                !sj.state.peer_choked && sj.state.peer_interested
            };
            let rj = if by_upload {
                sj.uploaded
            } else {
                sj.downloaded
            };
            if ej && j != i && (rj > ri || (rj == ri && j < i)) {
                count = count + 1;
            }
            j = j + 1;
        }
        preferred.push(eligible && count < 4);
        i = i + 1;
    }

    // The threshold: the minimum preferred rate.
    let mut acc: Option<u64> = None;
    let mut i: usize = 0;
    while i < n
        invariant
            i <= n,
            n == snaps@.len(),
            preferred@.len() == n,
            forall|t: int| 0 <= t < n ==> preferred@[t] == spec_preferred(snaps@, by_upload, t),
            acc == spec_threshold_upto(snaps@, by_upload, i as int),
        decreases n - i,
    {
        if preferred[i] {
            let ri = if by_upload {
                snaps[i].uploaded
            } else {
                snaps[i].downloaded
            };
            acc = match acc {
                None => Some(ri),
                Some(m) => Some(
                    if ri < m {
                        ri
                    } else {
                        m
                    },
                ),
            };
        }
        i = i + 1;
    }
    let threshold = match acc {
        None => 0,
        Some(m) => m,
    };

    // The verdicts.
    let mut r: Vec<bool> = Vec::new();
    let mut i: usize = 0;
    while i < n
        invariant
            i <= n,
            n == snaps@.len(),
            preferred@.len() == n,
            forall|t: int| 0 <= t < n ==> preferred@[t] == spec_preferred(snaps@, by_upload, t),
            threshold == spec_threshold(snaps@, by_upload),
            r@.len() == i,
            forall|t: int|
                0 <= t < i ==> r@[t] == (spec_preferred(snaps@, by_upload, t) || spec_aux(
                    snaps@[t],
                    spec_threshold(snaps@, by_upload),
                    by_upload,
                )),
        decreases n - i,
    {
        let s = &snaps[i];
        let aux = if by_upload {
            !s.state.peer_interested && (s.uploaded > threshold || threshold == 0)
        } else {
            !s.state.peer_choked && !s.state.peer_interested && (s.downloaded > threshold
                || threshold == 0)
        };
        r.push(preferred[i] || aux);
        i = i + 1;
    }
    r
}

/// One peer as the choker sees it: the handle the caller knows it by, the
/// inbox of its sender thread, and the latest snapshot.
pub struct ChokePeer {
    pub handle: u64,
    tx: Sender<Command>,
    pub snapshot: Snapshot,
}

impl ChokePeer {
    /// The handle the caller knows this peer by.
    pub closed spec fn spec_handle(&self) -> u64 {
        self.handle
    }

    /// The latest recorded snapshot.
    pub closed spec fn spec_snapshot(&self) -> Snapshot {
        self.snapshot
    }

    pub fn new(handle: u64, tx: Sender<Command>) -> (r: Self)
        ensures
            r.spec_handle() == handle,
            r.spec_snapshot().downloaded == 0,
            r.spec_snapshot().uploaded == 0,
            r.spec_snapshot().state.client_choked,
            !r.spec_snapshot().state.client_interested,
            r.spec_snapshot().state.peer_choked,
            !r.spec_snapshot().state.peer_interested,
    {
        ChokePeer { handle, tx, snapshot: Snapshot::default() }
    }
}

/// Two snapshots carrying the same observations.
pub open spec fn spec_snapshot_is(a: Snapshot, b: Snapshot) -> bool {
    &&& a.downloaded == b.downloaded
    &&& a.uploaded == b.uploaded
    &&& a.availability@ == b.availability@
    &&& a.state == b.state
}

/// Whether `p` sat in the given pool or optimistic slot.
pub open spec fn spec_was_member(pool: Seq<ChokePeer>, slot: Option<ChokePeer>, p: ChokePeer) -> bool {
    pool.contains(p) || slot == Some(p)
}

/// One where the slot is occupied.
pub open spec fn spec_slot_count(slot: Option<ChokePeer>) -> int {
    if slot is Some {
        1
    } else {
        0
    }
}

/// A peer drawn from a pool of old members (possibly joined by the old
/// slot's peer) was an old member itself.
proof fn lemma_member_one(
    pool_pre: Seq<ChokePeer>,
    slot_pre: Option<ChokePeer>,
    live: Seq<ChokePeer>,
    mid: Seq<ChokePeer>,
    p: ChokePeer,
)
    requires
        forall|k: int| 0 <= k < live.len() ==> pool_pre.contains(#[trigger] live[k]),
        mid == live || (slot_pre matches Some(sp) && mid == live.push(sp)),
        mid.contains(p),
    ensures
        spec_was_member(pool_pre, slot_pre, p),
{
    let j = choose|j: int| 0 <= j < mid.len() && mid[j] == p;
    if j < live.len() {
        assert(pool_pre.contains(live[j]));
    }
}

/// Every peer of a pool drawn from old members is an old member.
proof fn lemma_members(
    pool_pre: Seq<ChokePeer>,
    slot_pre: Option<ChokePeer>,
    live: Seq<ChokePeer>,
    mid: Seq<ChokePeer>,
    post: Seq<ChokePeer>,
)
    requires
        forall|k: int| 0 <= k < live.len() ==> pool_pre.contains(#[trigger] live[k]),
        mid == live || (slot_pre matches Some(sp) && mid == live.push(sp)),
        post == mid || (forall|k: int| 0 <= k < post.len() ==> mid.contains(#[trigger] post[k])),
    ensures
        forall|k: int|
            0 <= k < post.len() ==> spec_was_member(pool_pre, slot_pre, #[trigger] post[k]),
{
    assert forall|k: int|
        0 <= k < post.len() implies spec_was_member(pool_pre, slot_pre, #[trigger] post[k]) by {
        if post == mid {
            assert(mid[k] == post[k]);
            assert(mid.contains(post[k]));
        }
        lemma_member_one(pool_pre, slot_pre, live, mid, post[k]);
    }
}

/// The controller's state: the live connections and at most one peer
/// holding the optimistic unchoke slot.
pub struct Choke {
    connections: Vec<ChokePeer>,
    optimistic_unchoke: Option<ChokePeer>,
}

impl Choke {
    /// The pooled peers, in order.
    pub closed spec fn spec_pool(&self) -> Seq<ChokePeer> {
        self.connections@
    }

    /// The optimistic slot.
    pub closed spec fn spec_slot(&self) -> Option<ChokePeer> {
        self.optimistic_unchoke
    }

    /// How many peers sit in the pool.
    pub closed spec fn spec_len(&self) -> nat {
        self.connections@.len()
    }

    /// Whether the optimistic slot is occupied.
    pub closed spec fn spec_has_optimistic(&self) -> bool {
        self.optimistic_unchoke is Some
    }

    pub fn new() -> (r: Self)
        ensures
            r.spec_len() == 0,
            !r.spec_has_optimistic(),
    {
        Choke { connections: Vec::new(), optimistic_unchoke: None }
    }

    /// Adopt one connection.
    pub fn add(&mut self, conn: ChokePeer)
        ensures
            final(self).spec_pool() == old(self).spec_pool().push(conn),
            final(self).spec_len() == old(self).spec_len() + 1,
            final(self).spec_slot() == old(self).spec_slot(),
            final(self).spec_has_optimistic() == old(self).spec_has_optimistic(),
    {
        self.connections.push(conn);
    }

    /// Record a fresh snapshot for the peer known by `handle`, wherever it
    /// sits: matching pool entries and a matching slot peer get the
    /// snapshot, everything else stays exactly as it was.
    pub fn update_snapshot(&mut self, handle: u64, snapshot: Snapshot)
        ensures
            final(self).spec_pool().len() == old(self).spec_pool().len(),
            forall|k: int|
                0 <= k < old(self).spec_pool().len() ==> {
                    let pre = #[trigger] old(self).spec_pool()[k];
                    let post = final(self).spec_pool()[k];
                    &&& post.spec_handle() == pre.spec_handle()
                    &&& (pre.spec_handle() == handle ==> spec_snapshot_is(
                        post.spec_snapshot(),
                        snapshot,
                    ))
                    &&& (pre.spec_handle() != handle ==> post == pre)
                },
            match old(self).spec_slot() {
                None => final(self).spec_slot() is None,
                Some(pre) => final(self).spec_slot() matches Some(post)
                    && post.spec_handle() == pre.spec_handle() && (pre.spec_handle() == handle
                    ==> spec_snapshot_is(post.spec_snapshot(), snapshot)) && (pre.spec_handle()
                    != handle ==> post == pre),
            },
    {
        let ghost pool_pre = self.connections@;
        let mut rebuilt: Vec<ChokePeer> = Vec::new();
        loop
            invariant
                pool_pre == old(self).connections@,
                self.optimistic_unchoke == old(self).optimistic_unchoke,
                rebuilt@.len() + self.connections@.len() == pool_pre.len(),
                self.connections@ == pool_pre.skip(rebuilt@.len() as int),
                forall|k: int|
                    0 <= k < rebuilt@.len() ==> {
                        let pre = #[trigger] pool_pre[k];
                        let post = rebuilt@[k];
                        &&& post.spec_handle() == pre.spec_handle()
                        &&& (pre.spec_handle() == handle ==> spec_snapshot_is(
                            post.spec_snapshot(),
                            snapshot,
                        ))
                        &&& (pre.spec_handle() != handle ==> post == pre)
                    },
            ensures
                self.connections@.len() == 0,
                rebuilt@.len() == pool_pre.len(),
                pool_pre == old(self).connections@,
                self.optimistic_unchoke == old(self).optimistic_unchoke,
                forall|k: int|
                    0 <= k < rebuilt@.len() ==> {
                        let pre = #[trigger] pool_pre[k];
                        let post = rebuilt@[k];
                        &&& post.spec_handle() == pre.spec_handle()
                        &&& (pre.spec_handle() == handle ==> spec_snapshot_is(
                            post.spec_snapshot(),
                            snapshot,
                        ))
                        &&& (pre.spec_handle() != handle ==> post == pre)
                    },
            decreases self.connections@.len(),
        {
            if self.connections.len() == 0 {
                break ;
            }
            let ghost done: int = rebuilt@.len() as int;
            let peer = self.connections.remove(0);
            proof {
                assert(peer == pool_pre[done]);
                assert(self.connections@ =~= pool_pre.skip(done + 1));
            }
            if peer.handle == handle {
                rebuilt.push(ChokePeer { handle: peer.handle, tx: peer.tx, snapshot: snapshot.clone() });
            } else {
                rebuilt.push(peer);
            }
        }
        self.connections = rebuilt;
        let slot = self.optimistic_unchoke.take();
        match slot {
            Some(peer) => {
                if peer.handle == handle {
                    self.optimistic_unchoke = Some(
                        ChokePeer { handle: peer.handle, tx: peer.tx, snapshot },
                    );
                } else {
                    self.optimistic_unchoke = Some(peer);
                }
            },
            None => {},
        }
    }

    /// Move one uniformly drawn peer out of the pool, for the optimistic
    /// slot.
    fn pick_optimistic_unchoke(&mut self) -> (r: Option<ChokePeer>)
        ensures
            final(self).spec_slot() == old(self).spec_slot(),
            old(self).spec_len() == 0 ==> r is None && final(self).spec_pool() == old(
                self,
            ).spec_pool(),
            old(self).spec_len() > 0 ==> (r matches Some(p) && old(self).spec_pool().contains(p))
                && final(self).spec_len() == old(self).spec_len() - 1 && (forall|k: int|
                0 <= k < final(self).spec_pool().len() ==> old(self).spec_pool().contains(
                    #[trigger] final(self).spec_pool()[k],
                )),
    {
        if self.connections.len() == 0 {
            return None;
        }
        let at = random_below(self.connections.len());
        let picked = self.connections.swap_remove(at);
        proof {
            assert(old(self).connections@[at as int] == picked);
            assert(old(self).connections@.contains(picked));
            assert forall|k: int|
                0 <= k < self.connections@.len() implies old(self).connections@.contains(
                #[trigger] self.connections@[k],
            ) by {
                assert(self.connections@[k] == old(self).connections@[if k == at {
                    old(self).connections@.len() - 1
                } else {
                    k
                }]);
            }
        }
        Some(picked)
    }

    /// The start of a tick: drop connections whose sender thread is gone
    /// (their inbox refuses a ping), then fill or rotate the optimistic
    /// slot.
    pub fn setup(&mut self, optimistic_unchoke: bool)
        ensures
            final(self).spec_len() <= old(self).spec_len() + 1,
            final(self).spec_pool().len() + spec_slot_count(final(self).spec_slot()) <= old(
                self,
            ).spec_pool().len() + spec_slot_count(old(self).spec_slot()),
            forall|k: int|
                0 <= k < final(self).spec_pool().len() ==> spec_was_member(
                    old(self).spec_pool(),
                    old(self).spec_slot(),
                    #[trigger] final(self).spec_pool()[k],
                ),
            final(self).spec_slot() matches Some(p) ==> spec_was_member(
                old(self).spec_pool(),
                old(self).spec_slot(),
                p,
            ),
    {
        // Prune dead connections.
        let ghost pool_pre = self.spec_pool();
        let mut live: Vec<ChokePeer> = Vec::new();
        loop
            invariant
                pool_pre == old(self).connections@,
                self.optimistic_unchoke == old(self).optimistic_unchoke,
                live@.len() + self.connections@.len() <= pool_pre.len(),
                forall|k: int|
                    0 <= k < self.connections@.len() ==> pool_pre.contains(
                        #[trigger] self.connections@[k],
                    ),
                forall|k: int| 0 <= k < live@.len() ==> pool_pre.contains(#[trigger] live@[k]),
            ensures
                self.connections@.len() == 0,
                live@.len() <= pool_pre.len(),
                pool_pre == old(self).connections@,
                self.optimistic_unchoke == old(self).optimistic_unchoke,
                forall|k: int| 0 <= k < live@.len() ==> pool_pre.contains(#[trigger] live@[k]),
            decreases self.connections@.len(),
        {
            let ghost before = self.connections@;
            let peer = match self.connections.pop() {
                Some(p) => p,
                None => { break ; },
            };
            proof {
                assert(before[before.len() - 1] == peer);
                assert(pool_pre.contains(peer));
            }
            if channel_send(&peer.tx, Command::Ping) {
                live.push(peer);
            }
        }
        self.connections = live;

        // Fill an empty or dead slot at once; on a scheduled rotation put
        // the slot's peer back in the pool and draw a fresh one.
        let ghost live_v = self.spec_pool();
        let ghost slot_pre = old(self).spec_slot();
        let slot = self.optimistic_unchoke.take();
        match slot {
            None => {
                let picked = self.pick_optimistic_unchoke();
                proof {
                    if live_v.len() == 0 {
                        assert(self.spec_pool() == live_v);
                    } else {
                        assert(forall|k: int|
                            0 <= k < self.spec_pool().len() ==> live_v.contains(
                                #[trigger] self.spec_pool()[k],
                            ));
                    }
                    lemma_members(pool_pre, slot_pre, live_v, live_v, self.spec_pool());
                    match &picked {
                        Some(p) => lemma_member_one(pool_pre, slot_pre, live_v, live_v, *p),
                        None => (),
                    }
                }
                self.optimistic_unchoke = picked;
            },
            Some(peer) => {
                if !channel_send(&peer.tx, Command::Ping) {
                    let picked = self.pick_optimistic_unchoke();
                    proof {
                        if live_v.len() == 0 {
                            assert(self.spec_pool() == live_v);
                        } else {
                            assert(forall|k: int|
                                0 <= k < self.spec_pool().len() ==> live_v.contains(
                                    #[trigger] self.spec_pool()[k],
                                ));
                        }
                        lemma_members(pool_pre, slot_pre, live_v, live_v, self.spec_pool());
                        match &picked {
                            Some(p) => lemma_member_one(pool_pre, slot_pre, live_v, live_v, *p),
                            None => (),
                        }
                    }
                    self.optimistic_unchoke = picked;
                } else if optimistic_unchoke {
                    self.connections.push(peer);
                    let ghost mid = self.spec_pool();
                    let picked = self.pick_optimistic_unchoke();
                    proof {
                        if mid.len() == 0 {
                            assert(self.spec_pool() == mid);
                        } else {
                            assert(forall|k: int|
                                0 <= k < self.spec_pool().len() ==> mid.contains(
                                    #[trigger] self.spec_pool()[k],
                                ));
                        }
                        lemma_members(pool_pre, slot_pre, live_v, mid, self.spec_pool());
                        match &picked {
                            Some(p) => lemma_member_one(pool_pre, slot_pre, live_v, mid, *p),
                            None => (),
                        }
                    }
                    self.optimistic_unchoke = picked;
                } else {
                    self.optimistic_unchoke = Some(peer);
                }
            },
        }
    }

    /// One tick: prune and rotate, judge every pooled peer by `decide`
    /// over the snapshots, and send a choke or unchoke to everyone whose
    /// recorded state disagrees with the verdict; the slot's peer is
    /// unchoked unconditionally.
    fn tick(&mut self, optimistic_unchoke: bool, by_upload: bool)
        ensures
            final(self).spec_len() <= old(self).spec_len() + 1,
            final(self).spec_pool().len() + spec_slot_count(final(self).spec_slot()) <= old(
                self,
            ).spec_pool().len() + spec_slot_count(old(self).spec_slot()),
            forall|k: int|
                0 <= k < final(self).spec_pool().len() ==> spec_was_member(
                    old(self).spec_pool(),
                    old(self).spec_slot(),
                    #[trigger] final(self).spec_pool()[k],
                ),
            final(self).spec_slot() matches Some(p) ==> spec_was_member(
                old(self).spec_pool(),
                old(self).spec_slot(),
                p,
            ),
    {
        self.setup(optimistic_unchoke);

        let n = self.connections.len();
        let mut snaps: Vec<Snapshot> = Vec::new();
        let mut i: usize = 0;
        while i < n
            invariant
                i <= n,
                n == self.connections@.len(),
                snaps@.len() == i,
            decreases n - i,
        {
            snaps.push(self.connections[i].snapshot.clone());
            i = i + 1;
        }
        let verdicts = decide(&snaps, by_upload);

        let mut i: usize = 0;
        while i < n
            invariant
                i <= n,
                n == self.connections@.len(),
                verdicts@.len() == n,
            decreases n - i,
        {
            let peer = &self.connections[i];
            if verdicts[i] {
                if peer.snapshot.state.client_choked {
                    channel_send(&peer.tx, Command::Choke(false));
                }
            } else {
                if !peer.snapshot.state.client_choked {
                    channel_send(&peer.tx, Command::Choke(true));
                }
            }
            i = i + 1;
        }

        match &self.optimistic_unchoke {
            Some(peer) => {
                if peer.snapshot.state.client_choked {
                    channel_send(&peer.tx, Command::Choke(false));
                }
            },
            None => {},
        }
    }

    /// The download-phase tick: rank by bytes downloaded from each peer.
    pub fn download(&mut self, optimistic_unchoke: bool)
        ensures
            final(self).spec_len() <= old(self).spec_len() + 1,
            final(self).spec_pool().len() + spec_slot_count(final(self).spec_slot()) <= old(
                self,
            ).spec_pool().len() + spec_slot_count(old(self).spec_slot()),
            forall|k: int|
                0 <= k < final(self).spec_pool().len() ==> spec_was_member(
                    old(self).spec_pool(),
                    old(self).spec_slot(),
                    #[trigger] final(self).spec_pool()[k],
                ),
            final(self).spec_slot() matches Some(p) ==> spec_was_member(
                old(self).spec_pool(),
                old(self).spec_slot(),
                p,
            ),
    {
        self.tick(optimistic_unchoke, false);
    }

    /// The seed-phase tick: rank by bytes served to each peer.
    pub fn upload(&mut self, optimistic_unchoke: bool)
        ensures
            final(self).spec_len() <= old(self).spec_len() + 1,
            final(self).spec_pool().len() + spec_slot_count(final(self).spec_slot()) <= old(
                self,
            ).spec_pool().len() + spec_slot_count(old(self).spec_slot()),
            forall|k: int|
                0 <= k < final(self).spec_pool().len() ==> spec_was_member(
                    old(self).spec_pool(),
                    old(self).spec_slot(),
                    #[trigger] final(self).spec_pool()[k],
                ),
            final(self).spec_slot() matches Some(p) ==> spec_was_member(
                old(self).spec_pool(),
                old(self).spec_slot(),
                p,
            ),
    {
        self.tick(optimistic_unchoke, true);
    }
}

} // verus!
