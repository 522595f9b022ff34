//! The walk cache: the forward store, the reverse index, and targeted
//! invalidation.

use vstd::prelude::*;

use crate::graph::MyGraph;
use crate::node::NodeId;
use crate::walk::{has_viable_out, sample_walk, seq_uses_edge, walk_shape_ok, walk_uses_edge, RandomWalk};

verus! {

/// One cached walk: the ego it was seeded at, the walk itself, and whether
/// it is still valid.  An invalidated walk stays in place as a tombstone so
/// that the positions held by the reverse index never shift.
pub struct StoredWalk {
    /// The ego the walk was sampled for.
    pub ego: NodeId,
    /// The sampled walk.
    pub walk: RandomWalk,
    /// Whether the walk is still valid: every edge it traversed is
    /// unchanged since it was sampled.
    pub valid: bool,
}

/// The cache of sampled walks, with a reverse index from node to the
/// positions of the valid walks that visit it.
///
/// The index makes invalidation cost proportional to the number of stored
/// walks passing through the mutated edge's source, not to the size of the
/// whole corpus.  Its consistency with the forward store — no valid walk
/// uncounted, no entry referencing a walk that is not stored and valid — is
/// the [`WalkStorage::wf`] invariant that every operation preserves.
pub struct WalkStorage {
    /// The forward store: every walk ever added, tombstones included.
    pub walks: Vec<StoredWalk>,
    /// The reverse index: per node, the positions in `walks` of the valid
    /// walks that visit it.
    pub index: Vec<(NodeId, Vec<usize>)>,
}

/// The walks of `ws` that are valid and seeded at `ego`, oldest first,
/// reduced to their node lists: what rank aggregation reads.
pub open spec fn ego_walks_seq(ws: Seq<StoredWalk>, ego: NodeId) -> Seq<Seq<NodeId>>
    decreases ws.len(),
{
    if ws.len() == 0 {
        Seq::empty()
    } else {
        let rest = ego_walks_seq(ws.drop_last(), ego);
        if ws.last().valid && ws.last().ego == ego {
            rest.push(ws.last().walk.nodes@)
        } else {
            rest
        }
    }
}

/// Two stores whose entries agree pointwise on ego and nodes, and on
/// validity wherever the ego matches, have the same view for that ego.
pub proof fn lemma_ego_walks_pointwise(ws1: Seq<StoredWalk>, ws2: Seq<StoredWalk>, ego: NodeId)
    requires
        ws1.len() == ws2.len(),
        forall|p: int|
            0 <= p < ws1.len() ==> (#[trigger] ws2[p]).ego == ws1[p].ego && ws2[p].walk.nodes@
                == ws1[p].walk.nodes@ && (ws1[p].ego == ego ==> ws2[p].valid == ws1[p].valid),
    ensures
        ego_walks_seq(ws2, ego) == ego_walks_seq(ws1, ego),
    decreases ws1.len(),
{
    if ws1.len() > 0 {
        assert(ws2.drop_last().len() == ws1.drop_last().len());
        assert forall|p: int|
            0 <= p < ws1.drop_last().len() implies (#[trigger] ws2.drop_last()[p]).ego
            == ws1.drop_last()[p].ego && ws2.drop_last()[p].walk.nodes@
            == ws1.drop_last()[p].walk.nodes@ && (ws1.drop_last()[p].ego == ego
            ==> ws2.drop_last()[p].valid == ws1.drop_last()[p].valid) by {
            assert(ws2.drop_last()[p] == ws2[p]);
            assert(ws1.drop_last()[p] == ws1[p]);
        }
        lemma_ego_walks_pointwise(ws1.drop_last(), ws2.drop_last(), ego);
        assert(ws2.last().ego == ws1.last().ego);
    }
}

/// Appending a walk appends its node list to its own ego's view and leaves
/// every other ego's view unchanged.
pub proof fn lemma_ego_walks_push(ws: Seq<StoredWalk>, w: StoredWalk, ego: NodeId)
    ensures
        w.valid && w.ego == ego ==> ego_walks_seq(ws.push(w), ego) == ego_walks_seq(
            ws,
            ego,
        ).push(w.walk.nodes@),
        !(w.valid && w.ego == ego) ==> ego_walks_seq(ws.push(w), ego) == ego_walks_seq(ws, ego),
{
    assert(ws.push(w).drop_last() =~= ws);
    assert(ws.push(w).last() == w);
}

/// Every element of the per-ego view is the node list of some stored
/// valid walk seeded at that ego.
pub proof fn lemma_ego_walks_elements(ws: Seq<StoredWalk>, ego: NodeId, k: int)
    requires
        0 <= k < ego_walks_seq(ws, ego).len(),
    ensures
        exists|p: int|
            0 <= p < ws.len() && (#[trigger] ws[p]).valid && ws[p].ego == ego && ws[p].walk.nodes@
                == ego_walks_seq(ws, ego)[k],
    decreases ws.len(),
{
    let view = ego_walks_seq(ws, ego);
    let rest = ego_walks_seq(ws.drop_last(), ego);
    if ws.last().valid && ws.last().ego == ego && k == rest.len() {
        let p = ws.len() - 1;
        assert(ws[p].valid && ws[p].ego == ego && ws[p].walk.nodes@ == view[k]);
    } else {
        lemma_ego_walks_elements(ws.drop_last(), ego, k);
        let p = choose|p: int|
            0 <= p < ws.drop_last().len() && (#[trigger] ws.drop_last()[p]).valid
                && ws.drop_last()[p].ego == ego && ws.drop_last()[p].walk.nodes@ == ego_walks_seq(
                ws.drop_last(),
                ego,
            )[k];
        assert(ws[p] == ws.drop_last()[p]);
        assert(ws[p].valid && ws[p].ego == ego && ws[p].walk.nodes@ == view[k]);
    }
}

/// Every stored valid walk seeded at `ego` appears in the per-ego view.
pub proof fn lemma_ego_walks_complete(ws: Seq<StoredWalk>, ego: NodeId, p: int)
    requires
        0 <= p < ws.len(),
        ws[p].valid,
        ws[p].ego == ego,
    ensures
        exists|k: int|
            0 <= k < ego_walks_seq(ws, ego).len() && #[trigger] ego_walks_seq(ws, ego)[k]
                == ws[p].walk.nodes@,
    decreases ws.len(),
{
    let view = ego_walks_seq(ws, ego);
    let rest = ego_walks_seq(ws.drop_last(), ego);
    if p == ws.len() - 1 {
        assert(view[rest.len() as int] == ws[p].walk.nodes@);
    } else {
        assert(ws.drop_last()[p] == ws[p]);
        lemma_ego_walks_complete(ws.drop_last(), ego, p);
        let k = choose|k: int|
            0 <= k < rest.len() && #[trigger] rest[k] == ws.drop_last()[p].walk.nodes@;
        assert(view[k] == rest[k]);
    }
}

impl WalkStorage {
    /// Whether the reverse index has an entry for `n`.
    pub open spec fn has_entry(self, n: NodeId) -> bool {
        exists|e: int| 0 <= e < self.index@.len() && (#[trigger] self.index@[e]).0 == n
    }

    /// The position of `n`'s entry in the reverse index.
    pub open spec fn entry_index(self, n: NodeId) -> int
        recommends
            self.has_entry(n),
    {
        choose|e: int| 0 <= e < self.index@.len() && (#[trigger] self.index@[e]).0 == n
    }

    /// Whether the reverse index records that the walk at position `p`
    /// visits node `n`.
    pub open spec fn indexed(self, n: NodeId, p: usize) -> bool {
        self.has_entry(n) && self.index@[self.entry_index(n)].1@.contains(p)
    }

    /// Index keys are pairwise distinct: one entry per node.
    pub open spec fn keys_distinct(self) -> bool {
        forall|e: int, f: int|
            0 <= e < f < self.index@.len() ==> (#[trigger] self.index@[e]).0 != (
            #[trigger] self.index@[f]).0
    }

    /// The positions within each index entry are pairwise distinct.
    pub open spec fn entries_distinct(self) -> bool {
        forall|e: int, q: int, r: int|
            0 <= e < self.index@.len() && 0 <= q < r < self.index@[e].1@.len() ==> (
            #[trigger] self.index@[e].1@[q]) != (#[trigger] self.index@[e].1@[r])
    }

    /// Every recorded position points at a stored valid walk that really
    /// visits the key node: the index claims nothing false.
    pub open spec fn index_sound(self) -> bool {
        forall|e: int, q: int|
            0 <= e < self.index@.len() && 0 <= q < self.index@[e].1@.len() ==> {
                let p = #[trigger] self.index@[e].1@[q];
                &&& p < self.walks@.len()
                &&& self.walks@[p as int].valid
                &&& self.walks@[p as int].walk.nodes@.contains(self.index@[e].0)
            }
    }

    /// Every node of every valid walk is recorded under that node's entry:
    /// the index misses nothing.
    pub open spec fn walks_indexed(self) -> bool {
        forall|p: int, k: int|
            0 <= p < self.walks@.len() && (#[trigger] self.walks@[p]).valid && 0 <= k
                < self.walks@[p].walk.nodes@.len() ==> self.indexed(
                #[trigger] self.walks@[p].walk.nodes@[k],
                p as usize,
            )
    }

    /// Consistency of the reverse index with the forward store: the index
    /// claims nothing false and misses nothing, with one entry per node and
    /// no position counted twice.
    pub open spec fn wf(self) -> bool {
        &&& self.keys_distinct()
        &&& self.entries_distinct()
        &&& self.index_sound()
        &&& self.walks_indexed()
    }

    /// With distinct keys, the entry at position `e` is found at `e`.
    pub proof fn lemma_entry_at_index(self, e: int)
        requires
            self.keys_distinct(),
            0 <= e < self.index@.len(),
        ensures
            self.has_entry(self.index@[e].0),
            self.entry_index(self.index@[e].0) == e,
    {
        let n = self.index@[e].0;
        assert(self.has_entry(n));
        let f = self.entry_index(n);
        if f != e {
            if f < e {
                assert(self.index@[f].0 != self.index@[e].0);
            } else {
                assert(self.index@[e].0 != self.index@[f].0);
            }
        }
    }

    /// Creates an empty cache.
    pub fn new() -> (s: WalkStorage)
        ensures
            s.wf(),
            s.walks@.len() == 0,
            s.index@.len() == 0,
            forall|ego: NodeId| ego_walks_seq(s.walks@, ego) == Seq::<Seq<NodeId>>::empty(),
    {
        let s = WalkStorage { walks: Vec::new(), index: Vec::new() };
        proof {
            assert forall|ego: NodeId|
                ego_walks_seq(s.walks@, ego) == Seq::<Seq<NodeId>>::empty() by {}
        }
        s
    }

    /// Drops every cached walk and the whole reverse index.
    pub fn clear(&mut self)
        ensures
            final(self).wf(),
            final(self).walks@.len() == 0,
            final(self).index@.len() == 0,
            forall|ego: NodeId| ego_walks_seq(final(self).walks@, ego) == Seq::<
                Seq<NodeId>,
            >::empty(),
    {
        self.walks = Vec::new();
        self.index = Vec::new();
    }

    /// The number of currently valid walks seeded at `ego`.
    pub fn count_for(&self, ego: NodeId) -> (n: usize)
        ensures
            n == ego_walks_seq(self.walks@, ego).len(),
    {
        let mut n: usize = 0;
        let mut p: usize = 0;
        while p < self.walks.len()
            invariant
                0 <= p <= self.walks@.len(),
                n == ego_walks_seq(self.walks@.take(p as int), ego).len(),
                n <= p,
            decreases self.walks@.len() - p,
        {
            proof {
                lemma_ego_walks_take_step(self.walks@, ego, p as int);
            }
            if self.walks[p].valid && self.walks[p].ego == ego {
                n = n + 1;
            }
            p = p + 1;
        }
        proof {
            assert(self.walks@.take(self.walks@.len() as int) =~= self.walks@);
        }
        n
    }

    /// Records in the reverse index that the walk at position `pos` visits
    /// node `n`; recording the same fact twice changes nothing.
    fn index_insert(&mut self, n: NodeId, pos: usize)
        requires
            old(self).keys_distinct(),
            old(self).entries_distinct(),
        ensures
            final(self).walks == old(self).walks,
            final(self).keys_distinct(),
            final(self).entries_distinct(),
            final(self).indexed(n, pos),
            forall|m: NodeId, q: usize|
                !(m == n && q == pos) ==> (#[trigger] final(self).indexed(m, q) <==> old(
                    self,
                ).indexed(m, q)),
    {
        let ghost pre = *self;
        let mut e: usize = 0;
        while e < self.index.len()
            invariant
                *self == pre,
                pre == *old(self),
                pre.keys_distinct(),
                pre.entries_distinct(),
                0 <= e <= self.index@.len(),
                forall|f: int| 0 <= f < e ==> (#[trigger] self.index@[f]).0 != n,
            decreases self.index@.len() - e,
        {
            if self.index[e].0 == n {
                proof {
                    pre.lemma_entry_at_index(e as int);
                }
                let mut q: usize = 0;
                let entry_len = self.index[e].1.len();
                while q < entry_len
                    invariant
                        *self == pre,
                        pre == *old(self),
                        pre.keys_distinct(),
                        pre.entries_distinct(),
                        0 <= e < self.index@.len(),
                        self.index@[e as int].0 == n,
                        pre.entry_index(n) == e as int,
                        entry_len == self.index@[e as int].1@.len(),
                        0 <= q <= entry_len,
                        forall|t: int|
                            0 <= t < q ==> (#[trigger] self.index@[e as int].1@[t]) != pos,
                    decreases entry_len - q,
                {
                    if self.index[e].1[q] == pos {
                        proof {
                            assert(pre.index@[e as int].1@.contains(pos));
                            assert(pre.indexed(n, pos));
                        }
                        return ;
                    }
                    q = q + 1;
                }
                // `pos` is not yet recorded under `n`: append it.
                let ghost oldlist = self.index@[e as int].1@;
                let entry = &mut self.index[e];
                entry.1.push(pos);
                proof {
                    let ei = e as int;
                    assert(self.index@ =~= pre.index@.update(ei, self.index@[ei]));
                    assert(self.index@[ei].0 == n);
                    assert(self.index@[ei].1@ =~= oldlist.push(pos));
                    assert forall|f: int|
                        0 <= f < self.index@.len() implies (#[trigger] self.index@[f]).0
                        == pre.index@[f].0 by {
                        if f != ei {
                            assert(self.index@[f] == pre.index@[f]);
                        }
                    }
                    assert(self.keys_distinct());
                    assert(self.entries_distinct()) by {
                        assert forall|f: int, q1: int, r1: int|
                            0 <= f < self.index@.len() && 0 <= q1 < r1
                                < self.index@[f].1@.len() implies (
                        #[trigger] self.index@[f].1@[q1]) != (#[trigger] self.index@[f].1@[r1]) by {
                            if f != ei {
                                assert(self.index@[f] == pre.index@[f]);
                            } else {
                                if r1 < oldlist.len() {
                                    assert(pre.index@[ei].1@[q1] != pre.index@[ei].1@[r1]);
                                } else {
                                    assert(self.index@[f].1@[r1] == pos);
                                    assert(self.index@[f].1@[q1] == oldlist[q1]);
                                }
                            }
                        }
                    }
                    assert(self.has_entry(n));
                    self.lemma_entry_at_index(ei);
                    assert(self.index@[ei].1@[oldlist.len() as int] == pos);
                    assert(self.index@[ei].1@.contains(pos));
                    assert(self.indexed(n, pos));
                    assert forall|m: NodeId, q2: usize|
                        !(m == n && q2 == pos) implies (#[trigger] self.indexed(m, q2) <==> pre
                        .indexed(m, q2)) by {
                        self.lemma_indexed_after_entry_update(pre, ei, n, pos, m, q2);
                    }
                }
                return ;
            }
            e = e + 1;
        }
        // No entry for `n` yet: append a fresh one.
        let fresh_list: Vec<usize> = vec![pos];
        let ghost fl = fresh_list;
        self.index.push((n, fresh_list));
        proof {
            let m0 = pre.index@.len() as int;
            assert(self.index@ =~= pre.index@.push((n, fl)));
            assert(fl@ =~= seq![pos]);
            assert forall|f: int| 0 <= f < m0 implies self.index@[f] == pre.index@[f] by {}
            assert(!pre.has_entry(n));
            assert(self.keys_distinct()) by {
                assert forall|e1: int, f1: int|
                    0 <= e1 < f1 < self.index@.len() implies (#[trigger] self.index@[e1]).0 != (
                #[trigger] self.index@[f1]).0 by {
                    if f1 == m0 {
                        assert(pre.index@[e1].0 != n);
                    }
                }
            }
            assert(self.entries_distinct()) by {
                assert forall|e1: int, q1: int, r1: int|
                    0 <= e1 < self.index@.len() && 0 <= q1 < r1
                        < self.index@[e1].1@.len() implies (#[trigger] self.index@[e1].1@[q1]) != (
                #[trigger] self.index@[e1].1@[r1]) by {
                    if e1 < m0 {
                        assert(self.index@[e1] == pre.index@[e1]);
                    } else {
                        assert(self.index@[e1].1@.len() == 1);
                    }
                }
            }
            assert(self.index@[m0].0 == n);
            assert(self.has_entry(n));
            self.lemma_entry_at_index(m0);
            assert(self.index@[m0].1@[0] == pos);
            assert(self.index@[m0].1@.contains(pos));
            assert(self.indexed(n, pos));
            assert forall|m: NodeId, q2: usize|
                !(m == n && q2 == pos) implies (#[trigger] self.indexed(m, q2) <==> pre.indexed(
                m,
                q2,
            )) by {
                if m == n {
                    assert(!pre.has_entry(n));
                    assert(!pre.indexed(m, q2));
                    assert(self.entry_index(n) == m0);
                    if self.index@[m0].1@.contains(q2) {
                        let t = choose|t: int|
                            0 <= t < self.index@[m0].1@.len() && self.index@[m0].1@[t] == q2;
                        assert(self.index@[m0].1@[t] == pos);
                    }
                } else {
                    if pre.has_entry(m) {
                        let f = pre.entry_index(m);
                        pre.lemma_entry_at_index(f);
                        assert(self.index@[f].0 == m);
                        self.lemma_entry_at_index(f);
                        assert(self.entry_index(m) == f);
                        assert(self.index@[f] == pre.index@[f]);
                    } else {
                        if self.has_entry(m) {
                            let f = self.entry_index(m);
                            assert(self.index@[f].0 == m);
                            assert(f == m0);
                            assert(false);
                        }
                    }
                }
            }
        }
    }

    /// After appending a position to one entry's list, index observations
    /// other than the new fact are unchanged.
    proof fn lemma_indexed_after_entry_update(
        self,
        pre: WalkStorage,
        ei: int,
        n: NodeId,
        pos: usize,
        m: NodeId,
        q: usize,
    )
        requires
            pre.keys_distinct(),
            self.keys_distinct(),
            0 <= ei < pre.index@.len(),
            self.index@.len() == pre.index@.len(),
            pre.index@[ei].0 == n,
            self.index@[ei].0 == n,
            self.index@[ei].1@ == pre.index@[ei].1@.push(pos),
            forall|f: int| 0 <= f < self.index@.len() && f != ei ==> #[trigger] self.index@[f]
                == pre.index@[f],
            !(m == n && q == pos),
        ensures
            self.indexed(m, q) <==> pre.indexed(m, q),
    {
        pre.lemma_entry_at_index(ei);
        self.lemma_entry_at_index(ei);
        if m == n {
            assert(pre.entry_index(n) == ei);
            assert(self.entry_index(n) == ei);
            if pre.index@[ei].1@.contains(q) {
                let t = choose|t: int|
                    0 <= t < pre.index@[ei].1@.len() && pre.index@[ei].1@[t] == q;
                assert(self.index@[ei].1@[t] == q);
            }
            if self.index@[ei].1@.contains(q) {
                let t = choose|t: int|
                    0 <= t < self.index@[ei].1@.len() && self.index@[ei].1@[t] == q;
                assert(t < pre.index@[ei].1@.len());
                assert(pre.index@[ei].1@[t] == q);
            }
        } else {
            if pre.has_entry(m) {
                let f = pre.entry_index(m);
                pre.lemma_entry_at_index(f);
                assert(f != ei);
                assert(self.index@[f] == pre.index@[f]);
                self.lemma_entry_at_index(f);
            } else if self.has_entry(m) {
                let f = self.entry_index(m);
                assert(self.index@[f].0 == m);
                assert(f != ei);
                assert(pre.index@[f].0 == m);
                assert(false);
            }
        }
    }

    /// Stores one freshly sampled walk for `ego` and records every node it
    /// visits in the reverse index, in the same operation.
    pub fn add_walk(&mut self, ego: NodeId, walk: RandomWalk)
        requires
            old(self).wf(),
        ensures
            final(self).wf(),
            final(self).walks@.len() == old(self).walks@.len() + 1,
            forall|p: int|
                0 <= p < old(self).walks@.len() ==> #[trigger] final(self).walks@[p] == old(
                    self,
                ).walks@[p],
            final(self).walks@.last().valid,
            final(self).walks@.last().ego == ego,
            final(self).walks@.last().walk.nodes@ == walk.nodes@,
            forall|e: NodeId| #[trigger]
                ego_walks_seq(final(self).walks@, e) == if e == ego {
                    ego_walks_seq(old(self).walks@, e).push(walk.nodes@)
                } else {
                    ego_walks_seq(old(self).walks@, e)
                },
    {
        let ghost pre = *self;
        let pos = self.walks.len();
        let ghost wnodes = walk.nodes@;
        let stored = StoredWalk { ego, walk, valid: true };
        let ghost sw = stored;
        self.walks.push(stored);
        proof {
            assert(self.walks@ =~= pre.walks@.push(sw));
            assert forall|e: NodeId| #[trigger]
                ego_walks_seq(self.walks@, e) == if e == ego {
                    ego_walks_seq(pre.walks@, e).push(wnodes)
                } else {
                    ego_walks_seq(pre.walks@, e)
                } by {
                lemma_ego_walks_push(pre.walks@, sw, e);
            }
        }
        let ghost mid = *self;
        let mut k: usize = 0;
        let total = self.walks[pos].walk.nodes.len();
        while k < total
            invariant
                0 <= k <= total,
                pos < self.walks@.len(),
                self.walks == mid.walks,
                self.walks@.len() == pre.walks@.len() + 1,
                total == self.walks@[pos as int].walk.nodes@.len(),
                self.walks@[pos as int].valid,
                self.keys_distinct(),
                self.entries_distinct(),
                // the index never claims anything it did not claim before,
                // except facts about the fresh walk's own nodes
                forall|m: NodeId, q: usize| #[trigger]
                    self.indexed(m, q) ==> pre.indexed(m, q) || (q == pos
                        && self.walks@[pos as int].walk.nodes@.contains(m)),
                // nothing previously recorded was lost
                forall|m: NodeId, q: usize|
                    #[trigger] pre.indexed(m, q) ==> self.indexed(m, q),
                // the fresh walk's first k nodes are recorded
                forall|kk: int|
                    0 <= kk < k ==> self.indexed(
                        #[trigger] self.walks@[pos as int].walk.nodes@[kk],
                        pos,
                    ),
                pre.wf(),
            decreases total - k,
        {
            let n = self.walks[pos].walk.nodes[k];
            let ghost before = *self;
            self.index_insert(n, pos);
            proof {
                assert(self.walks == before.walks);
                assert forall|m: NodeId, q: usize| #[trigger]
                    self.indexed(m, q) implies pre.indexed(m, q) || (q == pos
                        && self.walks@[pos as int].walk.nodes@.contains(m)) by {
                    if !(m == n && q == pos) {
                        assert(before.indexed(m, q));
                    } else {
                        assert(self.walks@[pos as int].walk.nodes@[k as int] == m);
                    }
                }
                assert forall|kk: int|
                    0 <= kk < k + 1 implies self.indexed(
                    #[trigger] self.walks@[pos as int].walk.nodes@[kk],
                    pos,
                ) by {
                    let m = self.walks@[pos as int].walk.nodes@[kk];
                    if kk < k {
                        assert(before.indexed(m, pos));
                        if !(m == n) {
                            assert(self.indexed(m, pos));
                        }
                    }
                }
            }
            k = k + 1;
        }
        proof {
            // soundness: every recorded fact is either an old sound fact
            // (about an untouched walk) or about the fresh walk itself
            assert(self.index_sound()) by {
                assert forall|e: int, q: int|
                    0 <= e < self.index@.len() && 0 <= q < self.index@[e].1@.len() implies {
                    let p = #[trigger] self.index@[e].1@[q];
                    &&& p < self.walks@.len()
                    &&& self.walks@[p as int].valid
                    &&& self.walks@[p as int].walk.nodes@.contains(self.index@[e].0)
                } by {
                    let p = self.index@[e].1@[q];
                    let m = self.index@[e].0;
                    self.lemma_entry_at_index(e);
                    assert(self.index@[e].1@.contains(p));
                    assert(self.indexed(m, p));
                    if pre.indexed(m, p) {
                        let f = pre.entry_index(m);
                        pre.lemma_entry_at_index(f);
                        let t = choose|t: int|
                            0 <= t < pre.index@[f].1@.len() && pre.index@[f].1@[t] == p;
                        assert(pre.walks@[p as int].valid);
                        assert(pre.walks@[p as int].walk.nodes@.contains(m));
                        assert(self.walks@[p as int] == pre.walks@[p as int]);
                    } else {
                        assert(p == pos && self.walks@[pos as int].walk.nodes@.contains(m));
                    }
                }
            }
            // completeness: old walks keep their records; the fresh walk
            // was fully recorded by the loop
            assert(self.walks_indexed()) by {
                assert forall|p: int, k2: int|
                    0 <= p < self.walks@.len() && (#[trigger] self.walks@[p]).valid && 0 <= k2
                        < self.walks@[p].walk.nodes@.len() implies self.indexed(
                    #[trigger] self.walks@[p].walk.nodes@[k2],
                    p as usize,
                ) by {
                    if p < pre.walks@.len() {
                        assert(self.walks@[p] == pre.walks@[p]);
                        assert(pre.indexed(pre.walks@[p].walk.nodes@[k2], p as usize));
                    } else {
                        assert(p == pos as int);
                    }
                }
            }
        }
    }

    /// Erases from the reverse index the record that the walk at position
    /// `p` visits node `n`; erasing an unrecorded fact changes nothing.
    fn index_remove(&mut self, n: NodeId, p: usize)
        requires
            old(self).keys_distinct(),
            old(self).entries_distinct(),
        ensures
            final(self).walks == old(self).walks,
            final(self).keys_distinct(),
            final(self).entries_distinct(),
            !final(self).indexed(n, p),
            forall|m: NodeId, q: usize|
                !(m == n && q == p) ==> (#[trigger] final(self).indexed(m, q) <==> old(
                    self,
                ).indexed(m, q)),
    {
        let ghost pre = *self;
        let mut e: usize = 0;
        while e < self.index.len()
            invariant
                *self == pre,
                pre == *old(self),
                pre.keys_distinct(),
                pre.entries_distinct(),
                0 <= e <= self.index@.len(),
                forall|f: int| 0 <= f < e ==> (#[trigger] self.index@[f]).0 != n,
            decreases self.index@.len() - e,
        {
            if self.index[e].0 == n {
                proof {
                    pre.lemma_entry_at_index(e as int);
                }
                let mut q: usize = 0;
                let entry_len = self.index[e].1.len();
                while q < entry_len
                    invariant
                        *self == pre,
                        pre == *old(self),
                        pre.keys_distinct(),
                        pre.entries_distinct(),
                        0 <= e < self.index@.len(),
                        self.index@[e as int].0 == n,
                        pre.entry_index(n) == e as int,
                        entry_len == self.index@[e as int].1@.len(),
                        0 <= q <= entry_len,
                        forall|t: int| 0 <= t < q ==> (#[trigger] self.index@[e as int].1@[t]) != p,
                    decreases entry_len - q,
                {
                    if self.index[e].1[q] == p {
                        let ghost oldlist = self.index@[e as int].1@;
                        {
                            let entry = &mut self.index[e];
                            entry.1.swap_remove(q);
                        }
                        proof {
                            let ei = e as int;
                            let qi = q as int;
                            let newlist = self.index@[ei].1@;
                            assert(self.index@ =~= pre.index@.update(ei, self.index@[ei]));
                            assert(newlist == oldlist.update(qi, oldlist.last()).drop_last());
                            assert forall|f: int|
                                0 <= f < self.index@.len() implies (#[trigger] self.index@[f]).0
                                == pre.index@[f].0 by {
                                if f != ei {
                                    assert(self.index@[f] == pre.index@[f]);
                                }
                            }
                            assert(self.keys_distinct());
                            // each slot of the shortened list carries an
                            // element of the old list from a distinct slot
                            assert forall|t: int|
                                0 <= t < newlist.len() implies newlist[t] == oldlist[if t == qi {
                                oldlist.len() - 1
                            } else {
                                t
                            }] by {}
                            assert(self.entries_distinct()) by {
                                assert forall|f: int, q1: int, r1: int|
                                    0 <= f < self.index@.len() && 0 <= q1 < r1
                                        < self.index@[f].1@.len() implies (
                                #[trigger] self.index@[f].1@[q1]) != (
                                #[trigger] self.index@[f].1@[r1]) by {
                                    if f != ei {
                                        assert(self.index@[f] == pre.index@[f]);
                                    } else {
                                        let q1o: int = if q1 == qi {
                                            oldlist.len() - 1
                                        } else {
                                            q1
                                        };
                                        let r1o: int = if r1 == qi {
                                            oldlist.len() - 1
                                        } else {
                                            r1
                                        };
                                        assert(oldlist[q1o] != oldlist[r1o]);
                                    }
                                }
                            }
                            self.lemma_entry_at_index(ei);
                            assert(self.entry_index(n) == ei);
                            assert(!self.indexed(n, p)) by {
                                if newlist.contains(p) {
                                    let t = choose|t: int|
                                        0 <= t < newlist.len() && newlist[t] == p;
                                    let to: int = if t == qi {
                                        oldlist.len() - 1
                                    } else {
                                        t
                                    };
                                    assert(oldlist[to] == p);
                                    assert(oldlist[qi] == p);
                                    assert(to != qi || t == qi);
                                    if to != qi {
                                        assert(oldlist[to] != oldlist[qi] || to == qi);
                                        assert(false);
                                    } else {
                                        assert(t == qi && qi == oldlist.len() - 1);
                                        assert(t < newlist.len());
                                        assert(newlist.len() == oldlist.len() - 1);
                                        assert(false);
                                    }
                                }
                            }
                            assert forall|m: NodeId, q2: usize|
                                !(m == n && q2 == p) implies (#[trigger] self.indexed(m, q2)
                                <==> pre.indexed(m, q2)) by {
                                if m == n {
                                    assert(pre.entry_index(n) == ei);
                                    if newlist.contains(q2) {
                                        let t = choose|t: int|
                                            0 <= t < newlist.len() && newlist[t] == q2;
                                        let to: int = if t == qi {
                                            oldlist.len() - 1
                                        } else {
                                            t
                                        };
                                        assert(oldlist[to] == q2);
                                        assert(oldlist.contains(q2));
                                    }
                                    if oldlist.contains(q2) {
                                        let t = choose|t: int|
                                            0 <= t < oldlist.len() && oldlist[t] == q2;
                                        assert(t != qi);
                                        if t == oldlist.len() - 1 {
                                            assert(qi < oldlist.len() - 1);
                                            assert(newlist[qi] == oldlist[t]);
                                            assert(newlist.contains(q2));
                                        } else {
                                            assert(newlist[t] == oldlist[t]);
                                            assert(newlist.contains(q2));
                                        }
                                    }
                                } else {
                                    if pre.has_entry(m) {
                                        let f = pre.entry_index(m);
                                        pre.lemma_entry_at_index(f);
                                        assert(f != ei);
                                        assert(self.index@[f] == pre.index@[f]);
                                        self.lemma_entry_at_index(f);
                                    } else {
                                        if self.has_entry(m) {
                                            let f = self.entry_index(m);
                                            assert(self.index@[f].0 == m);
                                            assert(pre.index@[f].0 == m);
                                            assert(false);
                                        }
                                    }
                                }
                            }
                        }
                        return ;
                    }
                    q = q + 1;
                }
                // `p` was never recorded under `n`.
                proof {
                    assert(!pre.index@[e as int].1@.contains(p)) by {
                        if pre.index@[e as int].1@.contains(p) {
                            let t = choose|t: int|
                                0 <= t < pre.index@[e as int].1@.len() && pre.index@[e as int].1@[t]
                                    == p;
                            assert(false);
                        }
                    }
                    assert(!pre.indexed(n, p));
                }
                return ;
            }
            e = e + 1;
        }
        proof {
            assert(!pre.has_entry(n)) by {
                if pre.has_entry(n) {
                    let f = pre.entry_index(n);
                    assert(pre.index@[f].0 == n);
                    assert(false);
                }
            }
            assert(!pre.indexed(n, p));
        }
    }

    /// Invalidates the walk at position `p`: erases every reverse-index
    /// record about it, then marks it invalid, leaving a tombstone whose
    /// ego and nodes are unchanged.
    fn kill_walk(&mut self, p: usize)
        requires
            old(self).wf(),
            p < old(self).walks@.len(),
            old(self).walks@[p as int].valid,
        ensures
            final(self).wf(),
            final(self).walks@.len() == old(self).walks@.len(),
            forall|p2: int|
                0 <= p2 < old(self).walks@.len() && p2 != p ==> #[trigger] final(self).walks@[p2]
                    == old(self).walks@[p2],
            final(self).walks@[p as int].ego == old(self).walks@[p as int].ego,
            final(self).walks@[p as int].walk == old(self).walks@[p as int].walk,
            !final(self).walks@[p as int].valid,
    {
        let ghost pre = *self;
        let total = self.walks[p].walk.nodes.len();
        let mut k: usize = 0;
        while k < total
            invariant
                pre == *old(self),
                pre.wf(),
                p < pre.walks@.len(),
                pre.walks@[p as int].valid,
                self.walks == pre.walks,
                total == pre.walks@[p as int].walk.nodes@.len(),
                0 <= k <= total,
                self.keys_distinct(),
                self.entries_distinct(),
                forall|m: NodeId, q: usize| #[trigger]
                    self.indexed(m, q) ==> pre.indexed(m, q),
                forall|m: NodeId, q: usize|
                    q != p && #[trigger] pre.indexed(m, q) ==> self.indexed(m, q),
                forall|kk: int|
                    0 <= kk < k ==> !self.indexed(
                        #[trigger] pre.walks@[p as int].walk.nodes@[kk],
                        p,
                    ),
            decreases total - k,
        {
            let n = self.walks[p].walk.nodes[k];
            let ghost before = *self;
            self.index_remove(n, p);
            proof {
                assert forall|kk: int|
                    0 <= kk < k + 1 implies !self.indexed(
                    #[trigger] pre.walks@[p as int].walk.nodes@[kk],
                    p,
                ) by {
                    let m = pre.walks@[p as int].walk.nodes@[kk];
                    if kk < k {
                        assert(!before.indexed(m, p));
                        if m != n {
                            assert(self.indexed(m, p) <==> before.indexed(m, p));
                        }
                    }
                }
            }
            k = k + 1;
        }
        proof {
            // no reference to `p` is left: any survivor would name a node
            // of the walk, and each of those was erased
            assert forall|m: NodeId| !self.indexed(m, p) by {
                if self.indexed(m, p) {
                    assert(pre.indexed(m, p));
                    let e = pre.entry_index(m);
                    pre.lemma_entry_at_index(e);
                    assert(pre.index@[e].1@.contains(p));
                    let t = choose|t: int|
                        0 <= t < pre.index@[e].1@.len() && pre.index@[e].1@[t] == p;
                    assert(pre.walks@[p as int].walk.nodes@.contains(m));
                    let kk = choose|kk: int|
                        0 <= kk < pre.walks@[p as int].walk.nodes@.len()
                            && pre.walks@[p as int].walk.nodes@[kk] == m;
                    assert(!self.indexed(m, p));
                }
            }
        }
        let ghost mid = *self;
        {
            let w = &mut self.walks[p];
            w.valid = false;
        }
        proof {
            assert(self.walks@ =~= mid.walks@.update(p as int, self.walks@[p as int]));
            assert(self.index == mid.index);
            assert forall|p2: int|
                0 <= p2 < self.walks@.len() && p2 != p implies #[trigger] self.walks@[p2]
                == pre.walks@[p2] by {
                assert(self.walks@[p2] == mid.walks@[p2]);
            }
            assert forall|m: NodeId, q: usize| #[trigger]
                self.indexed(m, q) <==> mid.indexed(m, q) by {}
            assert(self.wf()) by {
                assert(self.index_sound()) by {
                    assert forall|e: int, q: int|
                        0 <= e < self.index@.len() && 0 <= q < self.index@[e].1@.len() implies {
                        let pp = #[trigger] self.index@[e].1@[q];
                        &&& pp < self.walks@.len()
                        &&& self.walks@[pp as int].valid
                        &&& self.walks@[pp as int].walk.nodes@.contains(self.index@[e].0)
                    } by {
                        let pp = self.index@[e].1@[q];
                        let m = self.index@[e].0;
                        self.lemma_entry_at_index(e);
                        assert(self.index@[e].1@.contains(pp));
                        assert(self.indexed(m, pp));
                        assert(mid.indexed(m, pp));
                        assert(pre.indexed(m, pp));
                        let f = pre.entry_index(m);
                        pre.lemma_entry_at_index(f);
                        let t = choose|t: int|
                            0 <= t < pre.index@[f].1@.len() && pre.index@[f].1@[t] == pp;
                        assert(pre.walks@[pp as int].valid);
                        assert(pre.walks@[pp as int].walk.nodes@.contains(m));
                        assert(pp != p);
                        assert(self.walks@[pp as int] == pre.walks@[pp as int]);
                    }
                }
                assert(self.walks_indexed()) by {
                    assert forall|p2: int, k2: int|
                        0 <= p2 < self.walks@.len() && (#[trigger] self.walks@[p2]).valid && 0 <= k2
                            < self.walks@[p2].walk.nodes@.len() implies self.indexed(
                        #[trigger] self.walks@[p2].walk.nodes@[k2],
                        p2 as usize,
                    ) by {
                        assert(p2 != p);
                        assert(pre.walks@.len() == pre.walks.len());
                        assert((p2 as usize) as int == p2);
                        assert(p2 as usize != p);
                        assert(self.walks@[p2] == pre.walks@[p2]);
                        assert(pre.indexed(pre.walks@[p2].walk.nodes@[k2], p2 as usize));
                        assert(mid.indexed(pre.walks@[p2].walk.nodes@[k2], p2 as usize));
                    }
                }
            }
        }
    }

    /// The position of `n`'s entry in the reverse index, if any.
    fn find_entry(&self, n: NodeId) -> (found: Option<usize>)
        ensures
            match found {
                Some(e) => e < self.index@.len() && self.index@[e as int].0 == n,
                None => !self.has_entry(n),
            },
    {
        let mut e: usize = 0;
        while e < self.index.len()
            invariant
                0 <= e <= self.index@.len(),
                forall|f: int| 0 <= f < e ==> (#[trigger] self.index@[f]).0 != n,
            decreases self.index@.len() - e,
        {
            if self.index[e].0 == n {
                return Some(e);
            }
            e = e + 1;
        }
        None
    }

    /// Removes from storage every walk that traverses the directed edge
    /// `a -> b`, updating the reverse index in the same operation.  Walks
    /// that merely pass through `a` or `b` without taking that transition
    /// stay valid.  Costs time proportional to the walks passing through
    /// `a`, found through the reverse index, not to the whole corpus.
    pub fn invalidate(&mut self, a: NodeId, b: NodeId)
        requires
            old(self).wf(),
        ensures
            final(self).wf(),
            final(self).walks@.len() == old(self).walks@.len(),
            forall|p: int|
                0 <= p < old(self).walks@.len() ==> {
                    let w0 = #[trigger] old(self).walks@[p];
                    let w1 = final(self).walks@[p];
                    &&& w1.ego == w0.ego
                    &&& w1.walk == w0.walk
                    &&& w1.valid == (w0.valid && !seq_uses_edge(w0.walk.nodes@, a, b))
                },
    {
        let ghost pre = *self;
        let epos = match self.find_entry(a) {
            Some(e) => e,
            None => {
                // no valid walk visits `a` at all, so none uses the edge
                proof {
                    assert forall|p: int|
                        0 <= p < pre.walks@.len() && (#[trigger] pre.walks@[p]).valid implies !seq_uses_edge(
                        pre.walks@[p].walk.nodes@,
                        a,
                        b,
                    ) by {
                        if seq_uses_edge(pre.walks@[p].walk.nodes@, a, b) {
                            let q = choose|q: int|
                                0 <= q < pre.walks@[p].walk.nodes@.len() - 1 && (
                                #[trigger] pre.walks@[p].walk.nodes@[q]) == a
                                    && pre.walks@[p].walk.nodes@[q + 1] == b;
                            assert(pre.indexed(pre.walks@[p].walk.nodes@[q], p as usize));
                            assert(pre.has_entry(a));
                        }
                    }
                }
                return ;
            },
        };
        let candidates = copy_positions(&self.index[epos].1);
        let ghost cands = candidates@;
        proof {
            pre.lemma_entry_at_index(epos as int);
        }
        let mut c: usize = 0;
        while c < candidates.len()
            invariant
                pre == *old(self),
                pre.wf(),
                epos < pre.index@.len(),
                pre.index@[epos as int].0 == a,
                cands == candidates@,
                cands == pre.index@[epos as int].1@,
                0 <= c <= cands.len(),
                self.wf(),
                self.walks@.len() == pre.walks@.len(),
                // processed candidates are settled; unprocessed walks and
                // walks outside the candidate list are untouched
                forall|p: int|
                    0 <= p < pre.walks@.len() ==> {
                        let w0 = #[trigger] pre.walks@[p];
                        let w1 = self.walks@[p];
                        &&& w1.ego == w0.ego
                        &&& w1.walk == w0.walk
                        &&& (cands.take(c as int).contains(p as usize) ==> w1.valid == (w0.valid
                            && !seq_uses_edge(w0.walk.nodes@, a, b)))
                        &&& (!cands.take(c as int).contains(p as usize) ==> w1.valid == w0.valid)
                    },
            decreases cands.len() - c,
        {
            let p = candidates[c];
            proof {
                assert(cands[c as int] == p);
                assert(pre.index@[epos as int].1@.contains(p));
                assert(p < pre.walks@.len());
                assert(pre.walks@[p as int].valid);
                // `p` is not among the already-processed prefix, so it is
                // still in its original state
                assert(!cands.take(c as int).contains(p)) by {
                    if cands.take(c as int).contains(p) {
                        let t = choose|t: int|
                            0 <= t < cands.take(c as int).len() && (#[trigger] cands.take(c as int)[t]) == p;
                        assert(cands[t] == p);
                        assert(cands[c as int] == p);
                        assert(pre.entries_distinct());
                        assert(false);
                    }
                }
                assert(self.walks@[p as int].valid == pre.walks@[p as int].valid);
            }
            let uses = walk_uses_edge(&self.walks[p].walk.nodes, a, b);
            let ghost before = *self;
            if uses {
                self.kill_walk(p);
            }
            proof {
                assert(cands.take(c as int + 1) =~= cands.take(c as int).push(p));
                assert forall|p2: int|
                    0 <= p2 < pre.walks@.len() implies {
                    let w0 = #[trigger] pre.walks@[p2];
                    let w1 = self.walks@[p2];
                    &&& w1.ego == w0.ego
                    &&& w1.walk == w0.walk
                    &&& (cands.take(c as int + 1).contains(p2 as usize) ==> w1.valid == (w0.valid
                        && !seq_uses_edge(w0.walk.nodes@, a, b)))
                    &&& (!cands.take(c as int + 1).contains(p2 as usize) ==> w1.valid == w0.valid)
                } by {
                    if p2 == p {
                        assert(cands.take(c as int + 1).contains(p2 as usize)) by {
                            assert(cands.take(c as int + 1).last() == p);
                        }
                    } else {
                        assert(self.walks@[p2] == before.walks@[p2]);
                        assert(cands.take(c as int + 1).contains(p2 as usize) <==> cands.take(
                            c as int,
                        ).contains(p2 as usize)) by {
                            if cands.take(c as int + 1).contains(p2 as usize) {
                                let t = choose|t: int|
                                    0 <= t < cands.take(c as int + 1).len() && (#[trigger] cands.take(c as int + 1)[t]) == p2 as usize;
                                if t < c {
                                    assert(cands.take(c as int)[t] == p2 as usize);
                                } else {
                                    assert(t == c);
                                    assert(cands.take(c as int + 1)[t] == cands[c as int]);
                                    assert(p2 as usize == p);
                                    assert(pre.walks@.len() == pre.walks.len());
                                    assert((p2 as usize) as int == p2);
                                    assert(false);
                                }
                            }
                            if cands.take(c as int).contains(p2 as usize) {
                                let t = choose|t: int|
                                    0 <= t < cands.take(c as int).len() && (#[trigger] cands.take(c as int)[t]) == p2 as usize;
                                assert(cands.take(c as int + 1)[t] == p2 as usize);
                            }
                        }
                    }
                }
            }
            c = c + 1;
        }
        proof {
            // every walk using the edge visits `a`, so it was a candidate
            assert forall|p: int|
                0 <= p < pre.walks@.len() implies {
                let w0 = #[trigger] pre.walks@[p];
                let w1 = self.walks@[p];
                &&& w1.ego == w0.ego
                &&& w1.walk == w0.walk
                &&& w1.valid == (w0.valid && !seq_uses_edge(w0.walk.nodes@, a, b))
            } by {
                let w0 = pre.walks@[p];
                if w0.valid && seq_uses_edge(w0.walk.nodes@, a, b) {
                    let q = choose|q: int|
                        0 <= q < w0.walk.nodes@.len() - 1 && (#[trigger] w0.walk.nodes@[q]) == a
                            && w0.walk.nodes@[q + 1] == b;
                    assert(pre.indexed(w0.walk.nodes@[q], p as usize));
                    assert(pre.entry_index(a) == epos as int);
                    assert(cands.contains(p as usize));
                    assert(cands.take(cands.len() as int) =~= cands);
                } else {
                    if !cands.take(cands.len() as int).contains(p as usize) {
                        assert(self.walks@[p].valid == w0.valid);
                    } else {
                        assert(cands.take(cands.len() as int) =~= cands);
                    }
                }
            }
        }
    }

    /// Returns the node lists of the currently valid walks seeded at
    /// `ego`, first sampling and storing the deficit when fewer than
    /// `iterations` are valid.  A quota already met leaves the cache
    /// untouched, and an ego with no strictly positive outgoing edge can
    /// gain no walk, so its set is returned as it is.
    #[verifier::rlimit(60)]
    pub fn get_or_sample(&mut self, g: &MyGraph, ego: NodeId, iterations: usize) -> (r: Vec<
        Vec<NodeId>,
    >)
        requires
            old(self).wf(),
            g.wf(),
        ensures
            final(self).wf(),
            r@.map_values(|v: Vec<NodeId>| v@) == ego_walks_seq(final(self).walks@, ego),
            ego_walks_seq(old(self).walks@, ego).len() >= iterations ==> *final(self) == *old(self),
            !g.has_positive_out(ego) ==> *final(self) == *old(self),
            ego_walks_seq(final(self).walks@, ego).len() == (
            if ego_walks_seq(old(self).walks@, ego).len() >= iterations {
                ego_walks_seq(old(self).walks@, ego).len() as int
            } else if g.has_positive_out(ego) {
                iterations as int
            } else {
                ego_walks_seq(old(self).walks@, ego).len() as int
            }),
            forall|k: int|
                0 <= k < ego_walks_seq(old(self).walks@, ego).len() ==> #[trigger] ego_walks_seq(
                    final(self).walks@,
                    ego,
                )[k] == ego_walks_seq(old(self).walks@, ego)[k],
            forall|e: NodeId|
                e != ego ==> #[trigger] ego_walks_seq(final(self).walks@, e) == ego_walks_seq(
                    old(self).walks@,
                    e,
                ),
            forall|k: int|
                ego_walks_seq(old(self).walks@, ego).len() <= k < ego_walks_seq(
                    final(self).walks@,
                    ego,
                ).len() ==> walk_shape_ok(*g, ego, #[trigger] ego_walks_seq(final(self).walks@, ego)[k]),
            final(self).walks@.len() >= old(self).walks@.len(),
            forall|p: int|
                0 <= p < old(self).walks@.len() ==> #[trigger] final(self).walks@[p] == old(
                    self,
                ).walks@[p],
            forall|p: int|
                old(self).walks@.len() <= p < final(self).walks@.len() ==> (#[trigger] final(self).walks@[p]).valid && final(self).walks@[p].ego == ego && walk_shape_ok(
                    *g,
                    ego,
                    final(self).walks@[p].walk.nodes@,
                ),
    {
        let have = self.count_for(ego);
        if have >= iterations {
            return self.collect_for(ego);
        }
        if !has_viable_out(g, ego) {
            return self.collect_for(ego);
        }
        let ghost pre = *self;
        let mut added: usize = have;
        while added < iterations
            invariant
                pre.wf(),
                self.wf(),
                g.wf(),
                g.has_positive_out(ego),
                have == ego_walks_seq(pre.walks@, ego).len(),
                have <= added <= iterations,
                added == ego_walks_seq(self.walks@, ego).len(),
                forall|k: int|
                    0 <= k < ego_walks_seq(pre.walks@, ego).len() ==> #[trigger] ego_walks_seq(
                        self.walks@,
                        ego,
                    )[k] == ego_walks_seq(pre.walks@, ego)[k],
                forall|e: NodeId|
                    e != ego ==> #[trigger] ego_walks_seq(self.walks@, e) == ego_walks_seq(
                        pre.walks@,
                        e,
                    ),
                forall|k: int|
                    ego_walks_seq(pre.walks@, ego).len() <= k < ego_walks_seq(
                        self.walks@,
                        ego,
                    ).len() ==> walk_shape_ok(*g, ego, #[trigger] ego_walks_seq(self.walks@, ego)[k]),
                self.walks@.len() >= pre.walks@.len(),
                forall|p: int|
                    0 <= p < pre.walks@.len() ==> #[trigger] self.walks@[p] == pre.walks@[p],
                forall|p: int|
                    pre.walks@.len() <= p < self.walks@.len() ==> (#[trigger] self.walks@[p]).valid
                        && self.walks@[p].ego == ego && walk_shape_ok(
                        *g,
                        ego,
                        self.walks@[p].walk.nodes@,
                    ),
            decreases iterations - added,
        {
            let ghost before = *self;
            let w = sample_shaped(g, ego);
            let ghost wnodes = w.nodes@;
            self.add_walk(ego, w);
            proof {
                assert(ego_walks_seq(self.walks@, ego) == ego_walks_seq(
                    before.walks@,
                    ego,
                ).push(wnodes));
                assert forall|e: NodeId|
                    e != ego implies #[trigger] ego_walks_seq(self.walks@, e) == ego_walks_seq(
                    pre.walks@,
                    e,
                ) by {
                    assert(ego_walks_seq(self.walks@, e) == ego_walks_seq(before.walks@, e));
                }
                assert(self.walks@.last().walk.nodes@ == wnodes);
                assert(walk_shape_ok(*g, ego, wnodes));
            }
            added = added + 1;
        }
        self.collect_for(ego)
    }

    /// The node lists of the currently valid walks seeded at `ego`, oldest
    /// first: a snapshot for aggregation.
    pub fn collect_for(&self, ego: NodeId) -> (r: Vec<Vec<NodeId>>)
        ensures
            r@.map_values(|v: Vec<NodeId>| v@) == ego_walks_seq(self.walks@, ego),
    {
        let mut r: Vec<Vec<NodeId>> = Vec::new();
        let mut p: usize = 0;
        while p < self.walks.len()
            invariant
                0 <= p <= self.walks@.len(),
                r@.map_values(|v: Vec<NodeId>| v@) == ego_walks_seq(
                    self.walks@.take(p as int),
                    ego,
                ),
            decreases self.walks@.len() - p,
        {
            proof {
                lemma_ego_walks_take_step(self.walks@, ego, p as int);
            }
            if self.walks[p].valid && self.walks[p].ego == ego {
                let copied = copy_nodes(&self.walks[p].walk.nodes);
                let ghost rpre = r@;
                r.push(copied);
                proof {
                    assert(r@ =~= rpre.push(copied));
                    assert(r@.map_values(|v: Vec<NodeId>| v@) =~= rpre.map_values(
                        |v: Vec<NodeId>| v@,
                    ).push(copied@));
                }
            }
            p = p + 1;
        }
        proof {
            assert(self.walks@.take(self.walks@.len() as int) =~= self.walks@);
        }
        r
    }
}

/// Taking one more stored walk extends the per-ego view by that walk's
/// node list exactly when it is valid and seeded at `ego`.
pub proof fn lemma_ego_walks_take_step(ws: Seq<StoredWalk>, ego: NodeId, p: int)
    requires
        0 <= p < ws.len(),
    ensures
        ws[p].valid && ws[p].ego == ego ==> ego_walks_seq(ws.take(p + 1), ego) == ego_walks_seq(
            ws.take(p),
            ego,
        ).push(ws[p].walk.nodes@),
        !(ws[p].valid && ws[p].ego == ego) ==> ego_walks_seq(ws.take(p + 1), ego)
            == ego_walks_seq(ws.take(p), ego),
    decreases ws.len(),
{
    assert(ws.take(p + 1).drop_last() =~= ws.take(p));
    assert(ws.take(p + 1).last() == ws[p]);
}

/// The sampler as the walk cache sees it: only the walk's shape matters
/// for storing and indexing, so the termination detail of
/// [`sample_walk`]'s contract is dropped here to keep the top-up proof
/// small.
fn sample_shaped(g: &MyGraph, ego: NodeId) -> (w: RandomWalk)
    requires
        g.wf(),
        g.has_positive_out(ego),
    ensures
        walk_shape_ok(*g, ego, w.nodes@),
{
    sample_walk(g, ego)
}

/// Copies a position list element by element.
fn copy_positions(list: &Vec<usize>) -> (r: Vec<usize>)
    ensures
        r@ == list@,
{
    let mut r: Vec<usize> = Vec::new();
    let mut k: usize = 0;
    while k < list.len()
        invariant
            0 <= k <= list@.len(),
            r@ == list@.take(k as int),
        decreases list@.len() - k,
    {
        r.push(list[k]);
        proof {
            assert(list@.take(k as int + 1) =~= list@.take(k as int).push(list@[k as int]));
        }
        k = k + 1;
    }
    proof {
        assert(list@.take(list@.len() as int) =~= list@);
    }
    r
}

/// Copies a node list element by element.
fn copy_nodes(nodes: &Vec<NodeId>) -> (r: Vec<NodeId>)
    ensures
        r@ == nodes@,
{
    let mut r: Vec<NodeId> = Vec::new();
    let mut k: usize = 0;
    while k < nodes.len()
        invariant
            0 <= k <= nodes@.len(),
            r@ == nodes@.take(k as int),
        decreases nodes@.len() - k,
    {
        r.push(nodes[k]);
        proof {
            assert(nodes@.take(k as int + 1) =~= nodes@.take(k as int).push(nodes@[k as int]));
        }
        k = k + 1;
    }
    proof {
        assert(nodes@.take(nodes@.len() as int) =~= nodes@);
    }
    r
}

} // verus!
