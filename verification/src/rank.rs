//! The calculator that owns one graph and one walk cache and exposes
//! the ranking operations.

use vstd::prelude::*;

use crate::aggregate::{
    bump, count_in, lemma_count_in_le_len, lemma_count_in_take_step, lemma_pair_total,
    lemma_ranks_deterministic, lemma_sum_nums_le_total, lemma_tally_at_index,
    lemma_tally_same_keys, lemma_total_len_bound, lemma_total_take_le, lemma_visits_le_total,
    lemma_walks_take_step, pair_before, rank_before, score_num, sort_entries, sum_nums,
    tally_distinct, tally_has, tally_index, tally_val, total_len, visits, Score,
};
use crate::errors::MeritRankError;
use crate::graph::MyGraph;
use crate::node::{NodeId, Weight};
use crate::storage::{ego_walks_seq, WalkStorage};
use crate::walk::{lemma_path_survives_mutation, seq_uses_edge, walk_shape_ok, MAX_WALK_NODES};

verus! {

/// The ranking calculator: owns exactly one graph and one walk cache for
/// its whole lifetime, and is the unit a caller instantiates.  All
/// mutation goes through its methods, so that every topology change
/// triggers targeted invalidation of exactly the cached walks that
/// traversed the mutated edge.
pub struct MeritRank {
    /// The single source of truth for topology.
    pub graph: MyGraph,
    /// The cache of sampled walks with its reverse index.
    pub storage: WalkStorage,
}

impl MeritRank {
    /// The node lists of the currently valid cached walks for `ego`: what
    /// `get_ranks` aggregates.
    pub open spec fn cached(self, ego: NodeId) -> Seq<Seq<NodeId>> {
        ego_walks_seq(self.storage.walks@, ego)
    }

    /// Well-formedness: the graph and the cache are each well-formed, and
    /// every valid cached walk is consistent with the *current* graph —
    /// it starts at its ego and every hop it took still exists with a
    /// strictly positive weight.
    pub open spec fn wf(self) -> bool {
        &&& self.graph.wf()
        &&& self.storage.wf()
        &&& forall|p: int|
            0 <= p < self.storage.walks@.len() && (#[trigger] self.storage.walks@[p]).valid
                ==> walk_shape_ok(
                self.graph,
                self.storage.walks@[p].ego,
                self.storage.walks@[p].walk.nodes@,
            )
    }

    /// Creates a calculator that takes ownership of the given graph
    /// snapshot, with an empty walk cache.  This is the only constructor;
    /// it never fails.
    pub fn new(graph: MyGraph) -> (res: Result<MeritRank, MeritRankError>)
        requires
            graph.wf(),
        ensures
            match res {
                Ok(mr) => {
                    &&& mr.wf()
                    &&& mr.graph == graph
                    &&& mr.storage.walks@.len() == 0
                    &&& forall|e: NodeId| #[trigger] mr.cached(e) == Seq::<Seq<NodeId>>::empty()
                },
                Err(_) => false,
            },
    {
        let storage = WalkStorage::new();
        Ok(MeritRank { graph, storage })
    }

    /// Inserts or overwrites the directed edge `source -> target`, adding
    /// missing endpoints to the node set, and invalidates every cached
    /// walk that traversed that ordered pair.
    ///
    /// Fails with [`MeritRankError::SelfReferenceNotAllowed`] if and only
    /// if `source == target`, and with [`MeritRankError::InvalidNode`]
    /// otherwise if and only if either endpoint is the absent sentinel; a
    /// failed call changes nothing.
    pub fn add_edge(&mut self, source: NodeId, target: NodeId, weight: Weight) -> (res: Result<
        (),
        MeritRankError,
    >)
        requires
            old(self).wf(),
        ensures
            final(self).wf(),
            res is Err <==> (source == target || source is Absent || target is Absent),
            match res {
                Ok(()) => {
                    &&& forall|x: NodeId| #[trigger]
                        final(self).graph.has_node(x) <==> old(self).graph.has_node(x) || x
                            == source || x == target
                    &&& forall|a: NodeId, b: NodeId| #[trigger]
                        final(self).graph.has_edge(a, b) <==> old(self).graph.has_edge(a, b) || (
                        a == source && b == target)
                    &&& final(self).graph.edge_weight(source, target) == weight
                    &&& forall|a: NodeId, b: NodeId|
                        #[trigger] old(self).graph.has_edge(a, b) && !(a == source && b == target)
                            ==> final(self).graph.edge_weight(a, b) == old(self).graph.edge_weight(
                            a,
                            b,
                        )
                    &&& final(self).storage.walks@.len() == old(self).storage.walks@.len()
                    &&& forall|p: int|
                        0 <= p < old(self).storage.walks@.len() ==> {
                            let w0 = #[trigger] old(self).storage.walks@[p];
                            let w1 = final(self).storage.walks@[p];
                            &&& w1.ego == w0.ego
                            &&& w1.walk == w0.walk
                            &&& w1.valid == (w0.valid && !seq_uses_edge(
                                w0.walk.nodes@,
                                source,
                                target,
                            ))
                        }
                },
                Err(e) => {
                    &&& *final(self) == *old(self)
                    &&& (e == MeritRankError::SelfReferenceNotAllowed <==> source == target)
                    &&& (e == MeritRankError::InvalidNode <==> source != target && (source
                        is Absent || target is Absent))
                },
            },
    {
        let ghost pre = *self;
        match self.graph.add_edge(source, target, weight) {
            Err(e) => {
                proof {
                    assert(self.graph == pre.graph);
                    assert(*self == pre);
                }
                Err(e)
            },
            Ok(()) => {
                let ghost gmid = self.graph;
                self.storage.invalidate(source, target);
                proof {
                    assert(self.graph == gmid);
                    assert(self.wf()) by {
                        assert forall|p: int|
                            0 <= p < self.storage.walks@.len() && (
                            #[trigger] self.storage.walks@[p]).valid implies walk_shape_ok(
                            self.graph,
                            self.storage.walks@[p].ego,
                            self.storage.walks@[p].walk.nodes@,
                        ) by {
                            let w0 = pre.storage.walks@[p];
                            assert(w0.valid && !seq_uses_edge(w0.walk.nodes@, source, target));
                            assert(walk_shape_ok(pre.graph, w0.ego, w0.walk.nodes@));
                            lemma_path_survives_mutation(
                                pre.graph,
                                self.graph,
                                w0.walk.nodes@,
                                source,
                                target,
                            );
                        }
                    }
                }
                Ok(())
            },
        }
    }

    /// Removes the edge `source -> target` if it is present — removing an
    /// absent edge is a no-op, never an error — and invalidates every
    /// cached walk that traversed that ordered pair.
    pub fn remove_edge(&mut self, source: NodeId, target: NodeId)
        requires
            old(self).wf(),
        ensures
            final(self).wf(),
            forall|x: NodeId| #[trigger]
                final(self).graph.has_node(x) <==> old(self).graph.has_node(x),
            !final(self).graph.has_edge(source, target),
            forall|a: NodeId, b: NodeId|
                !(a == source && b == target) ==> (#[trigger] final(self).graph.has_edge(a, b)
                    <==> old(self).graph.has_edge(a, b)),
            forall|a: NodeId, b: NodeId|
                !(a == source && b == target) && #[trigger] old(self).graph.has_edge(a, b)
                    ==> final(self).graph.edge_weight(a, b) == old(self).graph.edge_weight(a, b),
            final(self).storage.walks@.len() == old(self).storage.walks@.len(),
            forall|p: int|
                0 <= p < old(self).storage.walks@.len() ==> {
                    let w0 = #[trigger] old(self).storage.walks@[p];
                    let w1 = final(self).storage.walks@[p];
                    &&& w1.ego == w0.ego
                    &&& w1.walk == w0.walk
                    &&& w1.valid == (w0.valid && !seq_uses_edge(w0.walk.nodes@, source, target))
                },
    {
        let ghost pre = *self;
        self.graph.remove_edge(source, target);
        self.storage.invalidate(source, target);
        proof {
            assert(self.wf()) by {
                assert forall|p: int|
                    0 <= p < self.storage.walks@.len() && (
                    #[trigger] self.storage.walks@[p]).valid implies walk_shape_ok(
                    self.graph,
                    self.storage.walks@[p].ego,
                    self.storage.walks@[p].walk.nodes@,
                ) by {
                    let w0 = pre.storage.walks@[p];
                    assert(w0.valid && !seq_uses_edge(w0.walk.nodes@, source, target));
                    assert(walk_shape_ok(pre.graph, w0.ego, w0.walk.nodes@));
                    lemma_path_survives_mutation(
                        pre.graph,
                        self.graph,
                        w0.walk.nodes@,
                        source,
                        target,
                    );
                }
            }
        }
    }

    /// Drops every node, every edge, and every cached walk.
    pub fn clear(&mut self)
        ensures
            final(self).wf(),
            final(self).graph.nodes@.len() == 0,
            final(self).storage.walks@.len() == 0,
            forall|e: NodeId| #[trigger] final(self).cached(e) == Seq::<Seq<NodeId>>::empty(),
    {
        self.graph.clear();
        self.storage.clear();
    }

    /// Tops up the walk cache for `ego` to at least `iterations` valid
    /// walks, sampling the deficit from the current graph.  A call that
    /// finds the quota already met, or finds that `ego` has no strictly
    /// positive outgoing edge so that no walk can take even one hop,
    /// changes nothing.
    ///
    /// Fails with [`MeritRankError::InvalidNode`] if and only if `ego` is
    /// the absent sentinel, and with [`MeritRankError::NodeDoesNotExist`]
    /// otherwise if and only if `ego` is not in the graph; a failed call
    /// changes nothing.  The graph itself is never touched.
    pub fn calculate(&mut self, ego: NodeId, iterations: usize) -> (res: Result<
        (),
        MeritRankError,
    >)
        requires
            old(self).wf(),
        ensures
            final(self).wf(),
            final(self).graph == old(self).graph,
            res is Err <==> (ego is Absent || !old(self).graph.has_node(ego)),
            match res {
                Ok(()) => {
                    &&& old(self).cached(ego).len() >= iterations ==> *final(self) == *old(self)
                    &&& !old(self).graph.has_positive_out(ego) ==> *final(self) == *old(self)
                    &&& final(self).cached(ego).len() == (
                    if old(self).cached(ego).len() >= iterations {
                        old(self).cached(ego).len() as int
                    } else if old(self).graph.has_positive_out(ego) {
                        iterations as int
                    } else {
                        old(self).cached(ego).len() as int
                    })
                    &&& forall|k: int|
                        0 <= k < old(self).cached(ego).len() ==> #[trigger] final(self).cached(
                            ego,
                        )[k] == old(self).cached(ego)[k]
                    &&& forall|k: int|
                        old(self).cached(ego).len() <= k < final(self).cached(ego).len()
                            ==> walk_shape_ok(old(self).graph, ego, #[trigger] final(self).cached(
                            ego,
                        )[k])
                    &&& forall|e: NodeId|
                        e != ego ==> #[trigger] final(self).cached(e) == old(self).cached(e)
                },
                Err(e) => {
                    &&& *final(self) == *old(self)
                    &&& (e == MeritRankError::InvalidNode <==> ego is Absent)
                    &&& (e == MeritRankError::NodeDoesNotExist <==> !(ego is Absent) && !old(
                        self,
                    ).graph.has_node(ego))
                },
            },
    {
        if ego.is_absent() {
            return Err(MeritRankError::InvalidNode);
        }
        match self.graph.find_node(ego) {
            None => {
                return Err(MeritRankError::NodeDoesNotExist);
            },
            Some(_) => {},
        }
        let ghost pre = *self;
        let _ = self.storage.get_or_sample(&self.graph, ego, iterations);
        proof {
            if pre.cached(ego).len() >= iterations || !pre.graph.has_positive_out(ego) {
                assert(self.storage == pre.storage);
                assert(*self == pre);
            }
            assert(self.wf()) by {
                assert forall|p: int|
                    0 <= p < self.storage.walks@.len() && (
                    #[trigger] self.storage.walks@[p]).valid implies walk_shape_ok(
                    self.graph,
                    self.storage.walks@[p].ego,
                    self.storage.walks@[p].walk.nodes@,
                ) by {
                    if p < pre.storage.walks@.len() {
                        assert(self.storage.walks@[p] == pre.storage.walks@[p]);
                    }
                }
            }
        }
        Ok(())
    }
}

impl MeritRank {
    /// Aggregates the currently cached walks for `ego` into an exact
    /// normalized score per visited node, ordered by descending score with
    /// ties broken by ascending node id, truncated to `limit` entries if
    /// one is given.
    ///
    /// Each listed node is a non-ego node visited by the cached walks; its
    /// score is its occurrence count over the total occurrence count —
    /// zeroed, by the documented distrust policy, when the graph holds a
    /// negative-weight edge from the ego to it — so the listed scores sum
    /// to at most one.
    ///
    /// Fails with [`MeritRankError::InvalidNode`] if and only if `ego` is
    /// the absent sentinel, with [`MeritRankError::NodeDoesNotExist`]
    /// otherwise if and only if `ego` is not in the graph, and with
    /// [`MeritRankError::NoPathExists`] otherwise if and only if no valid
    /// cached walk exists for `ego`.
    pub fn get_ranks(&self, ego: NodeId, limit: Option<usize>) -> (res: Result<
        Vec<(NodeId, Score)>,
        MeritRankError,
    >)
        requires
            self.wf(),
        ensures
            res is Err <==> (ego is Absent || !self.graph.has_node(ego) || self.cached(
                ego,
            ).len() == 0),
            match res {
                Ok(r) => {
                    let vw = self.cached(ego);
                    &&& total_len(vw) > 0
                    &&& forall|k: int|
                        0 <= k < r@.len() ==> {
                            let x = #[trigger] r@[k];
                            &&& x.0 != ego
                            &&& visits(vw, x.0) > 0
                            &&& x.1.den == total_len(vw)
                            &&& x.1.num == score_num(self.graph, vw, ego, x.0)
                        }
                    &&& forall|k: int, l: int|
                        0 <= k < l < r@.len() ==> rank_before(#[trigger] r@[k], #[trigger] r@[l])
                    &&& sum_nums(r@) <= total_len(vw)
                    &&& match limit {
                        Option::None => forall|v: NodeId|
                            #![trigger visits(vw, v)]
                            v != ego && visits(vw, v) > 0 ==> exists|k: int|
                                0 <= k < r@.len() && (#[trigger] r@[k]).0 == v,
                        Option::Some(l) => {
                            &&& r@.len() <= l
                            &&& forall|v: NodeId|
                                #![trigger visits(vw, v)]
                                v != ego && visits(vw, v) > 0 ==> (exists|k: int|
                                    0 <= k < r@.len() && (#[trigger] r@[k]).0 == v) || (r@.len()
                                    == l && forall|k: int|
                                    0 <= k < r@.len() ==> ((#[trigger] r@[k]).1.num > score_num(
                                        self.graph,
                                        vw,
                                        ego,
                                        v,
                                    ) || (r@[k].1.num == score_num(self.graph, vw, ego, v)
                                        && crate::node::node_lt(r@[k].0, v))))
                        },
                    }
                },
                Err(e) => {
                    &&& (e == MeritRankError::InvalidNode <==> ego is Absent)
                    &&& (e == MeritRankError::NodeDoesNotExist <==> !(ego is Absent)
                        && !self.graph.has_node(ego))
                    &&& (e == MeritRankError::NoPathExists <==> !(ego is Absent)
                        && self.graph.has_node(ego) && self.cached(ego).len() == 0)
                },
            },
    {
        if ego.is_absent() {
            return Err(MeritRankError::InvalidNode);
        }
        match self.graph.find_node(ego) {
            None => {
                return Err(MeritRankError::NodeDoesNotExist);
            },
            Some(_) => {},
        }
        let walks = self.storage.collect_for(ego);
        let ghost vw = self.cached(ego);
        proof {
            assert(walks@.map_values(|v: Vec<NodeId>| v@) == vw);
        }
        if walks.len() == 0 {
            return Err(MeritRankError::NoPathExists);
        }
        proof {
            // every cached walk is well-shaped, so lengths are in [2, cap]
            assert forall|k: int|
                0 <= k < vw.len() implies 2 <= (#[trigger] vw[k]).len() <= MAX_WALK_NODES by {
                crate::storage::lemma_ego_walks_elements(self.storage.walks@, ego, k);
            }
            assert(vw.len() == walks@.len());
            assert(walks@.len() == walks.len());
            lemma_total_len_bound(vw, MAX_WALK_NODES as int);
            assert(vw.len() * (MAX_WALK_NODES as int) < u128::MAX as int) by (nonlinear_arith)
                requires
                    0 <= vw.len() <= usize::MAX as int,
                    MAX_WALK_NODES == 80,
            ;
        }
        // tally every node occurrence over the cached walks
        let mut counts: Vec<(NodeId, u128)> = Vec::new();
        let mut total: u128 = 0;
        let mut i: usize = 0;
        while i < walks.len()
            invariant
                walks@.map_values(|v: Vec<NodeId>| v@) == vw,
                vw.len() == walks@.len(),
                total_len(vw) < u128::MAX as int,
                0 <= i <= walks@.len(),
                total == total_len(vw.take(i as int)),
                tally_distinct(counts@),
                forall|x: NodeId| #[trigger] tally_has(counts@, x) ==> x != ego,
                forall|x: NodeId|
                    x != ego ==> #[trigger] tally_val(counts@, x) == visits(vw.take(i as int), x),
                forall|e: int| 0 <= e < counts@.len() ==> (#[trigger] counts@[e]).1 >= 1,
            decreases walks@.len() - i,
        {
            let wlen = walks[i].len();
            proof {
                assert(walks@[i as int]@ == vw[i as int]);
            }
            let mut j: usize = 0;
            while j < wlen
                invariant
                    walks@.map_values(|v: Vec<NodeId>| v@) == vw,
                    vw.len() == walks@.len(),
                    total_len(vw) < u128::MAX as int,
                    0 <= i < walks@.len(),
                    wlen == vw[i as int].len(),
                    0 <= j <= wlen,
                    total == total_len(vw.take(i as int)) + j,
                    tally_distinct(counts@),
                    forall|x: NodeId| #[trigger] tally_has(counts@, x) ==> x != ego,
                    forall|x: NodeId|
                        x != ego ==> #[trigger] tally_val(counts@, x) == visits(
                            vw.take(i as int),
                            x,
                        ) + count_in(vw[i as int].take(j as int), x),
                    forall|e: int| 0 <= e < counts@.len() ==> (#[trigger] counts@[e]).1 >= 1,
                decreases wlen - j,
            {
                let node = walks[i][j];
                proof {
                    assert(vw[i as int][j as int] == node);
                    lemma_walks_take_step(vw, i as int);
                    lemma_total_take_le(vw, i as int + 1);
                    assert(total_len(vw.take(i as int)) + wlen <= total_len(vw));
                    assert(total + 1 <= u128::MAX);
                }
                total = total + 1;
                if !(node == ego) {
                    proof {
                        lemma_visits_le_total(vw.take(i as int), node);
                        lemma_count_in_le_len(vw[i as int].take(j as int), node);
                        lemma_total_take_le(vw, i as int);
                        assert(tally_val(counts@, node) < u128::MAX);
                    }
                    bump(&mut counts, node);
                }
                proof {
                    assert forall|x: NodeId|
                        x != ego implies #[trigger] tally_val(counts@, x) == visits(
                        vw.take(i as int),
                        x,
                    ) + count_in(vw[i as int].take(j as int + 1), x) by {
                        lemma_count_in_take_step(vw[i as int], x, j as int);
                    }
                }
                j = j + 1;
            }
            proof {
                lemma_walks_take_step(vw, i as int);
                assert(vw[i as int].take(wlen as int) =~= vw[i as int]);
                assert forall|x: NodeId|
                    x != ego implies #[trigger] tally_val(counts@, x) == visits(
                    vw.take(i as int + 1),
                    x,
                ) by {
                    assert(tally_val(counts@, x) == visits(vw.take(i as int), x) + count_in(
                        vw[i as int],
                        x,
                    ));
                }
            }
            i = i + 1;
        }
        proof {
            assert(vw.take(vw.len() as int) =~= vw);
            assert(total == total_len(vw));
            assert(total > 0) by {
                assert(2 <= vw.last().len());
                assert(total_len(vw) >= vw.last().len());
            }
        }
        let ghost counts0 = counts@;
        // apply the distrust policy: direct negative edges zero the score
        let mut e: usize = 0;
        while e < counts.len()
            invariant
                self.wf(),
                counts@.len() == counts0.len(),
                tally_distinct(counts0),
                tally_distinct(counts@),
                forall|f: int| 0 <= f < counts@.len() ==> (#[trigger] counts@[f]).0 == counts0[f].0,
                0 <= e <= counts@.len(),
                forall|f: int|
                    e <= f < counts@.len() ==> (#[trigger] counts@[f]) == counts0[f],
                forall|f: int|
                    0 <= f < e ==> (#[trigger] counts@[f]).1 == score_num(
                        self.graph,
                        vw,
                        ego,
                        counts0[f].0,
                    ),
                forall|x: NodeId| #[trigger] tally_has(counts0, x) ==> x != ego,
                forall|x: NodeId|
                    x != ego ==> #[trigger] tally_val(counts0, x) == visits(vw, x),
                forall|f: int| 0 <= f < counts0.len() ==> (#[trigger] counts0[f]).1 >= 1,
            decreases counts@.len() - e,
        {
            let v = counts[e].0;
            let penalized = match self.graph.edge_weight_of(ego, v) {
                Some(w) => w < 0,
                None => false,
            };
            if penalized {
                let ghost cpre = counts@;
                counts[e] = (v, 0);
                proof {
                    assert(counts@ =~= cpre.update(e as int, (v, 0u128)));
                    assert forall|f: int|
                        0 <= f < counts@.len() && f != e implies counts@[f] == cpre[f] by {}
                }
            }
            proof {
                lemma_tally_at_index(counts0, e as int);
                assert(counts@[e as int].1 == score_num(self.graph, vw, ego, counts0[e as int].0))
                    by {
                    let v0 = counts0[e as int].0;
                    assert(v0 == v);
                    assert(v0 != ego);
                    assert(counts0[e as int].1 == tally_val(counts0, v0));
                    assert(tally_val(counts0, v0) == visits(vw, v0));
                    if penalized {
                        assert(self.graph.has_edge(ego, v0) && self.graph.edge_weight(ego, v0)
                            < 0);
                    } else {
                        assert(!(self.graph.has_edge(ego, v0) && self.graph.edge_weight(ego, v0)
                            < 0));
                    }
                }
            }
            e = e + 1;
        }
        let ghost counts1 = counts@;
        proof {
            assert forall|x: NodeId| #[trigger]
                tally_has(counts1, x) <==> tally_has(counts0, x) by {
                lemma_tally_same_keys(counts1, counts0, x);
            }
            assert forall|x: NodeId|
                #[trigger] tally_has(counts1, x) implies tally_val(counts1, x) == score_num(
                self.graph,
                vw,
                ego,
                x,
            ) by {
                let f = tally_index(counts1, x);
                lemma_tally_at_index(counts1, f);
                assert(counts1[f].0 == counts0[f].0);
                assert(counts1[f].1 == score_num(self.graph, vw, ego, counts0[f].0));
            }
            assert forall|x: NodeId|
                x != ego && visits(vw, x) > 0 implies #[trigger] tally_has(counts1, x) by {
                if !tally_has(counts0, x) {
                    assert(tally_val(counts0, x) == 0);
                }
            }
        }
        let sorted = sort_entries(counts);
        proof {
            assert forall|k: int|
                0 <= k < sorted@.len() implies {
                let x = #[trigger] sorted@[k];
                &&& x.0 != ego
                &&& visits(vw, x.0) > 0
                &&& x.1 == score_num(self.graph, vw, ego, x.0)
            } by {
                lemma_tally_at_index(sorted@, k);
                let v = sorted@[k].0;
                assert(tally_has(sorted@, v));
                assert(tally_has(counts1, v));
                assert(tally_has(counts0, v));
                assert(sorted@[k].1 == tally_val(sorted@, v));
                assert(tally_val(sorted@, v) == tally_val(counts1, v));
                assert(v != ego);
                assert(tally_val(counts0, v) == visits(vw, v));
                assert(visits(vw, v) > 0) by {
                    let f = tally_index(counts0, v);
                    lemma_tally_at_index(counts0, f);
                    assert(counts0[f].1 >= 1);
                }
            }
        }
        // truncate to the limit, attaching the shared denominator
        let cap = match limit {
            Option::None => sorted.len(),
            Option::Some(l) => {
                if l < sorted.len() {
                    l
                } else {
                    sorted.len()
                }
            },
        };
        let mut result: Vec<(NodeId, Score)> = Vec::new();
        let mut k: usize = 0;
        while k < cap
            invariant
                0 <= k <= cap <= sorted@.len(),
                result@.len() == k,
                forall|t: int|
                    0 <= t < k ==> (#[trigger] result@[t]) == (
                    sorted@[t].0,
                    Score { num: sorted@[t].1, den: total },
                ),
            decreases cap - k,
        {
            let entry = sorted[k];
            result.push((entry.0, Score { num: entry.1, den: total }));
            k = k + 1;
        }
        proof {
            // entry facts, order, and the truncation cut
            assert forall|k2: int|
                0 <= k2 < result@.len() implies {
                let x = #[trigger] result@[k2];
                &&& x.0 != ego
                &&& visits(vw, x.0) > 0
                &&& x.1.den == total_len(vw)
                &&& x.1.num == score_num(self.graph, vw, ego, x.0)
            } by {
                assert(result@[k2] == (
                    sorted@[k2].0,
                    Score { num: sorted@[k2].1, den: total },
                ));
            }
            assert forall|k2: int, l2: int|
                0 <= k2 < l2 < result@.len() implies rank_before(
                #[trigger] result@[k2],
                #[trigger] result@[l2],
            ) by {
                assert(pair_before(sorted@[k2], sorted@[l2]));
            }
            assert(sum_nums(result@) <= total_len(vw)) by {
                assert forall|k2: int, l2: int|
                    0 <= k2 < l2 < result@.len() implies (#[trigger] result@[k2]).0 != (
                #[trigger] result@[l2]).0 by {
                    assert(pair_before(sorted@[k2], sorted@[l2]));
                    lemma_pair_total(sorted@[k2], sorted@[l2]);
                    if sorted@[k2].0 == sorted@[l2].0 {
                        lemma_tally_at_index(sorted@, k2);
                        lemma_tally_at_index(sorted@, l2);
                        assert(false);
                    }
                }
                assert forall|k2: int|
                    0 <= k2 < result@.len() implies (#[trigger] result@[k2]).1.num <= visits(
                    vw,
                    result@[k2].0,
                ) by {}
                lemma_sum_nums_le_total(result@, vw);
            }
            // completeness and the cut for a truncated listing
            assert forall|v: NodeId|
                #![trigger visits(vw, v)]
                v != ego && visits(vw, v) > 0 implies (exists|k2: int|
                    0 <= k2 < result@.len() && (#[trigger] result@[k2]).0 == v) || (cap
                    < sorted@.len() && forall|k2: int|
                    0 <= k2 < result@.len() ==> ((#[trigger] result@[k2]).1.num > score_num(
                        self.graph,
                        vw,
                        ego,
                        v,
                    ) || (result@[k2].1.num == score_num(self.graph, vw, ego, v)
                        && crate::node::node_lt(result@[k2].0, v)))) by {
                assert(tally_has(counts1, v));
                assert(tally_has(sorted@, v));
                let f = tally_index(sorted@, v);
                assert(sorted@[f].0 == v);
                lemma_tally_at_index(sorted@, f);
                assert(sorted@[f].1 == tally_val(sorted@, v));
                assert(tally_val(sorted@, v) == tally_val(counts1, v));
                assert(sorted@[f].1 == score_num(self.graph, vw, ego, v));
                if f < cap {
                    assert(result@[f].0 == v);
                } else {
                    assert(cap < sorted@.len());
                    assert forall|k2: int|
                        0 <= k2 < result@.len() implies ((#[trigger] result@[k2]).1.num
                        > score_num(self.graph, vw, ego, v) || (result@[k2].1.num == score_num(
                        self.graph,
                        vw,
                        ego,
                        v,
                    ) && crate::node::node_lt(result@[k2].0, v))) by {
                        assert(pair_before(sorted@[k2], sorted@[f]));
                    }
                }
            }
        }
        Ok(result)
    }
}

/// A node with no strictly positive outgoing edge has no cached walks:
/// every cached walk takes its first hop along a strictly positive edge
/// out of its ego.  So after every outgoing edge of an ego is removed —
/// which invalidates each of its walks — `calculate` stores nothing for it
/// and `get_ranks` reports that no path exists.
pub proof fn lemma_no_viable_edge_no_walks(mr: MeritRank, ego: NodeId)
    requires
        mr.wf(),
        !mr.graph.has_positive_out(ego),
    ensures
        mr.cached(ego).len() == 0,
{
    if mr.cached(ego).len() > 0 {
        crate::storage::lemma_ego_walks_elements(mr.storage.walks@, ego, 0);
        let p = choose|p: int|
            0 <= p < mr.storage.walks@.len() && (#[trigger] mr.storage.walks@[p]).valid
                && mr.storage.walks@[p].ego == ego && mr.storage.walks@[p].walk.nodes@
                == mr.cached(ego)[0];
        let s = mr.storage.walks@[p].walk.nodes@;
        assert(walk_shape_ok(mr.graph, ego, s));
        assert(mr.graph.has_edge(s[0], s[1]) && mr.graph.edge_weight(s[0], s[1]) > 0);
        assert(mr.graph.has_edge(ego, s[1]) && mr.graph.edge_weight(ego, s[1]) > 0);
        assert(false);
    }
}

/// Locality of updates: a mutation of the edge `s -> t` — as `add_edge`
/// and `remove_edge` describe it — where no cached walk of `ego` visits
/// `s` and `s` is not the ego itself leaves the ego's cached walks, the
/// shared denominator and every node's score exactly as they were.
pub proof fn lemma_update_is_local(
    before: MeritRank,
    after: MeritRank,
    ego: NodeId,
    s: NodeId,
    t: NodeId,
)
    requires
        s != ego,
        after.storage.walks@.len() == before.storage.walks@.len(),
        forall|p: int|
            0 <= p < before.storage.walks@.len() ==> {
                let w0 = #[trigger] before.storage.walks@[p];
                let w1 = after.storage.walks@[p];
                &&& w1.ego == w0.ego
                &&& w1.walk == w0.walk
                &&& w1.valid == (w0.valid && !seq_uses_edge(w0.walk.nodes@, s, t))
            },
        forall|a: NodeId, b: NodeId|
            !(a == s && b == t) ==> (#[trigger] after.graph.has_edge(a, b)
                <==> before.graph.has_edge(a, b)),
        forall|a: NodeId, b: NodeId|
            !(a == s && b == t) && #[trigger] before.graph.has_edge(a, b)
                ==> after.graph.edge_weight(a, b) == before.graph.edge_weight(a, b),
        forall|k: int| 0 <= k < before.cached(ego).len() ==> !(#[trigger] before.cached(
            ego,
        )[k]).contains(s),
    ensures
        after.cached(ego) == before.cached(ego),
        forall|v: NodeId| #[trigger]
            score_num(after.graph, after.cached(ego), ego, v) == score_num(
                before.graph,
                before.cached(ego),
                ego,
                v,
            ),
{
    assert forall|p: int|
        0 <= p < before.storage.walks@.len() implies (#[trigger] after.storage.walks@[p]).ego
        == before.storage.walks@[p].ego && after.storage.walks@[p].walk.nodes@
        == before.storage.walks@[p].walk.nodes@ && (before.storage.walks@[p].ego == ego
        ==> after.storage.walks@[p].valid == before.storage.walks@[p].valid) by {
        let w0 = before.storage.walks@[p];
        if w0.ego == ego && w0.valid {
            // a valid ego walk never visits `s`, so it cannot use the edge
            crate::storage::lemma_ego_walks_complete(before.storage.walks@, ego, p);
            let k = choose|k: int|
                0 <= k < before.cached(ego).len() && #[trigger] before.cached(ego)[k]
                    == w0.walk.nodes@;
            assert(!w0.walk.nodes@.contains(s));
            if seq_uses_edge(w0.walk.nodes@, s, t) {
                let q = choose|q: int|
                    0 <= q < w0.walk.nodes@.len() - 1 && (#[trigger] w0.walk.nodes@[q]) == s
                        && w0.walk.nodes@[q + 1] == t;
                assert(w0.walk.nodes@.contains(s));
                assert(false);
            }
        }
    }
    crate::storage::lemma_ego_walks_pointwise(
        before.storage.walks@,
        after.storage.walks@,
        ego,
    );
    assert forall|v: NodeId| #[trigger]
        score_num(after.graph, after.cached(ego), ego, v) == score_num(
        before.graph,
        before.cached(ego),
        ego,
        v,
    ) by {
        assert(!(ego == s && v == t));
        assert(after.graph.has_edge(ego, v) <==> before.graph.has_edge(ego, v));
    }
}

} // verus!
