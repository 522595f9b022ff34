//! The graph: the node set and the directed weighted adjacency.

use vstd::prelude::*;

use crate::errors::MeritRankError;
use crate::node::{NodeId, Weight};

verus! {

/// One node of the adjacency structure: its id together with its outgoing
/// edges, each an ordered `(target, weight)` pair.  At most one edge exists
/// per target.
#[derive(Clone)]
pub struct GraphNode {
    /// The node's id; never the absent sentinel.
    pub id: NodeId,
    /// The node's outgoing edges, with pairwise distinct targets.
    pub edges: Vec<(NodeId, Weight)>,
}

/// Whether `n` has an outgoing edge toward `t`.
pub open spec fn node_has_edge(n: GraphNode, t: NodeId) -> bool {
    exists|j: int| 0 <= j < n.edges@.len() && (#[trigger] n.edges@[j]).0 == t
}

/// The position of the edge toward `t` in `n`'s edge list.
pub open spec fn edge_target_index(n: GraphNode, t: NodeId) -> int
    recommends
        node_has_edge(n, t),
{
    choose|j: int| 0 <= j < n.edges@.len() && (#[trigger] n.edges@[j]).0 == t
}

/// The weight of `n`'s outgoing edge toward `t`.
pub open spec fn node_edge_weight(n: GraphNode, t: NodeId) -> Weight
    recommends
        node_has_edge(n, t),
{
    n.edges@[edge_target_index(n, t)].1
}

/// Local well-formedness of one adjacency entry: targets are pairwise
/// distinct, never the node itself, and never the absent sentinel.
pub open spec fn node_wf(n: GraphNode) -> bool {
    &&& forall|j: int, k: int|
        0 <= j < k < n.edges@.len() ==> (#[trigger] n.edges@[j]).0 != (#[trigger] n.edges@[k]).0
    &&& forall|j: int|
        0 <= j < n.edges@.len() ==> (#[trigger] n.edges@[j]).0 != n.id && !(n.edges@[j].0
            is Absent)
}

/// With distinct targets, the edge at position `j` is found at position `j`.
pub proof fn lemma_edge_at_index(n: GraphNode, j: int)
    requires
        node_wf(n),
        0 <= j < n.edges@.len(),
    ensures
        node_has_edge(n, n.edges@[j].0),
        edge_target_index(n, n.edges@[j].0) == j,
        node_edge_weight(n, n.edges@[j].0) == n.edges@[j].1,
{
    let t = n.edges@[j].0;
    assert(node_has_edge(n, t));
    let k = edge_target_index(n, t);
    if k != j {
        if k < j {
            assert(n.edges@[k].0 != n.edges@[j].0);
        } else {
            assert(n.edges@[j].0 != n.edges@[k].0);
        }
    }
}

/// Inserts or overwrites the edge toward `t` in one adjacency entry:
/// at most one edge per ordered pair exists, so an existing edge has its
/// weight replaced rather than a parallel edge added.
fn upsert_edge(n: &mut GraphNode, t: NodeId, w: Weight)
    requires
        node_wf(*old(n)),
        !(t is Absent),
        t != old(n).id,
    ensures
        node_wf(*final(n)),
        final(n).id == old(n).id,
        forall|x: NodeId| #[trigger]
            node_has_edge(*final(n), x) <==> node_has_edge(*old(n), x) || x == t,
        node_edge_weight(*final(n), t) == w,
        forall|x: NodeId|
            x != t && #[trigger] node_has_edge(*old(n), x) ==> node_edge_weight(*final(n), x)
                == node_edge_weight(*old(n), x),
{
    let ghost pre = *n;
    let mut j: usize = 0;
    while j < n.edges.len()
        invariant
            *n == pre,
            pre == *old(n),
            node_wf(pre),
            !(t is Absent),
            t != pre.id,
            0 <= j <= n.edges@.len(),
            forall|k: int| 0 <= k < j ==> (#[trigger] n.edges@[k]).0 != t,
        decreases n.edges@.len() - j,
    {
        if n.edges[j].0 == t {
            n.edges[j] = (t, w);
            proof {
                assert(n.edges@ =~= pre.edges@.update(j as int, (t, w)));
                assert forall|k: int| 0 <= k < n.edges@.len() implies (#[trigger] n.edges@[k]).0
                    == pre.edges@[k].0 by {
                    if k != j {
                        assert(n.edges@[k] == pre.edges@[k]);
                    }
                }
                assert(node_wf(*n));
                assert forall|x: NodeId| #[trigger]
                    node_has_edge(*n, x) <==> node_has_edge(pre, x) || x == t by {
                    lemma_same_targets_same_edges(*n, pre, x);
                }
                lemma_edge_at_index(*n, j as int);
                assert(node_edge_weight(*n, t) == w);
                assert forall|x: NodeId|
                    x != t && #[trigger] node_has_edge(pre, x) implies node_edge_weight(*n, x)
                    == node_edge_weight(pre, x) by {
                    let k = edge_target_index(pre, x);
                    lemma_edge_at_index(pre, k);
                    assert(k != j);
                    assert(n.edges@[k] == pre.edges@[k]);
                    lemma_edge_at_index(*n, k);
                }
            }
            return ;
        }
        j = j + 1;
    }
    n.edges.push((t, w));
    proof {
        let m = pre.edges@.len() as int;
        assert(n.edges@ =~= pre.edges@.push((t, w)));
        assert(!node_has_edge(pre, t));
        assert(node_wf(*n)) by {
            assert forall|k: int, l: int|
                0 <= k < l < n.edges@.len() implies (#[trigger] n.edges@[k]).0 != (
            #[trigger] n.edges@[l]).0 by {
                if l == m {
                    assert(n.edges@[k] == pre.edges@[k]);
                    assert(pre.edges@[k].0 != t);
                }
            }
        }
        lemma_edge_at_index(*n, m);
        assert forall|x: NodeId| #[trigger]
            node_has_edge(*n, x) <==> node_has_edge(pre, x) || x == t by {
            if node_has_edge(*n, x) && x != t {
                let k = edge_target_index(*n, x);
                assert(0 <= k < n.edges@.len() && n.edges@[k].0 == x);
                assert(k != m);
                assert(pre.edges@[k].0 == x);
            }
            if node_has_edge(pre, x) {
                let k = edge_target_index(pre, x);
                assert(n.edges@[k].0 == x);
            }
        }
        assert forall|x: NodeId|
            x != t && #[trigger] node_has_edge(pre, x) implies node_edge_weight(*n, x)
            == node_edge_weight(pre, x) by {
            let k = edge_target_index(pre, x);
            lemma_edge_at_index(pre, k);
            assert(n.edges@[k] == pre.edges@[k]);
            lemma_edge_at_index(*n, k);
        }
    }
}

/// The position of the edge toward `t` in one adjacency entry, if any.
fn edge_position(n: &GraphNode, t: NodeId) -> (pos: Option<usize>)
    ensures
        match pos {
            Some(j) => j < n.edges@.len() && n.edges@[j as int].0 == t,
            None => !node_has_edge(*n, t),
        },
{
    let mut j: usize = 0;
    while j < n.edges.len()
        invariant
            0 <= j <= n.edges@.len(),
            forall|k: int| 0 <= k < j ==> (#[trigger] n.edges@[k]).0 != t,
        decreases n.edges@.len() - j,
    {
        if n.edges[j].0 == t {
            return Some(j);
        }
        j = j + 1;
    }
    None
}

/// Removes the edge at slot `j` from one adjacency entry; exactly that
/// target loses its edge, every other target keeps its weight.
fn remove_edge_slot(n: &mut GraphNode, j: usize)
    requires
        node_wf(*old(n)),
        j < old(n).edges@.len(),
    ensures
        node_wf(*final(n)),
        final(n).id == old(n).id,
        !node_has_edge(*final(n), old(n).edges@[j as int].0),
        forall|x: NodeId|
            x != old(n).edges@[j as int].0 ==> (#[trigger] node_has_edge(*final(n), x)
                <==> node_has_edge(*old(n), x)),
        forall|x: NodeId|
            x != old(n).edges@[j as int].0 && #[trigger] node_has_edge(*old(n), x)
                ==> node_edge_weight(*final(n), x) == node_edge_weight(*old(n), x),
{
    let ghost pre = *n;
    let ghost t = pre.edges@[j as int].0;
    proof {
        lemma_edge_at_index(pre, j as int);
    }
    n.edges.remove(j);
    proof {
        let m = pre.edges@.len() as int;
        assert(n.edges@ =~= pre.edges@.remove(j as int));
        // Each slot of the shortened list carries an element of the old
        // one, skipping the removed slot.
        assert forall|k: int|
            0 <= k < n.edges@.len() implies n.edges@[k] == pre.edges@[if k < j {
            k
        } else {
            k + 1
        }] by {}
        assert(node_wf(*n)) by {
            assert forall|k: int, l: int|
                0 <= k < l < n.edges@.len() implies (#[trigger] n.edges@[k]).0 != (
            #[trigger] n.edges@[l]).0 by {
                let ko: int = if k < j {
                    k
                } else {
                    k + 1
                };
                let lo: int = if l < j {
                    l
                } else {
                    l + 1
                };
                assert(n.edges@[k] == pre.edges@[ko]);
                assert(n.edges@[l] == pre.edges@[lo]);
                assert(pre.edges@[ko].0 != pre.edges@[lo].0);
            }
            assert forall|k: int|
                0 <= k < n.edges@.len() implies (#[trigger] n.edges@[k]).0 != n.id && !(
                n.edges@[k].0 is Absent) by {
                let ko: int = if k < j {
                    k
                } else {
                    k + 1
                };
                assert(n.edges@[k] == pre.edges@[ko]);
            }
        }
        assert(!node_has_edge(*n, t)) by {
            if node_has_edge(*n, t) {
                let k = edge_target_index(*n, t);
                let ko: int = if k < j {
                    k
                } else {
                    k + 1
                };
                assert(pre.edges@[ko].0 == t);
                assert(ko != j);
                lemma_edge_at_index(pre, ko);
                lemma_edge_at_index(pre, j as int);
                assert(false);
            }
        }
        assert forall|x: NodeId|
            x != t implies (#[trigger] node_has_edge(*n, x) <==> node_has_edge(
            pre,
            x,
        )) by {
            if node_has_edge(*n, x) {
                let k = edge_target_index(*n, x);
                let ko: int = if k < j {
                    k
                } else {
                    k + 1
                };
                assert(pre.edges@[ko].0 == x);
            }
            if node_has_edge(pre, x) {
                let ko = edge_target_index(pre, x);
                assert(pre.edges@[ko].0 == x);
                assert(ko != j);
                let k: int = if ko < j {
                    ko
                } else {
                    ko - 1
                };
                assert(n.edges@[k] == pre.edges@[ko]);
                assert(n.edges@[k].0 == x);
            }
        }
        assert forall|x: NodeId|
            x != t && #[trigger] node_has_edge(pre, x) implies node_edge_weight(*n, x)
            == node_edge_weight(pre, x) by {
            let ko = edge_target_index(pre, x);
            lemma_edge_at_index(pre, ko);
            assert(ko != j);
            let k: int = if ko < j {
                ko
            } else {
                ko - 1
            };
            assert(n.edges@[k] == pre.edges@[ko]);
            lemma_edge_at_index(*n, k);
        }
    }
}

/// Adjacency entries with pointwise equal targets agree on edge
/// membership.
proof fn lemma_same_targets_same_edges(a: GraphNode, b: GraphNode, x: NodeId)
    requires
        a.edges@.len() == b.edges@.len(),
        forall|k: int| 0 <= k < a.edges@.len() ==> (#[trigger] a.edges@[k]).0 == b.edges@[k].0,
    ensures
        node_has_edge(a, x) <==> node_has_edge(b, x),
{
    if node_has_edge(a, x) {
        let k = edge_target_index(a, x);
        assert(b.edges@[k].0 == x);
    }
    if node_has_edge(b, x) {
        let k = edge_target_index(b, x);
        assert(a.edges@[k].0 == x);
    }
}

/// The graph: the node set plus, per node, its outgoing weighted edges.
/// The single source of truth for topology; mutation through its methods is
/// the only way topology changes.
#[derive(Clone)]
pub struct MyGraph {
    /// The nodes, with pairwise distinct ids.
    pub nodes: Vec<GraphNode>,
}

impl MyGraph {
    /// Whether `v` is a member of the node set.
    pub open spec fn has_node(self, v: NodeId) -> bool {
        exists|i: int| 0 <= i < self.nodes@.len() && (#[trigger] self.nodes@[i]).id == v
    }

    /// The position of the node with id `v`.
    pub open spec fn node_index(self, v: NodeId) -> int
        recommends
            self.has_node(v),
    {
        choose|i: int| 0 <= i < self.nodes@.len() && (#[trigger] self.nodes@[i]).id == v
    }

    /// Whether the graph holds a directed edge from `s` to `t`.
    pub open spec fn has_edge(self, s: NodeId, t: NodeId) -> bool {
        self.has_node(s) && node_has_edge(self.nodes@[self.node_index(s)], t)
    }

    /// The weight of the edge from `s` to `t`.
    pub open spec fn edge_weight(self, s: NodeId, t: NodeId) -> Weight
        recommends
            self.has_edge(s, t),
    {
        node_edge_weight(self.nodes@[self.node_index(s)], t)
    }

    /// Whether `v` has at least one strictly positive outgoing edge, i.e. a
    /// viable transition for the walk sampler.
    pub open spec fn has_positive_out(self, v: NodeId) -> bool {
        exists|t: NodeId| #[trigger] self.has_edge(v, t) && self.edge_weight(v, t) > 0
    }

    /// Well-formedness: node ids are pairwise distinct and concrete, every
    /// adjacency entry is locally well-formed, and every edge target is
    /// itself a member of the node set.
    pub open spec fn wf(self) -> bool {
        &&& forall|i: int, j: int|
            0 <= i < j < self.nodes@.len() ==> (#[trigger] self.nodes@[i]).id != (
            #[trigger] self.nodes@[j]).id
        &&& forall|i: int|
            0 <= i < self.nodes@.len() ==> !((#[trigger] self.nodes@[i]).id is Absent)
        &&& forall|i: int| 0 <= i < self.nodes@.len() ==> node_wf(#[trigger] self.nodes@[i])
        &&& forall|i: int, j: int|
            0 <= i < self.nodes@.len() && 0 <= j < self.nodes@[i].edges@.len() ==> self.has_node(
                (#[trigger] self.nodes@[i].edges@[j]).0,
            )
    }

    /// With distinct ids, the node at position `i` is found at position `i`.
    pub proof fn lemma_node_at_index(self, i: int)
        requires
            self.wf(),
            0 <= i < self.nodes@.len(),
        ensures
            self.has_node(self.nodes@[i].id),
            self.node_index(self.nodes@[i].id) == i,
    {
        let v = self.nodes@[i].id;
        assert(self.has_node(v));
        let k = self.node_index(v);
        if k != i {
            if k < i {
                assert(self.nodes@[k].id != self.nodes@[i].id);
            } else {
                assert(self.nodes@[i].id != self.nodes@[k].id);
            }
        }
    }

    /// Creates an empty graph.
    pub fn new() -> (g: MyGraph)
        ensures
            g.wf(),
            g.nodes@.len() == 0,
            forall|v: NodeId| !g.has_node(v),
            forall|s: NodeId, t: NodeId| !g.has_edge(s, t),
    {
        MyGraph { nodes: Vec::new() }
    }

    /// The number of nodes currently in the graph.
    pub fn node_count(&self) -> (n: usize)
        ensures
            n == self.nodes@.len(),
    {
        self.nodes.len()
    }

    /// Finds the position of the node with id `v`, if any.
    pub fn find_node(&self, v: NodeId) -> (found: Option<usize>)
        ensures
            match found {
                Some(i) => i < self.nodes@.len() && self.nodes@[i as int].id == v,
                None => !self.has_node(v),
            },
    {
        let mut i: usize = 0;
        while i < self.nodes.len()
            invariant
                0 <= i <= self.nodes@.len(),
                forall|k: int| 0 <= k < i ==> (#[trigger] self.nodes@[k]).id != v,
            decreases self.nodes@.len() - i,
        {
            if self.nodes[i].id == v {
                return Some(i);
            }
            i = i + 1;
        }
        None
    }

    /// Inserts `v` into the node set if it is not yet a member.  The
    /// topology of edges is untouched.
    fn ensure_node(&mut self, v: NodeId)
        requires
            old(self).wf(),
            !(v is Absent),
        ensures
            final(self).wf(),
            final(self).has_node(v),
            forall|x: NodeId| #[trigger]
                final(self).has_node(x) <==> old(self).has_node(x) || x == v,
            forall|a: NodeId, b: NodeId| #[trigger]
                final(self).has_edge(a, b) <==> old(self).has_edge(a, b),
            forall|a: NodeId, b: NodeId|
                #[trigger] old(self).has_edge(a, b) ==> final(self).edge_weight(a, b) == old(
                    self,
                ).edge_weight(a, b),
            old(self).has_node(v) ==> *final(self) == *old(self),
    {
        match self.find_node(v) {
            Some(_) => {},
            None => {
                let ghost pre = *self;
                let fresh = GraphNode { id: v, edges: Vec::new() };
                let ghost fresh_node = fresh;
                self.nodes.push(fresh);
                proof {
                    let n = pre.nodes@.len() as int;
                    assert(self.nodes@ =~= pre.nodes@.push(fresh_node));
                    assert forall|i: int| 0 <= i < n implies self.nodes@[i] == pre.nodes@[i] by {}
                    assert(self.nodes@[n].id == v);
                    assert(self.wf());
                    assert(self.has_node(v));
                    assert forall|x: NodeId| #[trigger]
                        self.has_node(x) <==> pre.has_node(x) || x == v by {
                        if self.has_node(x) {
                            let i = choose|i: int|
                                0 <= i < self.nodes@.len() && (#[trigger] self.nodes@[i]).id == x;
                            if i < n {
                                assert(pre.has_node(x));
                            }
                        }
                        if pre.has_node(x) {
                            let i = choose|i: int|
                                0 <= i < pre.nodes@.len() && (#[trigger] pre.nodes@[i]).id == x;
                            assert(self.nodes@[i].id == x);
                        }
                    }
                    assert forall|a: NodeId, b: NodeId| #[trigger]
                        self.has_edge(a, b) <==> pre.has_edge(a, b) by {
                        self.lemma_push_preserves_edges(pre, fresh_node, a, b);
                    }
                    assert forall|a: NodeId, b: NodeId| #[trigger]
                        pre.has_edge(a, b) implies self.edge_weight(a, b) == pre.edge_weight(
                        a,
                        b,
                    ) by {
                        self.lemma_push_preserves_edges(pre, fresh_node, a, b);
                    }
                }
            },
        }
    }

    /// After pushing a fresh node, edge membership and weights at existing
    /// nodes are unchanged.
    proof fn lemma_push_preserves_edges(self, pre: MyGraph, fresh: GraphNode, a: NodeId, b: NodeId)
        requires
            pre.wf(),
            !pre.has_node(fresh.id),
            !(fresh.id is Absent),
            fresh.edges@.len() == 0,
            self.nodes@ == pre.nodes@.push(fresh),
        ensures
            self.has_edge(a, b) <==> pre.has_edge(a, b),
            pre.has_edge(a, b) ==> self.edge_weight(a, b) == pre.edge_weight(a, b),
    {
        let n = pre.nodes@.len() as int;
        assert(self.wf()) by {
            assert forall|i: int, j: int|
                0 <= i < j < self.nodes@.len() implies (#[trigger] self.nodes@[i]).id != (
            #[trigger] self.nodes@[j]).id by {
                if j == n {
                    assert(self.nodes@[i] == pre.nodes@[i]);
                    assert(!pre.has_node(fresh.id));
                    assert(pre.nodes@[i].id != fresh.id);
                }
            }
            assert forall|i: int| 0 <= i < self.nodes@.len() implies !((
            #[trigger] self.nodes@[i]).id is Absent) by {
                if i < n {
                    assert(self.nodes@[i] == pre.nodes@[i]);
                }
            }
            assert forall|i: int| 0 <= i < self.nodes@.len() implies node_wf(
                #[trigger] self.nodes@[i],
            ) by {
                if i < n {
                    assert(self.nodes@[i] == pre.nodes@[i]);
                }
            }
            assert forall|i: int, j: int|
                0 <= i < self.nodes@.len() && 0 <= j < self.nodes@[i].edges@.len() implies self
                .has_node((#[trigger] self.nodes@[i].edges@[j]).0) by {
                assert(i < n);
                assert(self.nodes@[i] == pre.nodes@[i]);
                assert(pre.has_node(pre.nodes@[i].edges@[j].0));
                let k = choose|k: int|
                    0 <= k < pre.nodes@.len() && (#[trigger] pre.nodes@[k]).id
                        == pre.nodes@[i].edges@[j].0;
                assert(self.nodes@[k].id == pre.nodes@[i].edges@[j].0);
            }
        }
        if pre.has_node(a) {
            let i = pre.node_index(a);
            pre.lemma_node_at_index(i);
            assert(self.nodes@[i].id == a);
            self.lemma_node_at_index(i);
            assert(self.node_index(a) == i);
        } else if self.has_node(a) {
            let i = self.node_index(a);
            assert(0 <= i < self.nodes@.len() && self.nodes@[i].id == a);
            assert(i == n);
            assert(self.nodes@[i].edges@.len() == 0);
            assert(!node_has_edge(self.nodes@[i], b));
        }
    }

    /// Inserts or overwrites the edge `source -> target` inside the node at
    /// position `i`, then shows that the graph-level topology changed by
    /// exactly that edge.
    fn upsert_edge_at(&mut self, i: usize, target: NodeId, weight: Weight)
        requires
            old(self).wf(),
            i < old(self).nodes@.len(),
            !(target is Absent),
            target != old(self).nodes@[i as int].id,
            old(self).has_node(target),
        ensures
            final(self).wf(),
            forall|x: NodeId| #[trigger]
                final(self).has_node(x) <==> old(self).has_node(x),
            forall|a: NodeId, b: NodeId| #[trigger]
                final(self).has_edge(a, b) <==> old(self).has_edge(a, b) || (a == old(
                    self,
                ).nodes@[i as int].id && b == target),
            final(self).edge_weight(old(self).nodes@[i as int].id, target) == weight,
            forall|a: NodeId, b: NodeId|
                #[trigger] old(self).has_edge(a, b) && !(a == old(self).nodes@[i as int].id && b
                    == target) ==> final(self).edge_weight(a, b) == old(self).edge_weight(a, b),
    {
        let ghost pre = *self;
        let ghost source = pre.nodes@[i as int].id;
        let entry = &mut self.nodes[i];
        upsert_edge(entry, target, weight);
        proof {
            let nn = self.nodes@[i as int];
            let on = pre.nodes@[i as int];
            assert(self.nodes@ =~= pre.nodes@.update(i as int, nn));
            assert(nn.id == on.id);
            assert forall|k: int| 0 <= k < self.nodes@.len() implies (#[trigger] self.nodes@[k]).id
                == pre.nodes@[k].id by {
                if k != i {
                    assert(self.nodes@[k] == pre.nodes@[k]);
                }
            }
            assert forall|x: NodeId| #[trigger]
                self.has_node(x) <==> pre.has_node(x) by {
                self.lemma_same_ids_same_nodes(pre, x);
            }
            assert(self.wf()) by {
                assert forall|k: int| 0 <= k < self.nodes@.len() implies node_wf(
                    #[trigger] self.nodes@[k],
                ) by {
                    if k != i {
                        assert(self.nodes@[k] == pre.nodes@[k]);
                    }
                }
                assert forall|k: int, j: int|
                    0 <= k < self.nodes@.len() && 0 <= j < self.nodes@[k].edges@.len() implies self
                    .has_node((#[trigger] self.nodes@[k].edges@[j]).0) by {
                    if k != i {
                        assert(self.nodes@[k] == pre.nodes@[k]);
                        assert(pre.has_node(pre.nodes@[k].edges@[j].0));
                    } else {
                        let t = self.nodes@[k].edges@[j].0;
                        lemma_edge_at_index(nn, j);
                        assert(node_has_edge(nn, t));
                        if t == target {
                            assert(pre.has_node(t));
                        } else {
                            assert(node_has_edge(on, t));
                            let jj = edge_target_index(on, t);
                            assert(pre.has_node(pre.nodes@[i as int].edges@[jj].0));
                        }
                    }
                }
            }
            pre.lemma_node_at_index(i as int);
            self.lemma_node_at_index(i as int);
            assert forall|a: NodeId, b: NodeId| #[trigger]
                self.has_edge(a, b) <==> pre.has_edge(a, b) || (a == source && b == target) by {
                if a == source {
                    assert(self.node_index(a) == i);
                    assert(pre.node_index(a) == i);
                } else {
                    if self.has_node(a) {
                        let k = self.node_index(a);
                        assert(self.nodes@[k].id == a);
                        assert(k != i);
                        assert(self.nodes@[k] == pre.nodes@[k]);
                        pre.lemma_node_at_index(k);
                        assert(pre.node_index(a) == k);
                    }
                }
            }
            assert(self.edge_weight(source, target) == weight) by {
                assert(self.node_index(source) == i);
            }
            assert forall|a: NodeId, b: NodeId|
                #[trigger] pre.has_edge(a, b) && !(a == source && b == target) implies self
                .edge_weight(a, b) == pre.edge_weight(a, b) by {
                let k = pre.node_index(a);
                assert(pre.nodes@[k].id == a);
                pre.lemma_node_at_index(k);
                self.lemma_node_at_index(k);
                if a == source {
                    assert(k == i);
                } else {
                    assert(k != i);
                    assert(self.nodes@[k] == pre.nodes@[k]);
                }
            }
        }
    }

    /// Graphs with pointwise equal node ids agree on node membership.
    proof fn lemma_same_ids_same_nodes(self, pre: MyGraph, x: NodeId)
        requires
            self.nodes@.len() == pre.nodes@.len(),
            forall|k: int|
                0 <= k < self.nodes@.len() ==> (#[trigger] self.nodes@[k]).id == pre.nodes@[k].id,
        ensures
            self.has_node(x) <==> pre.has_node(x),
    {
        if self.has_node(x) {
            let k = choose|k: int|
                0 <= k < self.nodes@.len() && (#[trigger] self.nodes@[k]).id == x;
            assert(pre.nodes@[k].id == x);
        }
        if pre.has_node(x) {
            let k = choose|k: int| 0 <= k < pre.nodes@.len() && (#[trigger] pre.nodes@[k]).id == x;
            assert(self.nodes@[k].id == x);
        }
    }

    /// Adds `v` to the node set.  Idempotent: adding a present node succeeds
    /// and changes nothing.  Fails with
    /// [`MeritRankError::InvalidNode`] if and only if `v` is the absent
    /// sentinel.
    pub fn add_node(&mut self, v: NodeId) -> (res: Result<(), MeritRankError>)
        requires
            old(self).wf(),
        ensures
            final(self).wf(),
            res is Err <==> v is Absent,
            match res {
                Ok(()) => {
                    &&& final(self).has_node(v)
                    &&& forall|x: NodeId| #[trigger]
                        final(self).has_node(x) <==> old(self).has_node(x) || x == v
                    &&& forall|a: NodeId, b: NodeId| #[trigger]
                        final(self).has_edge(a, b) <==> old(self).has_edge(a, b)
                    &&& forall|a: NodeId, b: NodeId|
                        #[trigger] old(self).has_edge(a, b) ==> final(self).edge_weight(a, b)
                            == old(self).edge_weight(a, b)
                    &&& old(self).has_node(v) ==> *final(self) == *old(self)
                },
                Err(e) => e == MeritRankError::InvalidNode && *final(self) == *old(self),
            },
    {
        if v.is_absent() {
            return Err(MeritRankError::InvalidNode);
        }
        self.ensure_node(v);
        Ok(())
    }

    /// Inserts the directed edge `source -> target` with the given weight,
    /// overwriting the weight if the edge already exists; missing endpoints
    /// are added to the node set first.
    ///
    /// Fails with [`MeritRankError::SelfReferenceNotAllowed`] if and only if
    /// `source == target`, and with [`MeritRankError::InvalidNode`]
    /// otherwise if and only if either endpoint is the absent sentinel; a
    /// failed call leaves the graph untouched.
    pub fn add_edge(&mut self, source: NodeId, target: NodeId, weight: Weight) -> (res: Result<
        (),
        MeritRankError,
    >)
        requires
            old(self).wf(),
        ensures
            final(self).wf(),
            res is Err <==> (source == target || source is Absent || target is Absent),
            match res {
                Ok(()) => {
                    &&& forall|x: NodeId| #[trigger]
                        final(self).has_node(x) <==> old(self).has_node(x) || x == source || x
                            == target
                    &&& forall|a: NodeId, b: NodeId| #[trigger]
                        final(self).has_edge(a, b) <==> old(self).has_edge(a, b) || (a == source
                            && b == target)
                    &&& final(self).edge_weight(source, target) == weight
                    &&& forall|a: NodeId, b: NodeId|
                        #[trigger] old(self).has_edge(a, b) && !(a == source && b == target)
                            ==> final(self).edge_weight(a, b) == old(self).edge_weight(a, b)
                },
                Err(e) => {
                    &&& *final(self) == *old(self)
                    &&& (e == MeritRankError::SelfReferenceNotAllowed <==> source == target)
                    &&& (e == MeritRankError::InvalidNode <==> source != target && (source
                        is Absent || target is Absent))
                },
            },
    {
        if source == target {
            return Err(MeritRankError::SelfReferenceNotAllowed);
        }
        if source.is_absent() || target.is_absent() {
            return Err(MeritRankError::InvalidNode);
        }
        let ghost g0 = *self;
        self.ensure_node(source);
        let ghost m1 = *self;
        self.ensure_node(target);
        let ghost mid = *self;
        match self.find_node(source) {
            Some(i) => {
                proof {
                    assert(mid.nodes@[i as int].id == source);
                }
                self.upsert_edge_at(i, target, weight);
            },
            None => {
                // Unreachable: `source` was just ensured present.
                proof {
                    assert(false);
                }
            },
        }
        proof {
            assert forall|a: NodeId, b: NodeId|
                #[trigger] g0.has_edge(a, b) && !(a == source && b == target) implies self
                .edge_weight(a, b) == g0.edge_weight(a, b) by {
                assert(m1.has_edge(a, b));
                assert(m1.edge_weight(a, b) == g0.edge_weight(a, b));
                assert(mid.has_edge(a, b));
                assert(mid.edge_weight(a, b) == m1.edge_weight(a, b));
                assert(self.edge_weight(a, b) == mid.edge_weight(a, b));
            }
        }
        Ok(())
    }

    /// Removes the edge `source -> target` if it is present; removing an
    /// absent edge is a no-op, never an error.  The node set is unchanged.
    pub fn remove_edge(&mut self, source: NodeId, target: NodeId)
        requires
            old(self).wf(),
        ensures
            final(self).wf(),
            forall|x: NodeId| #[trigger] final(self).has_node(x) <==> old(self).has_node(x),
            !final(self).has_edge(source, target),
            forall|a: NodeId, b: NodeId|
                !(a == source && b == target) ==> (#[trigger] final(self).has_edge(a, b) <==> old(
                    self,
                ).has_edge(a, b)),
            forall|a: NodeId, b: NodeId|
                !(a == source && b == target) && #[trigger] old(self).has_edge(a, b) ==> final(self).edge_weight(a, b) == old(self).edge_weight(a, b),
            !old(self).has_edge(source, target) ==> *final(self) == *old(self),
    {
        let ghost pre = *self;
        match self.find_node(source) {
            Some(i) => {
                proof {
                    pre.lemma_node_at_index(i as int);
                }
                self.remove_edge_at(i, target);
            },
            None => {
                proof {
                    assert(!pre.has_edge(source, target));
                }
            },
        }
    }

    /// Removes the edge toward `target` from the node at position `i`, then
    /// shows that exactly that edge left the graph.
    fn remove_edge_at(&mut self, i: usize, target: NodeId)
        requires
            old(self).wf(),
            i < old(self).nodes@.len(),
        ensures
            final(self).wf(),
            forall|x: NodeId| #[trigger] final(self).has_node(x) <==> old(self).has_node(x),
            !final(self).has_edge(old(self).nodes@[i as int].id, target),
            forall|a: NodeId, b: NodeId|
                !(a == old(self).nodes@[i as int].id && b == target) ==> (#[trigger] final(self).has_edge(a, b) <==> old(self).has_edge(a, b)),
            forall|a: NodeId, b: NodeId|
                !(a == old(self).nodes@[i as int].id && b == target) && #[trigger] old(self).has_edge(a, b) ==> final(self).edge_weight(a, b) == old(self).edge_weight(a, b),
            !old(self).has_edge(old(self).nodes@[i as int].id, target) ==> *final(self) == *old(self),
    {
        let ghost pre = *self;
        let ghost source = pre.nodes@[i as int].id;
        let pos = edge_position(&self.nodes[i], target);
        let j = match pos {
            None => {
                proof {
                    pre.lemma_node_at_index(i as int);
                    assert(!node_has_edge(pre.nodes@[i as int], target));
                    assert(!pre.has_edge(source, target));
                }
                return ;
            },
            Some(j) => j,
        };
        {
            let entry = &mut self.nodes[i];
            remove_edge_slot(entry, j);
        }
        proof {
            let nn = self.nodes@[i as int];
            let on = pre.nodes@[i as int];
            assert(self.nodes@ =~= pre.nodes@.update(i as int, nn));
            assert forall|k: int| 0 <= k < self.nodes@.len() implies (#[trigger] self.nodes@[k]).id
                == pre.nodes@[k].id by {
                if k != i {
                    assert(self.nodes@[k] == pre.nodes@[k]);
                }
            }
            assert forall|x: NodeId| #[trigger]
                self.has_node(x) <==> pre.has_node(x) by {
                self.lemma_same_ids_same_nodes(pre, x);
            }
            assert(self.wf()) by {
                assert forall|k: int| 0 <= k < self.nodes@.len() implies node_wf(
                    #[trigger] self.nodes@[k],
                ) by {
                    if k != i {
                        assert(self.nodes@[k] == pre.nodes@[k]);
                    }
                }
                assert forall|k: int, j: int|
                    0 <= k < self.nodes@.len() && 0 <= j < self.nodes@[k].edges@.len() implies self
                    .has_node((#[trigger] self.nodes@[k].edges@[j]).0) by {
                    if k != i {
                        assert(self.nodes@[k] == pre.nodes@[k]);
                        assert(pre.has_node(pre.nodes@[k].edges@[j].0));
                    } else {
                        let t = self.nodes@[k].edges@[j].0;
                        lemma_edge_at_index(nn, j);
                        assert(node_has_edge(on, t));
                        let jj = edge_target_index(on, t);
                        assert(pre.has_node(pre.nodes@[i as int].edges@[jj].0));
                    }
                }
            }
            pre.lemma_node_at_index(i as int);
            self.lemma_node_at_index(i as int);
            assert(!self.has_edge(source, target));
            assert forall|a: NodeId, b: NodeId|
                !(a == source && b == target) implies (#[trigger] self.has_edge(a, b) <==> pre
                .has_edge(a, b)) by {
                if self.has_node(a) {
                    let k = self.node_index(a);
                    assert(self.nodes@[k].id == a);
                    pre.lemma_node_at_index(k);
                    if k != i {
                        assert(self.nodes@[k] == pre.nodes@[k]);
                    } else {
                        assert(a == source);
                    }
                }
            }
            assert forall|a: NodeId, b: NodeId|
                !(a == source && b == target) && #[trigger] pre.has_edge(a, b) implies self
                .edge_weight(a, b) == pre.edge_weight(a, b) by {
                let k = pre.node_index(a);
                assert(pre.nodes@[k].id == a);
                pre.lemma_node_at_index(k);
                self.lemma_node_at_index(k);
                if k != i {
                    assert(self.nodes@[k] == pre.nodes@[k]);
                } else {
                    assert(a == source);
                }
            }
        }
    }

    /// Drops every node and every edge.  The owning calculator's `clear`
    /// also drops the cached walks alongside this.
    pub fn clear(&mut self)
        ensures
            final(self).wf(),
            final(self).nodes@.len() == 0,
            forall|v: NodeId| !final(self).has_node(v),
            forall|s: NodeId, t: NodeId| !final(self).has_edge(s, t),
    {
        self.nodes = Vec::new();
    }

    /// The weight of the edge `s -> t`, if that edge is present.
    pub fn edge_weight_of(&self, s: NodeId, t: NodeId) -> (r: Option<Weight>)
        requires
            self.wf(),
        ensures
            match r {
                Some(w) => self.has_edge(s, t) && w == self.edge_weight(s, t),
                None => !self.has_edge(s, t),
            },
    {
        let i = match self.find_node(s) {
            Some(i) => i,
            None => {
                return None;
            },
        };
        proof {
            self.lemma_node_at_index(i as int);
        }
        match edge_position(&self.nodes[i], t) {
            Some(j) => {
                proof {
                    lemma_edge_at_index(self.nodes@[i as int], j as int);
                }
                Some(self.nodes[i].edges[j].1)
            },
            None => {
                proof {
                    assert(!node_has_edge(self.nodes@[i as int], t));
                }
                None
            },
        }
    }

    /// A point-in-time snapshot of every edge as `(source, target, weight)`
    /// triples: each listed triple is an edge of the graph, every edge is
    /// listed, and no ordered pair is listed twice.
    pub fn get_edges(&self) -> (r: Vec<(NodeId, NodeId, Weight)>)
        requires
            self.wf(),
        ensures
            forall|k: int|
                0 <= k < r@.len() ==> self.has_edge(#[trigger] r@[k].0, r@[k].1) && r@[k].2
                    == self.edge_weight(r@[k].0, r@[k].1),
            forall|a: NodeId, b: NodeId| #[trigger]
                self.has_edge(a, b) ==> exists|k: int|
                    0 <= k < r@.len() && (#[trigger] r@[k].0) == a && r@[k].1 == b,
            forall|k: int, l: int|
                0 <= k < l < r@.len() ==> !((#[trigger] r@[k]).0 == (#[trigger] r@[l]).0 && r@[k].1
                    == r@[l].1),
    {
        let mut r: Vec<(NodeId, NodeId, Weight)> = Vec::new();
        let mut i: usize = 0;
        while i < self.nodes.len()
            invariant
                self.wf(),
                0 <= i <= self.nodes@.len(),
                forall|k: int|
                    0 <= k < r@.len() ==> self.has_edge((#[trigger] r@[k]).0, r@[k].1) && r@[k].2
                        == self.edge_weight(r@[k].0, r@[k].1) && self.node_index(r@[k].0) < i,
                forall|a: NodeId, b: NodeId|
                    #[trigger] self.has_edge(a, b) && self.node_index(a) < i ==> exists|k: int|
                        0 <= k < r@.len() && (#[trigger] r@[k]).0 == a && r@[k].1 == b,
                forall|k: int, l: int|
                    0 <= k < l < r@.len() ==> !((#[trigger] r@[k]).0 == (#[trigger] r@[l]).0
                        && r@[k].1 == r@[l].1),
            decreases self.nodes@.len() - i,
        {
            let node_id = self.nodes[i].id;
            proof {
                self.lemma_node_at_index(i as int);
            }
            let mut j: usize = 0;
            while j < self.nodes[i].edges.len()
                invariant
                    self.wf(),
                    0 <= i < self.nodes@.len(),
                    node_id == self.nodes@[i as int].id,
                    self.node_index(node_id) == i,
                    0 <= j <= self.nodes@[i as int].edges@.len(),
                    forall|k: int|
                        0 <= k < r@.len() ==> self.has_edge((#[trigger] r@[k]).0, r@[k].1)
                            && r@[k].2 == self.edge_weight(r@[k].0, r@[k].1) && (self.node_index(
                            r@[k].0,
                        ) < i || (self.node_index(r@[k].0) == i && edge_target_index(
                            self.nodes@[i as int],
                            r@[k].1,
                        ) < j)),
                    forall|a: NodeId, b: NodeId|
                        #[trigger] self.has_edge(a, b) && (self.node_index(a) < i || (
                        self.node_index(a) == i && edge_target_index(self.nodes@[i as int], b)
                            < j)) ==> exists|k: int|
                            0 <= k < r@.len() && (#[trigger] r@[k]).0 == a && r@[k].1 == b,
                    forall|k: int, l: int|
                        0 <= k < l < r@.len() ==> !((#[trigger] r@[k]).0 == (#[trigger] r@[l]).0
                            && r@[k].1 == r@[l].1),
                decreases self.nodes@[i as int].edges@.len() - j,
            {
                let edge = self.nodes[i].edges[j];
                let ghost rpre = r@;
                r.push((node_id, edge.0, edge.1));
                proof {
                    let newk = rpre.len() as int;
                    assert(r@ =~= rpre.push((node_id, edge.0, edge.1)));
                    lemma_edge_at_index(self.nodes@[i as int], j as int);
                    assert(self.has_edge(node_id, edge.0));
                    assert(self.edge_weight(node_id, edge.0) == edge.1);
                    assert(edge_target_index(self.nodes@[i as int], edge.0) == j);
                    assert forall|k: int| 0 <= k < newk implies r@[k] == rpre[k] by {}
                    // The fresh entry cannot repeat an earlier pair: earlier
                    // pairs sit at a strictly earlier slot of this node or
                    // at an earlier node.
                    assert forall|k: int|
                        0 <= k < newk implies !(r@[k].0 == node_id && r@[k].1 == edge.0) by {}
                    assert forall|a: NodeId, b: NodeId|
                        #[trigger] self.has_edge(a, b) && (self.node_index(a) < i || (
                        self.node_index(a) == i && edge_target_index(self.nodes@[i as int], b) < j
                            + 1)) implies exists|k: int|
                        0 <= k < r@.len() && (#[trigger] r@[k]).0 == a && r@[k].1 == b by {
                        if self.node_index(a) == i && edge_target_index(
                            self.nodes@[i as int],
                            b,
                        ) == j {
                            assert(self.nodes@[i as int].id == a);
                            assert(a == node_id);
                            assert(node_has_edge(self.nodes@[i as int], b));
                            assert(self.nodes@[i as int].edges@[j as int].0 == b);
                            assert(b == edge.0);
                            assert(r@[newk].0 == a && r@[newk].1 == b);
                        } else {
                            let k = choose|k: int|
                                0 <= k < rpre.len() && (#[trigger] rpre[k]).0 == a && rpre[k].1
                                    == b;
                            assert(r@[k].0 == a && r@[k].1 == b);
                        }
                    }
                }
                j = j + 1;
            }
            proof {
                assert forall|a: NodeId, b: NodeId|
                    #[trigger] self.has_edge(a, b) && self.node_index(a) < i + 1 implies exists|
                    k: int,
                |
                    0 <= k < r@.len() && (#[trigger] r@[k]).0 == a && r@[k].1 == b by {
                    if self.node_index(a) == i {
                        assert(node_has_edge(self.nodes@[i as int], b));
                        assert(edge_target_index(self.nodes@[i as int], b)
                            < self.nodes@[i as int].edges@.len());
                    }
                }
            }
            i = i + 1;
        }
        proof {
            assert forall|a: NodeId, b: NodeId| #[trigger]
                self.has_edge(a, b) implies exists|k: int|
                0 <= k < r@.len() && (#[trigger] r@[k]).0 == a && r@[k].1 == b by {
                assert(self.node_index(a) < self.nodes@.len());
            }
        }
        r
    }
}

} // verus!
