//! Walks and the random-walk sampler that produces them.

use vstd::prelude::*;

use crate::graph::{lemma_edge_at_index, MyGraph};
use crate::node::{NodeId, Weight};
use crate::random::{lemma_positive_mass_from_element, restart_fires, weighted_choice};

verus! {

/// The maximum number of nodes a single walk may visit before it is
/// terminated with [`WalkEnd::MaxLength`].
pub const MAX_WALK_NODES: usize = 80;

/// The shape of every usable cached walk relative to the current graph: it
/// starts at its ego, takes at least one hop, respects the length cap, and
/// every hop follows a strictly positive edge of the graph.
pub open spec fn walk_shape_ok(g: MyGraph, ego: NodeId, s: Seq<NodeId>) -> bool {
    &&& 2 <= s.len() <= MAX_WALK_NODES
    &&& s[0] == ego
    &&& path_ok(g, s)
}

/// The recorded reason a walk terminated.  A terminated walk never steps
/// again; these are the only exits of the sampling loop.
#[derive(Debug, Clone, Copy, PartialEq, Eq, Structural)]
pub enum WalkEnd {
    /// The configured maximum number of nodes was reached.
    MaxLength,
    /// The node reached had no strictly positive outgoing edge.
    NoViableEdge,
    /// The per-step restart probability fired, returning control to the ego.
    RestartFired,
}

/// One sampled walk: the ordered nodes it visited, starting at the ego,
/// together with the reason it terminated.  Immutable once sampled; the
/// unit of caching and invalidation.
pub struct RandomWalk {
    /// The visited nodes in order; the first is the ego.
    pub nodes: Vec<NodeId>,
    /// Why the walk stopped.
    pub end: WalkEnd,
}

/// Whether the path `s` traverses the directed edge `a -> b`: some step of
/// the walk moves from `a` directly to `b`.  Walks that merely pass through
/// `a` or `b` without taking this transition do not use the edge.
pub open spec fn seq_uses_edge(s: Seq<NodeId>, a: NodeId, b: NodeId) -> bool {
    exists|p: int| 0 <= p < s.len() - 1 && (#[trigger] s[p]) == a && s[p + 1] == b
}

/// Whether every step of the path `s` follows a strictly positive edge of
/// the graph `g`: the condition under which a cached walk is still valid.
pub open spec fn path_ok(g: MyGraph, s: Seq<NodeId>) -> bool {
    forall|p: int|
        0 <= p < s.len() - 1 ==> g.has_edge(#[trigger] s[p], s[p + 1]) && g.edge_weight(
            s[p],
            s[p + 1],
        ) > 0
}

/// A path that was valid before an edge mutation and did not use the
/// mutated ordered pair is still valid afterwards: only that one edge's
/// presence or weight changed.
pub proof fn lemma_path_survives_mutation(g0: MyGraph, g1: MyGraph, s: Seq<NodeId>, a: NodeId, b: NodeId)
    requires
        path_ok(g0, s),
        !seq_uses_edge(s, a, b),
        forall|x: NodeId, y: NodeId|
            !(x == a && y == b) ==> (#[trigger] g1.has_edge(x, y) <==> g0.has_edge(x, y)),
        forall|x: NodeId, y: NodeId|
            !(x == a && y == b) && #[trigger] g0.has_edge(x, y) ==> g1.edge_weight(x, y)
                == g0.edge_weight(x, y),
    ensures
        path_ok(g1, s),
{
    assert forall|p: int|
        0 <= p < s.len() - 1 implies g1.has_edge(#[trigger] s[p], s[p + 1]) && g1.edge_weight(
        s[p],
        s[p + 1],
    ) > 0 by {
        assert(!(s[p] == a && s[p + 1] == b));
        assert(g0.has_edge(s[p], s[p + 1]));
    }
}

/// A valid path extended by one hop along a strictly positive edge is
/// still a valid path.
pub proof fn lemma_path_push(g: MyGraph, s: Seq<NodeId>, x: NodeId)
    requires
        path_ok(g, s),
        s.len() > 0,
        g.has_edge(s.last(), x),
        g.edge_weight(s.last(), x) > 0,
    ensures
        path_ok(g, s.push(x)),
{
    let s2 = s.push(x);
    assert forall|p: int|
        0 <= p < s2.len() - 1 implies g.has_edge(#[trigger] s2[p], s2[p + 1]) && g.edge_weight(
        s2[p],
        s2[p + 1],
    ) > 0 by {
        if p < s.len() - 1 {
            assert(s2[p] == s[p]);
            assert(s2[p + 1] == s[p + 1]);
        } else {
            assert(s2[p] == s.last());
            assert(s2[p + 1] == x);
        }
    }
}

impl RandomWalk {
    /// The number of nodes the walk visited.
    pub fn len(&self) -> (n: usize)
        ensures
            n == self.nodes@.len(),
    {
        self.nodes.len()
    }

    /// Whether the walk traverses the directed edge `a -> b`.
    pub fn uses_edge(&self, a: NodeId, b: NodeId) -> (r: bool)
        ensures
            r == seq_uses_edge(self.nodes@, a, b),
    {
        walk_uses_edge(&self.nodes, a, b)
    }
}

/// Whether the node list `nodes` steps from `a` directly to `b` anywhere.
pub fn walk_uses_edge(nodes: &Vec<NodeId>, a: NodeId, b: NodeId) -> (r: bool)
    ensures
        r == seq_uses_edge(nodes@, a, b),
{
    if nodes.len() == 0 {
        return false;
    }
    let mut p: usize = 0;
    while p < nodes.len() - 1
        invariant
            nodes@.len() > 0,
            0 <= p <= nodes@.len(),
            forall|q: int| 0 <= q < p ==> !((#[trigger] nodes@[q]) == a && nodes@[q + 1] == b),
        decreases nodes@.len() - p,
    {
        if nodes[p] == a && nodes[p + 1] == b {
            return true;
        }
        p = p + 1;
    }
    false
}

/// Whether `v` currently has a strictly positive outgoing edge: the
/// executable mirror of [`MyGraph::has_positive_out`].
pub(crate) fn has_viable_out(g: &MyGraph, v: NodeId) -> (r: bool)
    requires
        g.wf(),
    ensures
        r == g.has_positive_out(v),
{
    let i = match g.find_node(v) {
        Some(i) => i,
        None => {
            proof {
                if g.has_positive_out(v) {
                    let t = choose|t: NodeId| g.has_edge(v, t) && g.edge_weight(v, t) > 0;
                    assert(g.has_node(v));
                }
            }
            return false;
        },
    };
    proof {
        g.lemma_node_at_index(i as int);
    }
    let mut j: usize = 0;
    let m = g.nodes[i].edges.len();
    while j < m
        invariant
            g.wf(),
            i < g.nodes@.len(),
            g.nodes@[i as int].id == v,
            g.node_index(v) == i as int,
            m == g.nodes@[i as int].edges@.len(),
            0 <= j <= m,
            forall|k: int| 0 <= k < j ==> (#[trigger] g.nodes@[i as int].edges@[k]).1 <= 0,
        decreases m - j,
    {
        if g.nodes[i].edges[j].1 > 0 {
            proof {
                lemma_edge_at_index(g.nodes@[i as int], j as int);
                assert(g.has_edge(v, g.nodes@[i as int].edges@[j as int].0));
                assert(g.edge_weight(v, g.nodes@[i as int].edges@[j as int].0) > 0);
            }
            return true;
        }
        j = j + 1;
    }
    proof {
        if g.has_positive_out(v) {
            let t = choose|t: NodeId| g.has_edge(v, t) && g.edge_weight(v, t) > 0;
            let k = crate::graph::edge_target_index(g.nodes@[i as int], t);
            assert(g.nodes@[i as int].edges@[k].1 <= 0);
            assert(false);
        }
    }
    false
}

/// Copies the targets and weights of the node at position `i` into two
/// parallel lists for the weighted chooser.
fn edge_lists(g: &MyGraph, i: usize) -> (r: (Vec<NodeId>, Vec<Weight>))
    requires
        g.wf(),
        i < g.nodes@.len(),
    ensures
        r.0@.len() == g.nodes@[i as int].edges@.len(),
        r.1@.len() == g.nodes@[i as int].edges@.len(),
        forall|j: int|
            0 <= j < r.0@.len() ==> (#[trigger] r.0@[j]) == g.nodes@[i as int].edges@[j].0
                && r.1@[j] == g.nodes@[i as int].edges@[j].1,
{
    let mut ts: Vec<NodeId> = Vec::new();
    let mut ws: Vec<Weight> = Vec::new();
    let mut j: usize = 0;
    let m = g.nodes[i].edges.len();
    while j < m
        invariant
            i < g.nodes@.len(),
            m == g.nodes@[i as int].edges@.len(),
            0 <= j <= m,
            ts@.len() == j,
            ws@.len() == j,
            forall|k: int|
                0 <= k < j ==> (#[trigger] ts@[k]) == g.nodes@[i as int].edges@[k].0 && ws@[k]
                    == g.nodes@[i as int].edges@[k].1,
        decreases m - j,
    {
        let edge = g.nodes[i].edges[j];
        ts.push(edge.0);
        ws.push(edge.1);
        j = j + 1;
    }
    (ts, ws)
}

/// Samples one walk from `ego` over the current graph: the first hop is
/// always taken, each further step first draws the restart decision and
/// then hops with probability proportional to the strictly positive edge
/// weights, and the walk ends on the length cap, on a node with no viable
/// outgoing edge, or on a fired restart.
pub fn sample_walk(g: &MyGraph, ego: NodeId) -> (w: RandomWalk)
    requires
        g.wf(),
        g.has_positive_out(ego),
    ensures
        walk_shape_ok(*g, ego, w.nodes@),
        w.end is MaxLength ==> w.nodes@.len() == MAX_WALK_NODES,
        w.end is RestartFired ==> w.nodes@.len() < MAX_WALK_NODES,
        w.end is NoViableEdge ==> !g.has_positive_out(w.nodes@.last()),
{
    let mut nodes: Vec<NodeId> = Vec::new();
    nodes.push(ego);
    let i0 = match g.find_node(ego) {
        Some(i) => i,
        None => {
            proof {
                let t = choose|t: NodeId| g.has_edge(ego, t) && g.edge_weight(ego, t) > 0;
                assert(g.has_node(ego));
                assert(false);
            }
            return RandomWalk { nodes, end: WalkEnd::NoViableEdge };
        },
    };
    proof {
        g.lemma_node_at_index(i0 as int);
    }
    let (ts, ws) = edge_lists(g, i0);
    let j0 = match weighted_choice(&ws) {
        Ok(j) => j,
        Err(_) => {
            // Unreachable: the ego has a strictly positive outgoing edge.
            proof {
                let t = choose|t: NodeId| g.has_edge(ego, t) && g.edge_weight(ego, t) > 0;
                assert(g.has_edge(ego, t));
                assert(g.node_index(ego) == i0 as int);
                let n = g.nodes@[i0 as int];
                assert(crate::graph::node_has_edge(n, t));
                let k = crate::graph::edge_target_index(n, t);
                assert(0 <= k < n.edges@.len() && n.edges@[k].0 == t);
                assert(g.edge_weight(ego, t) == n.edges@[k].1);
                assert(ts@[k] == n.edges@[k].0);
                assert(ws@[k] > 0);
                lemma_positive_mass_from_element(ws@, k);
                assert(false);
            }
            return RandomWalk { nodes, end: WalkEnd::NoViableEdge };
        },
    };
    proof {
        lemma_edge_at_index(g.nodes@[i0 as int], j0 as int);
        assert(g.has_edge(ego, ts@[j0 as int]));
        assert(g.edge_weight(ego, ts@[j0 as int]) > 0);
    }
    let mut current = ts[j0];
    nodes.push(current);
    while nodes.len() < MAX_WALK_NODES
        invariant
            g.wf(),
            2 <= nodes@.len() <= MAX_WALK_NODES,
            nodes@[0] == ego,
            nodes@.last() == current,
            path_ok(*g, nodes@),
        decreases MAX_WALK_NODES - nodes@.len(),
    {
        if restart_fires() {
            return RandomWalk { nodes, end: WalkEnd::RestartFired };
        }
        let i = match g.find_node(current) {
            Some(i) => i,
            None => {
                // a node outside the graph has no outgoing edge at all
                proof {
                    if g.has_positive_out(current) {
                        let t = choose|t: NodeId|
                            g.has_edge(current, t) && g.edge_weight(current, t) > 0;
                        assert(g.has_node(current));
                    }
                }
                return RandomWalk { nodes, end: WalkEnd::NoViableEdge };
            },
        };
        proof {
            g.lemma_node_at_index(i as int);
        }
        let (ts2, ws2) = edge_lists(g, i);
        let j = match weighted_choice(&ws2) {
            Ok(j) => j,
            Err(_) => {
                // zero transition mass: no strictly positive outgoing edge
                proof {
                    if g.has_positive_out(current) {
                        let t = choose|t: NodeId|
                            g.has_edge(current, t) && g.edge_weight(current, t) > 0;
                        assert(g.node_index(current) == i as int);
                        let n = g.nodes@[i as int];
                        let k = crate::graph::edge_target_index(n, t);
                        assert(0 <= k < n.edges@.len() && n.edges@[k].0 == t);
                        assert(g.edge_weight(current, t) == n.edges@[k].1);
                        assert(ts2@[k] == n.edges@[k].0);
                        assert(ws2@[k] > 0);
                        lemma_positive_mass_from_element(ws2@, k);
                        assert(false);
                    }
                }
                return RandomWalk { nodes, end: WalkEnd::NoViableEdge };
            },
        };
        let next = ts2[j];
        proof {
            lemma_edge_at_index(g.nodes@[i as int], j as int);
            assert(g.has_edge(current, next));
            assert(g.edge_weight(current, next) > 0);
            lemma_path_push(*g, nodes@, next);
        }
        nodes.push(next);
        current = next;
    }
    RandomWalk { nodes, end: WalkEnd::MaxLength }
}


} // verus!
