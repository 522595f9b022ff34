//! Rank aggregation: exact visit counting, the distrust policy, and the
//! deterministic listing order.

use vstd::prelude::*;

use crate::errors::MeritRankError;
use crate::graph::MyGraph;
use crate::node::NodeId;

verus! {

/// One normalized score: the exact rational `num / den`.  All entries of
/// one rank listing share the same denominator — the total number of node
/// occurrences across the ego's cached walks — so the scores over all
/// listed nodes sum to at most one.
#[derive(Debug, Clone, Copy, PartialEq, Eq, Structural)]
pub struct Score {
    /// The numerator: the penalized visit count of the node.
    pub num: u128,
    /// The denominator: the total occurrence count over the ego's walks.
    pub den: u128,
}

/// The number of occurrences of `v` in one node list.
pub open spec fn count_in(s: Seq<NodeId>, v: NodeId) -> nat
    decreases s.len(),
{
    if s.len() == 0 {
        0
    } else {
        count_in(s.drop_last(), v) + (if s.last() == v {
            1nat
        } else {
            0nat
        })
    }
}

/// The total number of node occurrences over a set of walks: the shared
/// score denominator.
pub open spec fn total_len(ws: Seq<Seq<NodeId>>) -> nat
    decreases ws.len(),
{
    if ws.len() == 0 {
        0
    } else {
        total_len(ws.drop_last()) + ws.last().len()
    }
}

/// The number of occurrences of `v` over a set of walks: its raw
/// visitation frequency.
pub open spec fn visits(ws: Seq<Seq<NodeId>>, v: NodeId) -> nat
    decreases ws.len(),
{
    if ws.len() == 0 {
        0
    } else {
        visits(ws.drop_last(), v) + count_in(ws.last(), v)
    }
}

/// The documented distrust policy: a node the ego distrusts directly — the
/// graph holds a negative-weight edge from the ego to it — scores zero,
/// whatever trust its walks would have earned it; every other node scores
/// its raw visit count.  Negative edges carry no transition mass, so this
/// is the one place distrust acts.
pub open spec fn score_num(g: MyGraph, ws: Seq<Seq<NodeId>>, ego: NodeId, v: NodeId) -> nat {
    if g.has_edge(ego, v) && g.edge_weight(ego, v) < 0 {
        0
    } else {
        visits(ws, v)
    }
}

/// The strict listing order of rank entries: higher score first, ties by
/// ascending node id, so that equal inputs always list identically.
pub open spec fn rank_before(x: (NodeId, Score), y: (NodeId, Score)) -> bool {
    x.1.num > y.1.num || (x.1.num == y.1.num && crate::node::node_lt(x.0, y.0))
}

/// The sum of the numerators of a rank listing.
pub open spec fn sum_nums(entries: Seq<(NodeId, Score)>) -> int
    decreases entries.len(),
{
    if entries.len() == 0 {
        0
    } else {
        sum_nums(entries.drop_last()) + entries.last().1.num
    }
}

/// Taking one more node of a walk adds one occurrence of that node.
pub proof fn lemma_count_in_take_step(s: Seq<NodeId>, v: NodeId, j: int)
    requires
        0 <= j < s.len(),
    ensures
        count_in(s.take(j + 1), v) == count_in(s.take(j), v) + (if s[j] == v {
            1int
        } else {
            0int
        }),
{
    assert(s.take(j + 1).drop_last() =~= s.take(j));
    assert(s.take(j + 1).last() == s[j]);
}

/// Taking one more walk adds its length and its occurrence counts.
pub proof fn lemma_walks_take_step(ws: Seq<Seq<NodeId>>, i: int)
    requires
        0 <= i < ws.len(),
    ensures
        total_len(ws.take(i + 1)) == total_len(ws.take(i)) + ws[i].len(),
        forall|v: NodeId| #[trigger]
            visits(ws.take(i + 1), v) == visits(ws.take(i), v) + count_in(ws[i], v),
{
    assert(ws.take(i + 1).drop_last() =~= ws.take(i));
    assert(ws.take(i + 1).last() == ws[i]);
}

/// A count of occurrences never exceeds the length counted over.
pub proof fn lemma_count_in_le_len(s: Seq<NodeId>, v: NodeId)
    ensures
        count_in(s, v) <= s.len(),
    decreases s.len(),
{
    if s.len() > 0 {
        lemma_count_in_le_len(s.drop_last(), v);
    }
}

/// A node's visit count never exceeds the total occurrence count.
pub proof fn lemma_visits_le_total(ws: Seq<Seq<NodeId>>, v: NodeId)
    ensures
        visits(ws, v) <= total_len(ws),
    decreases ws.len(),
{
    if ws.len() > 0 {
        lemma_visits_le_total(ws.drop_last(), v);
        lemma_count_in_le_len(ws.last(), v);
    }
}

/// The total occurrence count is bounded by the number of walks times the
/// length cap, provided every walk respects the cap.
pub proof fn lemma_total_len_bound(ws: Seq<Seq<NodeId>>, cap: int)
    requires
        0 <= cap,
        forall|k: int| 0 <= k < ws.len() ==> (#[trigger] ws[k]).len() <= cap,
    ensures
        total_len(ws) <= ws.len() * cap,
    decreases ws.len(),
{
    if ws.len() > 0 {
        assert forall|k: int|
            0 <= k < ws.drop_last().len() implies (#[trigger] ws.drop_last()[k]).len() <= cap by {
            assert(ws.drop_last()[k] == ws[k]);
        }
        lemma_total_len_bound(ws.drop_last(), cap);
        assert((ws.len() - 1) * cap + cap == ws.len() * cap) by (nonlinear_arith);
    }
}

/// The sum over a list of pairwise distinct nodes of their occurrence
/// counts in one walk: used to bound a whole listing's mass.
pub open spec fn sum_counts(nodes: Seq<NodeId>, s: Seq<NodeId>) -> int
    decreases nodes.len(),
{
    if nodes.len() == 0 {
        0
    } else {
        sum_counts(nodes.drop_last(), s) + count_in(s, nodes.last())
    }
}

/// The sum over a list of pairwise distinct nodes of their visit counts
/// over a set of walks.
pub open spec fn sum_visits(nodes: Seq<NodeId>, ws: Seq<Seq<NodeId>>) -> int
    decreases nodes.len(),
{
    if nodes.len() == 0 {
        0
    } else {
        sum_visits(nodes.drop_last(), ws) + visits(ws, nodes.last())
    }
}

/// A node absent from the list contributes nothing to the listed counts.
proof fn lemma_sum_counts_absent(nodes: Seq<NodeId>, s: Seq<NodeId>, x: NodeId)
    requires
        !nodes.contains(x),
    ensures
        sum_counts(nodes, s.push(x)) == sum_counts(nodes, s),
    decreases nodes.len(),
{
    if nodes.len() > 0 {
        assert(!nodes.drop_last().contains(x)) by {
            if nodes.drop_last().contains(x) {
                let t = choose|t: int|
                    0 <= t < nodes.drop_last().len() && nodes.drop_last()[t] == x;
                assert(nodes[t] == x);
            }
        }
        lemma_sum_counts_absent(nodes.drop_last(), s, x);
        assert(nodes.last() != x);
        lemma_count_in_push(s, x, nodes.last());
    }
}

/// Appending a node to a walk bumps exactly that node's count.
proof fn lemma_count_in_push(s: Seq<NodeId>, x: NodeId, v: NodeId)
    ensures
        count_in(s.push(x), v) == count_in(s, v) + (if x == v {
            1int
        } else {
            0int
        }),
{
    assert(s.push(x).drop_last() =~= s);
    assert(s.push(x).last() == x);
}

/// Over pairwise distinct nodes, the listed counts of one walk sum to at
/// most the walk's length: each occurrence is counted at most once.
pub proof fn lemma_sum_counts_le_len(nodes: Seq<NodeId>, s: Seq<NodeId>)
    requires
        forall|k: int, l: int| 0 <= k < l < nodes.len() ==> nodes[k] != nodes[l],
    ensures
        0 <= sum_counts(nodes, s) <= s.len(),
    decreases s.len(),
{
    lemma_sum_counts_nonneg(nodes, s);
    if s.len() == 0 {
        assert(s =~= Seq::<NodeId>::empty());
        lemma_sum_counts_empty(nodes);
    } else {
        let s0 = s.drop_last();
        let x = s.last();
        assert(s =~= s0.push(x));
        lemma_sum_counts_le_len(nodes, s0);
        if nodes.contains(x) {
            let t = choose|t: int| 0 <= t < nodes.len() && nodes[t] == x;
            lemma_sum_counts_split(nodes, s0, x, t);
        } else {
            lemma_sum_counts_absent(nodes, s0, x);
        }
    }
}

/// Listed counts are never negative.
proof fn lemma_sum_counts_nonneg(nodes: Seq<NodeId>, s: Seq<NodeId>)
    ensures
        0 <= sum_counts(nodes, s),
    decreases nodes.len(),
{
    if nodes.len() > 0 {
        lemma_sum_counts_nonneg(nodes.drop_last(), s);
    }
}

/// Over an empty walk, every listed count is zero.
proof fn lemma_sum_counts_empty(nodes: Seq<NodeId>)
    ensures
        sum_counts(nodes, Seq::<NodeId>::empty()) == 0,
    decreases nodes.len(),
{
    if nodes.len() > 0 {
        lemma_sum_counts_empty(nodes.drop_last());
    }
}

/// Appending one node to the walk raises the listed sum by exactly one
/// when the node is listed (at the unique position `t`).
proof fn lemma_sum_counts_split(nodes: Seq<NodeId>, s: Seq<NodeId>, x: NodeId, t: int)
    requires
        forall|k: int, l: int| 0 <= k < l < nodes.len() ==> nodes[k] != nodes[l],
        0 <= t < nodes.len(),
        nodes[t] == x,
    ensures
        sum_counts(nodes, s.push(x)) == sum_counts(nodes, s) + 1,
    decreases nodes.len(),
{
    if t == nodes.len() - 1 {
        assert(nodes.last() == x);
        assert(!nodes.drop_last().contains(x)) by {
            if nodes.drop_last().contains(x) {
                let u = choose|u: int|
                    0 <= u < nodes.drop_last().len() && nodes.drop_last()[u] == x;
                assert(nodes[u] == x);
                assert(nodes[u] != nodes[t]);
            }
        }
        lemma_sum_counts_absent(nodes.drop_last(), s, x);
        lemma_count_in_push(s, x, x);
    } else {
        assert(nodes.last() != x);
        assert forall|k: int, l: int|
            0 <= k < l < nodes.drop_last().len() implies nodes.drop_last()[k]
            != nodes.drop_last()[l] by {
            assert(nodes.drop_last()[k] == nodes[k]);
            assert(nodes.drop_last()[l] == nodes[l]);
        }
        assert(nodes.drop_last()[t] == x);
        lemma_sum_counts_split(nodes.drop_last(), s, x, t);
        lemma_count_in_push(s, x, nodes.last());
    }
}

/// Over pairwise distinct nodes, the listed visit counts sum to at most
/// the total occurrence count.
pub proof fn lemma_sum_visits_le_total(nodes: Seq<NodeId>, ws: Seq<Seq<NodeId>>)
    requires
        forall|k: int, l: int| 0 <= k < l < nodes.len() ==> nodes[k] != nodes[l],
    ensures
        0 <= sum_visits(nodes, ws) <= total_len(ws),
    decreases ws.len(),
{
    if ws.len() == 0 {
        assert(ws =~= Seq::<Seq<NodeId>>::empty());
        lemma_sum_visits_base(nodes);
    } else {
        lemma_sum_visits_le_total(nodes, ws.drop_last());
        lemma_sum_visits_step(nodes, ws);
        lemma_sum_counts_le_len(nodes, ws.last());
    }
}

/// With no walks, every listed visit count is zero.
proof fn lemma_sum_visits_base(nodes: Seq<NodeId>)
    ensures
        sum_visits(nodes, Seq::<Seq<NodeId>>::empty()) == 0,
    decreases nodes.len(),
{
    if nodes.len() > 0 {
        lemma_sum_visits_base(nodes.drop_last());
    }
}

/// The listed visit sum decomposes walk by walk.
proof fn lemma_sum_visits_step(nodes: Seq<NodeId>, ws: Seq<Seq<NodeId>>)
    requires
        ws.len() > 0,
    ensures
        sum_visits(nodes, ws) == sum_visits(nodes, ws.drop_last()) + sum_counts(nodes, ws.last()),
    decreases nodes.len(),
{
    if nodes.len() > 0 {
        lemma_sum_visits_step(nodes.drop_last(), ws);
    }
}

/// Whether the tally holds an entry for `v`.
pub open spec fn tally_has(cs: Seq<(NodeId, u128)>, v: NodeId) -> bool {
    exists|e: int| 0 <= e < cs.len() && (#[trigger] cs[e]).0 == v
}

/// The position of `v`'s entry in the tally.
pub open spec fn tally_index(cs: Seq<(NodeId, u128)>, v: NodeId) -> int
    recommends
        tally_has(cs, v),
{
    choose|e: int| 0 <= e < cs.len() && (#[trigger] cs[e]).0 == v
}

/// The tallied value of `v`: zero when no entry exists.
pub open spec fn tally_val(cs: Seq<(NodeId, u128)>, v: NodeId) -> int {
    if tally_has(cs, v) {
        cs[tally_index(cs, v)].1 as int
    } else {
        0
    }
}

/// Tally keys are pairwise distinct.
pub open spec fn tally_distinct(cs: Seq<(NodeId, u128)>) -> bool {
    forall|e: int, f: int| 0 <= e < f < cs.len() ==> (#[trigger] cs[e]).0 != (#[trigger] cs[f]).0
}

/// With distinct keys, the entry at position `e` is found at `e`.
pub proof fn lemma_tally_at_index(cs: Seq<(NodeId, u128)>, e: int)
    requires
        tally_distinct(cs),
        0 <= e < cs.len(),
    ensures
        tally_has(cs, cs[e].0),
        tally_index(cs, cs[e].0) == e,
        tally_val(cs, cs[e].0) == cs[e].1,
{
    let v = cs[e].0;
    assert(tally_has(cs, v));
    let f = tally_index(cs, v);
    if f != e {
        if f < e {
            assert(cs[f].0 != cs[e].0);
        } else {
            assert(cs[e].0 != cs[f].0);
        }
    }
}

/// Bumps `v`'s tally by one, creating the entry at one if absent.
pub(crate) fn bump(cs: &mut Vec<(NodeId, u128)>, v: NodeId)
    requires
        tally_distinct(old(cs)@),
        tally_val(old(cs)@, v) < u128::MAX,
    ensures
        tally_distinct(final(cs)@),
        forall|x: NodeId| #[trigger] tally_has(final(cs)@, x) <==> tally_has(old(cs)@, x) || x == v,
        tally_val(final(cs)@, v) == tally_val(old(cs)@, v) + 1,
        forall|x: NodeId|
            x != v ==> #[trigger] tally_val(final(cs)@, x) == tally_val(old(cs)@, x),
        (forall|e: int| 0 <= e < old(cs)@.len() ==> (#[trigger] old(cs)@[e]).1 >= 1) ==> (forall|
            e: int,
        |
            0 <= e < final(cs)@.len() ==> (#[trigger] final(cs)@[e]).1 >= 1),
{
    let ghost pre = cs@;
    let mut e: usize = 0;
    while e < cs.len()
        invariant
            cs@ == pre,
            pre == old(cs)@,
            tally_distinct(pre),
            tally_val(pre, v) < u128::MAX,
            0 <= e <= cs@.len(),
            forall|f: int| 0 <= f < e ==> (#[trigger] cs@[f]).0 != v,
        decreases cs@.len() - e,
    {
        if cs[e].0 == v {
            proof {
                lemma_tally_at_index(pre, e as int);
            }
            let c = cs[e].1;
            cs[e] = (v, c + 1);
            proof {
                let ei = e as int;
                assert(cs@ =~= pre.update(ei, (v, (c + 1) as u128)));
                assert forall|f: int|
                    0 <= f < cs@.len() implies (#[trigger] cs@[f]).0 == pre[f].0 by {
                    if f != ei {
                        assert(cs@[f] == pre[f]);
                    }
                }
                assert(tally_distinct(cs@));
                lemma_tally_at_index(cs@, ei);
                assert forall|x: NodeId| #[trigger]
                    tally_has(cs@, x) <==> tally_has(pre, x) || x == v by {
                    lemma_tally_same_keys(cs@, pre, x);
                    if tally_has(pre, x) || x == v {
                        assert(tally_has(pre, x) ==> tally_has(cs@, x));
                        assert(x == v ==> tally_has(cs@, x));
                    }
                }
                assert forall|x: NodeId|
                    x != v implies #[trigger] tally_val(cs@, x) == tally_val(pre, x) by {
                    lemma_tally_same_keys(cs@, pre, x);
                    if tally_has(pre, x) {
                        let f = tally_index(pre, x);
                        lemma_tally_at_index(pre, f);
                        assert(f != ei);
                        assert(cs@[f] == pre[f]);
                        lemma_tally_at_index(cs@, f);
                    }
                }
            }
            return ;
        }
        e = e + 1;
    }
    let ghost m0 = cs@.len() as int;
    cs.push((v, 1));
    proof {
        assert(cs@ =~= pre.push((v, 1u128)));
        assert(!tally_has(pre, v)) by {
            if tally_has(pre, v) {
                let f = tally_index(pre, v);
                assert(pre[f].0 == v);
                assert(false);
            }
        }
        assert forall|f: int| 0 <= f < m0 implies cs@[f] == pre[f] by {}
        assert(tally_distinct(cs@)) by {
            assert forall|e1: int, f1: int|
                0 <= e1 < f1 < cs@.len() implies (#[trigger] cs@[e1]).0 != (
            #[trigger] cs@[f1]).0 by {
                if f1 == m0 {
                    assert(pre[e1].0 != v) by {
                        if pre[e1].0 == v {
                            assert(tally_has(pre, v));
                        }
                    }
                }
            }
        }
        assert(cs@[m0].0 == v);
        lemma_tally_at_index(cs@, m0);
        assert(tally_val(cs@, v) == 1);
        assert forall|x: NodeId| #[trigger]
            tally_has(cs@, x) <==> tally_has(pre, x) || x == v by {
            if tally_has(cs@, x) && x != v {
                let f = tally_index(cs@, x);
                assert(cs@[f].0 == x);
                assert(f != m0);
                assert(pre[f].0 == x);
                assert(tally_has(pre, x));
            }
            if tally_has(pre, x) {
                let f = tally_index(pre, x);
                assert(cs@[f].0 == x);
                assert(tally_has(cs@, x));
            }
        }
        assert forall|x: NodeId|
            x != v implies #[trigger] tally_val(cs@, x) == tally_val(pre, x) by {
            if tally_has(pre, x) {
                let f = tally_index(pre, x);
                lemma_tally_at_index(pre, f);
                assert(cs@[f] == pre[f]);
                lemma_tally_at_index(cs@, f);
            } else {
                assert(!tally_has(cs@, x));
            }
        }
    }
}

/// The total of a prefix never exceeds the total of the whole.
pub proof fn lemma_total_take_le(ws: Seq<Seq<NodeId>>, i: int)
    requires
        0 <= i <= ws.len(),
    ensures
        total_len(ws.take(i)) <= total_len(ws),
    decreases ws.len() - i,
{
    if i == ws.len() {
        assert(ws.take(i) =~= ws);
    } else {
        lemma_walks_take_step(ws, i);
        lemma_total_take_le(ws, i + 1);
    }
}

/// The numerator sum of entries whose numerators are bounded by their
/// nodes' visit counts, over pairwise distinct nodes, never exceeds the
/// total occurrence count: no listing claims more trust than was walked.
pub proof fn lemma_sum_nums_le_total(entries: Seq<(NodeId, Score)>, ws: Seq<Seq<NodeId>>)
    requires
        forall|k: int, l: int|
            0 <= k < l < entries.len() ==> (#[trigger] entries[k]).0 != (#[trigger] entries[l]).0,
        forall|k: int|
            0 <= k < entries.len() ==> (#[trigger] entries[k]).1.num <= visits(ws, entries[k].0),
    ensures
        sum_nums(entries) <= total_len(ws),
{
    let keys = entries.map_values(|x: (NodeId, Score)| x.0);
    lemma_sum_nums_le_keys(entries, ws);
    assert forall|k: int, l: int| 0 <= k < l < keys.len() implies keys[k] != keys[l] by {
        assert(keys[k] == entries[k].0);
        assert(keys[l] == entries[l].0);
    }
    lemma_sum_visits_le_total(keys, ws);
}

/// The numerator sum is bounded by the visit sum over the entry keys.
proof fn lemma_sum_nums_le_keys(entries: Seq<(NodeId, Score)>, ws: Seq<Seq<NodeId>>)
    requires
        forall|k: int|
            0 <= k < entries.len() ==> (#[trigger] entries[k]).1.num <= visits(ws, entries[k].0),
    ensures
        sum_nums(entries) <= sum_visits(entries.map_values(|x: (NodeId, Score)| x.0), ws),
    decreases entries.len(),
{
    let keys = entries.map_values(|x: (NodeId, Score)| x.0);
    if entries.len() == 0 {
    } else {
        let e0 = entries.drop_last();
        assert forall|k: int|
            0 <= k < e0.len() implies (#[trigger] e0[k]).1.num <= visits(ws, e0[k].0) by {
            assert(e0[k] == entries[k]);
        }
        lemma_sum_nums_le_keys(e0, ws);
        assert(e0.map_values(|x: (NodeId, Score)| x.0) =~= keys.drop_last());
        assert(keys.last() == entries.last().0);
    }
}

/// Tallies with pointwise equal keys agree on which nodes they hold.
pub(crate) proof fn lemma_tally_same_keys(a: Seq<(NodeId, u128)>, b: Seq<(NodeId, u128)>, x: NodeId)
    requires
        a.len() == b.len(),
        forall|f: int| 0 <= f < a.len() ==> (#[trigger] a[f]).0 == b[f].0,
    ensures
        tally_has(a, x) <==> tally_has(b, x),
{
    if tally_has(a, x) {
        let f = tally_index(a, x);
        assert(b[f].0 == x);
    }
    if tally_has(b, x) {
        let f = tally_index(b, x);
        assert(a[f].0 == x);
    }
}

/// The strict listing order on raw tally entries: higher count first,
/// ties by ascending node id.
pub open spec fn pair_before(x: (NodeId, u128), y: (NodeId, u128)) -> bool {
    x.1 > y.1 || (x.1 == y.1 && crate::node::node_lt(x.0, y.0))
}

/// The listing order is total: two entries are ordered one way, the other
/// way, or equal.
pub proof fn lemma_pair_total(x: (NodeId, u128), y: (NodeId, u128))
    ensures
        pair_before(x, y) || pair_before(y, x) || x == y,
        !(pair_before(x, y) && pair_before(y, x)),
{
    crate::node::lemma_node_order_total(x.0, y.0);
}

/// Whether `x` lists strictly before `y`.
pub(crate) fn is_before(x: &(NodeId, u128), y: &(NodeId, u128)) -> (r: bool)
    ensures
        r == pair_before(*x, *y),
{
    if x.1 > y.1 {
        true
    } else if x.1 == y.1 {
        x.0.precedes(&y.0)
    } else {
        false
    }
}

/// Removing the entry at `m` by a swap with the last slot keeps every
/// other key's presence and value.
proof fn lemma_tally_swap_remove(pre: Seq<(NodeId, u128)>, post: Seq<(NodeId, u128)>, m: int)
    requires
        tally_distinct(pre),
        0 <= m < pre.len(),
        post == pre.update(m, pre.last()).drop_last(),
    ensures
        tally_distinct(post),
        !tally_has(post, pre[m].0),
        forall|x: NodeId|
            x != pre[m].0 ==> (#[trigger] tally_has(post, x) <==> tally_has(pre, x)),
        forall|x: NodeId|
            x != pre[m].0 && #[trigger] tally_has(pre, x) ==> tally_val(post, x) == tally_val(
                pre,
                x,
            ),
{
    let key = pre[m].0;
    let last = pre.len() - 1;
    assert forall|t: int| 0 <= t < post.len() implies post[t] == pre[if t == m {
        last
    } else {
        t
    }] by {}
    assert(tally_distinct(post)) by {
        assert forall|e: int, f: int|
            0 <= e < f < post.len() implies (#[trigger] post[e]).0 != (#[trigger] post[f]).0 by {
            let eo: int = if e == m {
                last
            } else {
                e
            };
            let fo: int = if f == m {
                last
            } else {
                f
            };
            assert(post[e] == pre[eo]);
            assert(post[f] == pre[fo]);
            assert(eo != fo);
            if eo < fo {
                assert(pre[eo].0 != pre[fo].0);
            } else {
                assert(pre[fo].0 != pre[eo].0);
            }
        }
    }
    assert(!tally_has(post, key)) by {
        if tally_has(post, key) {
            let f = tally_index(post, key);
            let fo: int = if f == m {
                last
            } else {
                f
            };
            assert(post[f] == pre[fo]);
            assert(pre[fo].0 == key);
            if fo != m {
                if fo < m {
                    assert(pre[fo].0 != pre[m].0);
                } else {
                    assert(pre[m].0 != pre[fo].0);
                }
                assert(false);
            } else {
                assert(f == m && fo == last);
                assert(m == last);
                assert(f < post.len());
                assert(post.len() == pre.len() - 1);
                assert(false);
            }
        }
    }
    assert forall|x: NodeId|
        x != key implies (#[trigger] tally_has(post, x) <==> tally_has(pre, x)) by {
        if tally_has(post, x) {
            let f = tally_index(post, x);
            let fo: int = if f == m {
                last
            } else {
                f
            };
            assert(post[f] == pre[fo]);
            assert(pre[fo].0 == x);
            assert(tally_has(pre, x));
        }
        if tally_has(pre, x) {
            let f = tally_index(pre, x);
            assert(pre[f].0 == x);
            assert(f != m);
            if f == last {
                assert(m < last);
                assert(post[m] == pre[last]);
                assert(post[m].0 == x);
                assert(tally_has(post, x));
            } else {
                assert(post[f] == pre[f]);
                assert(tally_has(post, x));
            }
        }
    }
    assert forall|x: NodeId|
        x != key && #[trigger] tally_has(pre, x) implies tally_val(post, x) == tally_val(
        pre,
        x,
    ) by {
        let f = tally_index(pre, x);
        lemma_tally_at_index(pre, f);
        assert(f != m);
        if f == last {
            assert(m < last);
            assert(post[m] == pre[last]);
            lemma_tally_at_index(post, m);
        } else {
            assert(post[f] == pre[f]);
            lemma_tally_at_index(post, f);
        }
    }
}

/// Orders tally entries for listing: higher count first, ties by
/// ascending node id.  The result holds exactly the input's entries.
pub(crate) fn sort_entries(entries: Vec<(NodeId, u128)>) -> (out: Vec<(NodeId, u128)>)
    requires
        tally_distinct(entries@),
    ensures
        tally_distinct(out@),
        out@.len() == entries@.len(),
        forall|x: NodeId| #[trigger] tally_has(out@, x) <==> tally_has(entries@, x),
        forall|x: NodeId|
            #[trigger] tally_has(out@, x) ==> tally_val(out@, x) == tally_val(entries@, x),
        forall|k: int, l: int|
            0 <= k < l < out@.len() ==> pair_before(#[trigger] out@[k], #[trigger] out@[l]),
{
    let ghost src = entries@;
    let mut rem = entries;
    let mut out: Vec<(NodeId, u128)> = Vec::new();
    while rem.len() > 0
        invariant
            tally_distinct(src),
            tally_distinct(rem@),
            tally_distinct(out@),
            out@.len() + rem@.len() == src.len(),
            forall|x: NodeId|
                #[trigger] tally_has(src, x) <==> (tally_has(out@, x) || tally_has(rem@, x)),
            forall|x: NodeId| !(#[trigger] tally_has(out@, x) && tally_has(rem@, x)),
            forall|x: NodeId|
                #[trigger] tally_has(out@, x) ==> tally_val(out@, x) == tally_val(src, x),
            forall|x: NodeId|
                #[trigger] tally_has(rem@, x) ==> tally_val(rem@, x) == tally_val(src, x),
            forall|k: int, l: int|
                0 <= k < l < out@.len() ==> pair_before(#[trigger] out@[k], #[trigger] out@[l]),
            forall|k: int, q: int|
                0 <= k < out@.len() && 0 <= q < rem@.len() ==> pair_before(
                    #[trigger] out@[k],
                    #[trigger] rem@[q],
                ),
        decreases rem@.len(),
    {
        let mut m: usize = 0;
        let mut q: usize = 1;
        while q < rem.len()
            invariant
                rem@.len() > 0,
                0 <= m < q <= rem@.len(),
                tally_distinct(rem@),
                forall|t: int|
                    0 <= t < q ==> t == m || pair_before(#[trigger] rem@[m as int], rem@[t]),
            decreases rem@.len() - q,
        {
            if is_before(&rem[q], &rem[m]) {
                proof {
                    assert forall|t: int|
                        0 <= t < q + 1 implies t == q || pair_before(
                        #[trigger] rem@[q as int],
                        rem@[t],
                    ) by {
                        if t != q && t != m {
                            lemma_pair_total(rem@[q as int], rem@[m as int]);
                            lemma_pair_trans(rem@[q as int], rem@[m as int], rem@[t]);
                        }
                    }
                }
                m = q;
            } else {
                proof {
                    lemma_pair_total(rem@[q as int], rem@[m as int]);
                    lemma_tally_at_index(rem@, q as int);
                    lemma_tally_at_index(rem@, m as int);
                    assert(rem@[q as int].0 != rem@[m as int].0);
                    assert(pair_before(rem@[m as int], rem@[q as int]));
                }
            }
            q = q + 1;
        }
        let ghost rpre = rem@;
        let x = rem.swap_remove(m);
        let ghost opre = out@;
        out.push(x);
        proof {
            assert(x == rpre[m as int]);
            assert(rem@ == rpre.update(m as int, rpre.last()).drop_last());
            lemma_tally_swap_remove(rpre, rem@, m as int);
            assert(out@ =~= opre.push(x));
            lemma_tally_at_index(rpre, m as int);
            // the extracted entry leads every remaining one
            assert forall|t: int|
                0 <= t < rpre.len() implies t == m || pair_before(x, rpre[t]) by {}
            // out stays sorted and keeps leading the remainder
            assert forall|k: int, l: int|
                0 <= k < l < out@.len() implies pair_before(
                #[trigger] out@[k],
                #[trigger] out@[l],
            ) by {
                if l == opre.len() {
                    assert(out@[l] == x);
                    assert(out@[k] == opre[k]);
                    assert(pair_before(opre[k], rpre[m as int]));
                } else {
                    assert(out@[k] == opre[k]);
                    assert(out@[l] == opre[l]);
                }
            }
            assert forall|k: int, q2: int|
                0 <= k < out@.len() && 0 <= q2 < rem@.len() implies pair_before(
                #[trigger] out@[k],
                #[trigger] rem@[q2],
            ) by {
                let qo: int = if q2 == m {
                    rpre.len() - 1
                } else {
                    q2
                };
                assert(rem@[q2] == rpre[qo]);
                if k < opre.len() {
                    assert(out@[k] == opre[k]);
                    assert(pair_before(opre[k], rpre[qo]));
                } else {
                    assert(out@[k] == x);
                    assert(qo != m) by {
                        if qo == m {
                            assert(q2 == m && m == rpre.len() - 1);
                            assert(q2 < rem@.len());
                            assert(rem@.len() == rpre.len() - 1);
                        }
                    }
                    assert(pair_before(x, rpre[qo]));
                }
            }
            // tally bookkeeping for the moved entry
            assert(tally_distinct(out@)) by {
                assert forall|e: int, f: int|
                    0 <= e < f < out@.len() implies (#[trigger] out@[e]).0 != (
                #[trigger] out@[f]).0 by {
                    if f == opre.len() {
                        assert(out@[e] == opre[e]);
                        assert(out@[f] == x);
                        lemma_tally_at_index(opre, e);
                        assert(tally_has(opre, opre[e].0));
                        assert(tally_has(rpre, x.0));
                        if opre[e].0 == x.0 {
                            assert(tally_has(opre, x.0) && tally_has(rpre, x.0));
                            assert(false);
                        }
                    }
                }
            }
            assert forall|x2: NodeId| #[trigger]
                tally_has(out@, x2) <==> (tally_has(opre, x2) || x2 == x.0) by {
                if tally_has(out@, x2) {
                    let f = tally_index(out@, x2);
                    if f < opre.len() {
                        assert(out@[f] == opre[f]);
                        assert(tally_has(opre, x2));
                    } else {
                        assert(out@[f] == x);
                    }
                }
                if tally_has(opre, x2) {
                    let f = tally_index(opre, x2);
                    assert(out@[f] == opre[f]);
                    assert(tally_has(out@, x2));
                }
                if x2 == x.0 {
                    assert(out@[opre.len() as int] == x);
                    assert(tally_has(out@, x2));
                }
            }
            assert forall|x2: NodeId|
                #[trigger] tally_has(out@, x2) implies tally_val(out@, x2) == tally_val(
                src,
                x2,
            ) by {
                if x2 == x.0 {
                    assert(!tally_has(opre, x2));
                    let f = tally_index(out@, x2);
                    assert(out@[f].0 == x.0);
                    if f < opre.len() {
                        assert(opre[f].0 == x.0);
                        assert(tally_has(opre, x2));
                        assert(false);
                    }
                    assert(out@[f] == x);
                    lemma_tally_at_index(out@, f);
                    assert(tally_val(out@, x2) == x.1);
                    assert(tally_val(rpre, x2) == x.1);
                } else {
                    assert(tally_has(opre, x2));
                    let f = tally_index(opre, x2);
                    lemma_tally_at_index(opre, f);
                    assert(out@[f] == opre[f]);
                    lemma_tally_at_index(out@, f);
                }
            }
        }
    }
    proof {
        assert forall|x: NodeId| #[trigger]
            tally_has(out@, x) <==> tally_has(src, x) by {
            assert(!tally_has(rem@, x));
        }
    }
    out
}

/// The listing order is transitive.
proof fn lemma_pair_trans(x: (NodeId, u128), y: (NodeId, u128), z: (NodeId, u128))
    requires
        pair_before(x, y),
        pair_before(y, z),
    ensures
        pair_before(x, z),
{
    if x.1 == y.1 && y.1 == z.1 {
        crate::node::lemma_node_order_trans(x.0, y.0, z.0);
    }
}

/// A node list's presence in a listing, by node id.
pub open spec fn listed(entries: Seq<(NodeId, Score)>, v: NodeId) -> bool {
    exists|k: int| 0 <= k < entries.len() && (#[trigger] entries[k]).0 == v
}

/// Strictly ordered listings that agree entry-for-entry on shared nodes
/// and list the same nodes are identical.
proof fn lemma_sorted_listing_unique(r1: Seq<(NodeId, Score)>, r2: Seq<(NodeId, Score)>)
    requires
        forall|k: int, l: int|
            0 <= k < l < r1.len() ==> rank_before(#[trigger] r1[k], #[trigger] r1[l]),
        forall|k: int, l: int|
            0 <= k < l < r2.len() ==> rank_before(#[trigger] r2[k], #[trigger] r2[l]),
        forall|k: int, l: int|
            0 <= k < r1.len() && 0 <= l < r2.len() && (#[trigger] r1[k]).0 == (
            #[trigger] r2[l]).0 ==> r1[k] == r2[l],
        forall|v: NodeId| #[trigger] listed(r1, v) <==> listed(r2, v),
    ensures
        r1 =~= r2,
    decreases r1.len() + r2.len(),
{
    if r1.len() == 0 {
        if r2.len() > 0 {
            assert(listed(r2, r2[0].0));
            assert(listed(r1, r2[0].0));
            assert(false);
        }
    } else if r2.len() == 0 {
        assert(listed(r1, r1[0].0));
        assert(listed(r2, r1[0].0));
        assert(false);
    } else {
        // the heads coincide: each head appears in the other listing, and
        // the strict order forbids both appearing strictly later
        assert(listed(r1, r1[0].0));
        assert(listed(r2, r1[0].0));
        let l1 = choose|l: int| 0 <= l < r2.len() && (#[trigger] r2[l]).0 == r1[0].0;
        assert(r2[l1] == r1[0]);
        assert(listed(r2, r2[0].0));
        assert(listed(r1, r2[0].0));
        let k1 = choose|k: int| 0 <= k < r1.len() && (#[trigger] r1[k]).0 == r2[0].0;
        assert(r1[k1] == r2[0]);
        if l1 > 0 && k1 > 0 {
            assert(rank_before(r2[0], r2[l1]));
            assert(rank_before(r1[0], r1[k1]));
            assert(rank_before(r1[0], r2[0]) && rank_before(r2[0], r1[0]));
            lemma_rank_before_asym(r1[0], r2[0]);
            assert(false);
        }
        assert(r1[0] == r2[0]);
        assert forall|k: int, l: int|
            0 <= k < l < r1.len() implies (#[trigger] r1[k]).0 != (#[trigger] r1[l]).0 by {
            if r1[k].0 == r1[l].0 {
                assert(listed(r1, r1[k].0));
                assert(listed(r2, r1[k].0));
                let m = choose|m: int| 0 <= m < r2.len() && (#[trigger] r2[m]).0 == r1[k].0;
                assert(r1[k] == r2[m] && r1[l] == r2[m]);
                assert(rank_before(r1[k], r1[l]));
                lemma_rank_before_asym(r1[k], r1[l]);
                crate::node::lemma_node_order_total(r1[k].0, r1[l].0);
                assert(false);
            }
        }
        assert forall|k: int, l: int|
            0 <= k < l < r2.len() implies (#[trigger] r2[k]).0 != (#[trigger] r2[l]).0 by {
            if r2[k].0 == r2[l].0 {
                assert(listed(r2, r2[k].0));
                assert(listed(r1, r2[k].0));
                let m = choose|m: int| 0 <= m < r1.len() && (#[trigger] r1[m]).0 == r2[k].0;
                assert(r2[k] == r1[m] && r2[l] == r1[m]);
                assert(rank_before(r2[k], r2[l]));
                lemma_rank_before_asym(r2[k], r2[l]);
                crate::node::lemma_node_order_total(r2[k].0, r2[l].0);
                assert(false);
            }
        }
        let t1 = r1.drop_first();
        let t2 = r2.drop_first();
        assert forall|k: int, l: int|
            0 <= k < l < t1.len() implies rank_before(#[trigger] t1[k], #[trigger] t1[l]) by {
            assert(t1[k] == r1[k + 1] && t1[l] == r1[l + 1]);
        }
        assert forall|k: int, l: int|
            0 <= k < l < t2.len() implies rank_before(#[trigger] t2[k], #[trigger] t2[l]) by {
            assert(t2[k] == r2[k + 1] && t2[l] == r2[l + 1]);
        }
        assert forall|k: int, l: int|
            0 <= k < t1.len() && 0 <= l < t2.len() && (#[trigger] t1[k]).0 == (
        #[trigger] t2[l]).0 implies t1[k] == t2[l] by {
            assert(t1[k] == r1[k + 1] && t2[l] == r2[l + 1]);
        }
        assert forall|v: NodeId| #[trigger] listed(t1, v) <==> listed(t2, v) by {
            lemma_listed_tail(r1, v);
            lemma_listed_tail(r2, v);
        }
        lemma_sorted_listing_unique(t1, t2);
        assert forall|k: int| 0 <= k < r1.len() implies r1[k] == r2[k] by {
            if k > 0 {
                assert(t1[k - 1] == t2[k - 1]);
                assert(r1[k] == t1[k - 1] && r2[k] == t2[k - 1]);
            }
        }
    }
}

/// The listing order is asymmetric.
proof fn lemma_rank_before_asym(x: (NodeId, Score), y: (NodeId, Score))
    ensures
        !(rank_before(x, y) && rank_before(y, x)),
{
    crate::node::lemma_node_order_total(x.0, y.0);
}

/// A node is listed in the tail exactly when it is listed and is not the
/// head, provided the head's node appears only at the head.
proof fn lemma_listed_tail(r: Seq<(NodeId, Score)>, v: NodeId)
    requires
        r.len() > 0,
        forall|k: int, l: int|
            0 <= k < l < r.len() ==> (#[trigger] r[k]).0 != (#[trigger] r[l]).0,
    ensures
        listed(r.drop_first(), v) <==> (listed(r, v) && v != r[0].0),
{
    let t = r.drop_first();
    if listed(t, v) {
        let k = choose|k: int| 0 <= k < t.len() && (#[trigger] t[k]).0 == v;
        assert(t[k] == r[k + 1]);
        assert(r[k + 1].0 == v);
        assert(listed(r, v));
        assert(r[0].0 != r[k + 1].0);
    }
    if listed(r, v) && v != r[0].0 {
        let k = choose|k: int| 0 <= k < r.len() && (#[trigger] r[k]).0 == v;
        assert(k > 0);
        assert(t[k - 1] == r[k]);
        assert(listed(t, v));
    }
}

/// Determinism of rank listings: two complete listings over the same
/// graph, cached walks and ego — each sorted, exact in its scores and
/// listing every visited non-ego node — are identical.  With the cache
/// untouched between two calls, `get_ranks` therefore returns identical
/// output both times.
pub proof fn lemma_ranks_deterministic(
    g: MyGraph,
    vw: Seq<Seq<NodeId>>,
    ego: NodeId,
    r1: Seq<(NodeId, Score)>,
    r2: Seq<(NodeId, Score)>,
)
    requires
        forall|k: int|
            0 <= k < r1.len() ==> {
                let x = #[trigger] r1[k];
                &&& x.0 != ego
                &&& visits(vw, x.0) > 0
                &&& x.1.den == total_len(vw)
                &&& x.1.num == score_num(g, vw, ego, x.0)
            },
        forall|k: int|
            0 <= k < r2.len() ==> {
                let x = #[trigger] r2[k];
                &&& x.0 != ego
                &&& visits(vw, x.0) > 0
                &&& x.1.den == total_len(vw)
                &&& x.1.num == score_num(g, vw, ego, x.0)
            },
        forall|k: int, l: int|
            0 <= k < l < r1.len() ==> rank_before(#[trigger] r1[k], #[trigger] r1[l]),
        forall|k: int, l: int|
            0 <= k < l < r2.len() ==> rank_before(#[trigger] r2[k], #[trigger] r2[l]),
        forall|v: NodeId|
            #![trigger visits(vw, v)]
            v != ego && visits(vw, v) > 0 ==> exists|k: int|
                0 <= k < r1.len() && (#[trigger] r1[k]).0 == v,
        forall|v: NodeId|
            #![trigger visits(vw, v)]
            v != ego && visits(vw, v) > 0 ==> exists|k: int|
                0 <= k < r2.len() && (#[trigger] r2[k]).0 == v,
    ensures
        r1 == r2,
{
    assert forall|k: int, l: int|
        0 <= k < r1.len() && 0 <= l < r2.len() && (#[trigger] r1[k]).0 == (
    #[trigger] r2[l]).0 implies r1[k] == r2[l] by {}
    assert forall|v: NodeId| #[trigger] listed(r1, v) <==> listed(r2, v) by {
        if listed(r1, v) {
            let k = choose|k: int| 0 <= k < r1.len() && (#[trigger] r1[k]).0 == v;
            assert(visits(vw, v) > 0 && v != ego);
            assert(listed(r2, v));
        }
        if listed(r2, v) {
            let k = choose|k: int| 0 <= k < r2.len() && (#[trigger] r2[k]).0 == v;
            assert(visits(vw, v) > 0 && v != ego);
            assert(listed(r1, v));
        }
    }
    lemma_sorted_listing_unique(r1, r2);
}

} // verus!
