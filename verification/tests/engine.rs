use meritrank::{MeritRank, MeritRankError, MyGraph, NodeId, Score};

fn fresh() -> MeritRank {
    MeritRank::new(MyGraph::new()).expect("constructing a calculator never fails")
}

#[test]
fn self_reference_is_rejected_for_every_id() {
    let mut mr = fresh();
    for x in [
        NodeId::UInt(0),
        NodeId::UInt(7),
        NodeId::Int(-3),
        NodeId::Int(0),
        NodeId::Absent,
    ] {
        for w in [1i64, 0, -5] {
            let r = mr.add_edge(x, x, w);
            assert!(matches!(r, Err(MeritRankError::SelfReferenceNotAllowed)));
        }
    }
}

#[test]
fn absent_endpoint_is_invalid() {
    let mut mr = fresh();
    let r = mr.add_edge(NodeId::Absent, NodeId::UInt(1), 1);
    assert!(matches!(r, Err(MeritRankError::InvalidNode)));
    let r = mr.add_edge(NodeId::UInt(1), NodeId::Absent, 1);
    assert!(matches!(r, Err(MeritRankError::InvalidNode)));
}

#[test]
fn calculate_on_missing_node_fails() {
    let mut mr = fresh();
    let r = mr.calculate(NodeId::UInt(9), 10);
    assert!(matches!(r, Err(MeritRankError::NodeDoesNotExist)));
    let r = mr.calculate(NodeId::Absent, 10);
    assert!(matches!(r, Err(MeritRankError::InvalidNode)));
}

#[test]
fn single_positive_edge_gives_exact_half_score() {
    let a = NodeId::UInt(1);
    let b = NodeId::UInt(2);
    let mut mr = fresh();
    mr.add_edge(a, b, 1).unwrap();
    mr.calculate(a, 10).unwrap();
    // every walk is exactly [a, b]: b's score is 10 occurrences out of 20
    let ranks = mr.get_ranks(a, None).unwrap();
    assert_eq!(ranks, vec![(b, Score { num: 10, den: 20 })]);
}

#[test]
fn chain_reaches_transitive_node_and_excludes_ego() {
    let a = NodeId::UInt(1);
    let b = NodeId::UInt(2);
    let c = NodeId::UInt(3);
    let mut mr = fresh();
    mr.add_edge(a, b, 1).unwrap();
    mr.add_edge(b, c, 1).unwrap();
    mr.calculate(a, 1000).unwrap();
    let ranks = mr.get_ranks(a, None).unwrap();
    assert!(ranks.iter().all(|(v, _)| *v != a), "the ego is never listed");
    let c_score = ranks
        .iter()
        .find(|(v, _)| *v == c)
        .expect("the transitive node is reached")
        .1;
    assert!(c_score.num > 0, "the transitive node scores positively");
    let b_score = ranks.iter().find(|(v, _)| *v == b).unwrap().1;
    assert!(b_score.num >= c_score.num, "the direct node scores at least as high");
}

#[test]
fn scores_sum_to_at_most_one() {
    let a = NodeId::UInt(1);
    let mut mr = fresh();
    mr.add_edge(a, NodeId::UInt(2), 3).unwrap();
    mr.add_edge(a, NodeId::UInt(3), 1).unwrap();
    mr.add_edge(NodeId::UInt(2), NodeId::UInt(3), 2).unwrap();
    mr.add_edge(NodeId::UInt(3), NodeId::UInt(4), 1).unwrap();
    mr.calculate(a, 500).unwrap();
    let ranks = mr.get_ranks(a, None).unwrap();
    let den = ranks[0].1.den;
    assert!(den > 0);
    assert!(ranks.iter().all(|(_, s)| s.den == den));
    let total: u128 = ranks.iter().map(|(_, s)| s.num).sum();
    assert!(total <= den, "scores sum to at most one");
}

#[test]
fn listing_is_sorted_descending_with_id_tie_break() {
    let a = NodeId::UInt(1);
    let mut mr = fresh();
    mr.add_edge(a, NodeId::UInt(2), 5).unwrap();
    mr.add_edge(a, NodeId::UInt(3), 1).unwrap();
    mr.add_edge(NodeId::UInt(2), NodeId::UInt(4), 1).unwrap();
    mr.calculate(a, 300).unwrap();
    let ranks = mr.get_ranks(a, None).unwrap();
    for w in ranks.windows(2) {
        let (x, y) = (&w[0], &w[1]);
        assert!(
            x.1.num > y.1.num || (x.1.num == y.1.num && id_key(x.0) < id_key(y.0)),
            "entries are strictly ordered"
        );
    }
}

fn id_key(v: NodeId) -> (u8, i128) {
    match v {
        NodeId::Absent => (0, 0),
        NodeId::Int(x) => (1, x as i128),
        NodeId::UInt(x) => (2, x as i128),
    }
}

#[test]
fn negative_only_edge_never_raises_random_choice_error() {
    let a = NodeId::UInt(1);
    let b = NodeId::UInt(2);
    let mut mr = fresh();
    mr.add_edge(a, b, -1).unwrap();
    // sampling cannot take even one hop, and that is not a sampler error
    assert!(mr.calculate(a, 10).is_ok());
    let r = mr.get_ranks(a, None);
    assert!(matches!(r, Err(MeritRankError::NoPathExists)));
}

#[test]
fn direct_distrust_zeroes_the_score() {
    let a = NodeId::UInt(1);
    let b = NodeId::UInt(2);
    let c = NodeId::UInt(3);
    let mut mr = fresh();
    mr.add_edge(a, b, 1).unwrap();
    mr.add_edge(b, c, 1).unwrap();
    mr.add_edge(a, c, -1).unwrap();
    mr.calculate(a, 1000).unwrap();
    let ranks = mr.get_ranks(a, None).unwrap();
    let c_score = ranks
        .iter()
        .find(|(v, _)| *v == c)
        .expect("the distrusted node is still reached and listed")
        .1;
    assert_eq!(c_score.num, 0, "direct distrust zeroes the score");
    let b_score = ranks.iter().find(|(v, _)| *v == b).unwrap().1;
    assert!(b_score.num > 0);
}

#[test]
fn removing_every_outgoing_edge_leaves_no_path() {
    let a = NodeId::UInt(1);
    let b = NodeId::UInt(2);
    let c = NodeId::UInt(3);
    let mut mr = fresh();
    mr.add_edge(a, b, 1).unwrap();
    mr.add_edge(a, c, 2).unwrap();
    mr.calculate(a, 20).unwrap();
    assert!(mr.get_ranks(a, None).is_ok());
    mr.remove_edge(a, b);
    mr.remove_edge(a, c);
    assert!(mr.calculate(a, 20).is_ok());
    let r = mr.get_ranks(a, None);
    assert!(matches!(r, Err(MeritRankError::NoPathExists)));
}

#[test]
fn repeated_calculate_is_a_cache_hit_with_identical_output() {
    let a = NodeId::UInt(1);
    let mut mr = fresh();
    mr.add_edge(a, NodeId::UInt(2), 2).unwrap();
    mr.add_edge(NodeId::UInt(2), NodeId::UInt(3), 1).unwrap();
    mr.calculate(a, 100).unwrap();
    let r1 = mr.get_ranks(a, None).unwrap();
    mr.calculate(a, 100).unwrap();
    let r2 = mr.get_ranks(a, None).unwrap();
    assert_eq!(r1, r2, "no resampling happened, output is bit-identical");
    mr.calculate(a, 50).unwrap();
    let r3 = mr.get_ranks(a, None).unwrap();
    assert_eq!(r1, r3, "a smaller quota is also a cache hit");
}

#[test]
fn mutation_in_disconnected_subgraph_is_local() {
    let a = NodeId::UInt(1);
    let b = NodeId::UInt(2);
    let x = NodeId::UInt(10);
    let y = NodeId::UInt(11);
    let mut mr = fresh();
    mr.add_edge(a, b, 1).unwrap();
    mr.add_edge(x, y, 1).unwrap();
    mr.calculate(a, 100).unwrap();
    let r1 = mr.get_ranks(a, None).unwrap();
    // mutate edges whose endpoints are disconnected from `a`
    mr.add_edge(x, y, 5).unwrap();
    mr.remove_edge(x, y);
    mr.add_edge(x, NodeId::UInt(12), 2).unwrap();
    mr.calculate(a, 100).unwrap();
    let r2 = mr.get_ranks(a, None).unwrap();
    assert_eq!(r1, r2, "scores for the ego are untouched");
}

#[test]
fn overwriting_an_edge_invalidates_its_walks() {
    let a = NodeId::UInt(1);
    let b = NodeId::UInt(2);
    let mut mr = fresh();
    mr.add_edge(a, b, 1).unwrap();
    mr.calculate(a, 50).unwrap();
    assert_eq!(
        mr.get_ranks(a, None).unwrap(),
        vec![(b, Score { num: 50, den: 100 })]
    );
    // overwriting the weight drops every walk that used the edge
    mr.add_edge(a, b, 2).unwrap();
    mr.calculate(a, 7).unwrap();
    assert_eq!(
        mr.get_ranks(a, None).unwrap(),
        vec![(b, Score { num: 7, den: 14 })]
    );
}

#[test]
fn limit_truncates_to_the_top_entries() {
    let a = NodeId::UInt(1);
    let mut mr = fresh();
    mr.add_edge(a, NodeId::UInt(2), 4).unwrap();
    mr.add_edge(a, NodeId::UInt(3), 2).unwrap();
    mr.add_edge(a, NodeId::UInt(4), 1).unwrap();
    mr.calculate(a, 400).unwrap();
    let full = mr.get_ranks(a, None).unwrap();
    let top = mr.get_ranks(a, Some(1)).unwrap();
    assert_eq!(top.len(), 1);
    assert_eq!(top[0], full[0]);
    let none = mr.get_ranks(a, Some(0)).unwrap();
    assert!(none.is_empty());
    let all = mr.get_ranks(a, Some(100)).unwrap();
    assert_eq!(all, full);
}

#[test]
fn clear_drops_graph_and_cache() {
    let a = NodeId::UInt(1);
    let mut mr = fresh();
    mr.add_edge(a, NodeId::UInt(2), 1).unwrap();
    mr.calculate(a, 10).unwrap();
    mr.clear();
    let r = mr.calculate(a, 10);
    assert!(matches!(r, Err(MeritRankError::NodeDoesNotExist)));
}

#[test]
fn zero_iterations_then_ranks_reports_no_path() {
    let a = NodeId::UInt(1);
    let mut mr = fresh();
    mr.add_edge(a, NodeId::UInt(2), 1).unwrap();
    mr.calculate(a, 0).unwrap();
    let r = mr.get_ranks(a, None);
    assert!(matches!(r, Err(MeritRankError::NoPathExists)));
}

#[test]
fn get_ranks_error_classification() {
    let mut mr = fresh();
    assert!(matches!(
        mr.get_ranks(NodeId::Absent, None),
        Err(MeritRankError::InvalidNode)
    ));
    assert!(matches!(
        mr.get_ranks(NodeId::UInt(5), None),
        Err(MeritRankError::NodeDoesNotExist)
    ));
    mr.add_edge(NodeId::UInt(5), NodeId::UInt(6), 1).unwrap();
    assert!(matches!(
        mr.get_ranks(NodeId::UInt(5), None),
        Err(MeritRankError::NoPathExists)
    ));
}
