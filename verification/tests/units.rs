use meritrank::{
    pick_index, sample_walk, weighted_choice, MeritRankError, MyGraph, NodeId, RandomWalk,
    WalkEnd, WalkStorage,
};

#[test]
fn pick_index_rejects_degenerate_sets() {
    assert!(matches!(
        pick_index(&vec![], 5),
        Err(MeritRankError::RandomChoiceError)
    ));
    assert!(matches!(
        pick_index(&vec![0, 0, 0], 5),
        Err(MeritRankError::RandomChoiceError)
    ));
    assert!(matches!(
        pick_index(&vec![-4, -1, 0], 99),
        Err(MeritRankError::RandomChoiceError)
    ));
}

#[test]
fn pick_index_singleton_always_wins() {
    for r in [0u128, 1, 4, 1_000_000_007] {
        assert_eq!(pick_index(&vec![5], r), Ok(0));
    }
}

#[test]
fn pick_index_skips_non_positive_weights() {
    for r in [0u128, 1, 2, 6] {
        assert_eq!(pick_index(&vec![0, -7, 3], r), Ok(2));
    }
}

#[test]
fn pick_index_buckets_follow_the_draw() {
    // weights 2 and 3 partition [0, 5): draws 0..2 pick the first bucket,
    // draws 2..5 the second; the draw is reduced modulo 5
    let ws = vec![2i64, 3];
    assert_eq!(pick_index(&ws, 0), Ok(0));
    assert_eq!(pick_index(&ws, 1), Ok(0));
    assert_eq!(pick_index(&ws, 2), Ok(1));
    assert_eq!(pick_index(&ws, 3), Ok(1));
    assert_eq!(pick_index(&ws, 4), Ok(1));
    assert_eq!(pick_index(&ws, 5), Ok(0));
    assert_eq!(pick_index(&ws, 7), Ok(1));
}

#[test]
fn weighted_choice_only_picks_positive_weights() {
    for _ in 0..50 {
        let ws = vec![0i64, -2, 7, 0, 3];
        let i = weighted_choice(&ws).unwrap();
        assert!(ws[i] > 0);
    }
    assert!(matches!(
        weighted_choice(&vec![]),
        Err(MeritRankError::RandomChoiceError)
    ));
    assert!(matches!(
        weighted_choice(&vec![-5]),
        Err(MeritRankError::RandomChoiceError)
    ));
}

#[test]
fn parse_reads_decimal_ids() {
    assert_eq!(NodeId::parse("0"), Ok(NodeId::UInt(0)));
    assert_eq!(NodeId::parse("123"), Ok(NodeId::UInt(123)));
    assert_eq!(
        NodeId::parse("18446744073709551615"),
        Ok(NodeId::UInt(u64::MAX))
    );
}

#[test]
fn parse_rejects_malformed_ids() {
    for s in ["", "12a", "-3", " 4", "1.5", "18446744073709551616"] {
        assert!(
            matches!(NodeId::parse(s), Err(MeritRankError::NodeIdParseError)),
            "{s:?} must not parse"
        );
    }
}

#[test]
fn node_id_order_and_sentinel() {
    assert!(NodeId::Absent.is_absent());
    assert!(!NodeId::UInt(0).is_absent());
    assert!(NodeId::Int(5).is_concrete());
    assert!(NodeId::Absent.precedes(&NodeId::Int(-9)));
    assert!(NodeId::Int(9).precedes(&NodeId::UInt(0)));
    assert!(NodeId::Int(-2).precedes(&NodeId::Int(3)));
    assert!(NodeId::UInt(2).precedes(&NodeId::UInt(3)));
    assert!(!NodeId::UInt(3).precedes(&NodeId::UInt(3)));
    assert_ne!(NodeId::Absent, NodeId::UInt(0));
    assert_ne!(NodeId::Int(0), NodeId::UInt(0));
}

#[test]
fn graph_add_node_is_idempotent() {
    let mut g = MyGraph::new();
    assert_eq!(g.node_count(), 0);
    g.add_node(NodeId::UInt(1)).unwrap();
    g.add_node(NodeId::UInt(1)).unwrap();
    g.add_node(NodeId::UInt(2)).unwrap();
    assert_eq!(g.node_count(), 2);
    assert!(matches!(
        g.add_node(NodeId::Absent),
        Err(MeritRankError::InvalidNode)
    ));
}

#[test]
fn graph_edges_snapshot_and_overwrite() {
    let mut g = MyGraph::new();
    let a = NodeId::UInt(1);
    let b = NodeId::UInt(2);
    let c = NodeId::UInt(3);
    g.add_edge(a, b, 4).unwrap();
    g.add_edge(a, c, 2).unwrap();
    g.add_edge(a, b, 9).unwrap();
    let mut edges = g.get_edges();
    edges.sort_by_key(|(_, t, _)| match t {
        NodeId::UInt(x) => *x,
        _ => 0,
    });
    assert_eq!(edges, vec![(a, b, 9), (a, c, 2)]);
    assert_eq!(g.node_count(), 3, "endpoints were added to the node set");
    assert_eq!(g.edge_weight_of(a, b), Some(9));
    assert_eq!(g.edge_weight_of(b, a), None);
}

#[test]
fn graph_remove_edge_is_quiet_when_absent() {
    let mut g = MyGraph::new();
    let a = NodeId::UInt(1);
    let b = NodeId::UInt(2);
    g.remove_edge(a, b);
    g.add_edge(a, b, 1).unwrap();
    g.remove_edge(a, b);
    assert_eq!(g.edge_weight_of(a, b), None);
    assert_eq!(g.node_count(), 2, "removing an edge keeps the node set");
    g.clear();
    assert_eq!(g.node_count(), 0);
}

#[test]
fn storage_counts_and_invalidates_by_edge() {
    let a = NodeId::UInt(1);
    let b = NodeId::UInt(2);
    let c = NodeId::UInt(3);
    let mut st = WalkStorage::new();
    st.add_walk(
        a,
        RandomWalk { nodes: vec![a, b, c], end: WalkEnd::NoViableEdge },
    );
    st.add_walk(
        a,
        RandomWalk { nodes: vec![a, c], end: WalkEnd::RestartFired },
    );
    st.add_walk(c, RandomWalk { nodes: vec![c, b], end: WalkEnd::MaxLength });
    assert_eq!(st.count_for(a), 2);
    assert_eq!(st.count_for(c), 1);
    assert_eq!(st.count_for(b), 0);
    // walks through b that do not use the edge a->c stay valid
    st.invalidate(a, c);
    assert_eq!(st.count_for(a), 1);
    assert_eq!(st.count_for(c), 1);
    let left = st.collect_for(a);
    assert_eq!(left, vec![vec![a, b, c]]);
    // invalidating an edge nobody used changes nothing
    st.invalidate(b, a);
    assert_eq!(st.count_for(a), 1);
    assert_eq!(st.count_for(c), 1);
    st.invalidate(a, b);
    assert_eq!(st.count_for(a), 0);
    assert_eq!(st.count_for(c), 1);
}

#[test]
fn walk_reports_the_edges_it_uses() {
    let a = NodeId::UInt(1);
    let b = NodeId::UInt(2);
    let c = NodeId::UInt(3);
    let w = RandomWalk { nodes: vec![a, b, c, b], end: WalkEnd::RestartFired };
    assert_eq!(w.len(), 4);
    assert!(w.uses_edge(a, b));
    assert!(w.uses_edge(b, c));
    assert!(w.uses_edge(c, b));
    assert!(!w.uses_edge(a, c), "passing through both endpoints is not using the edge");
    assert!(!w.uses_edge(b, a));
}

#[test]
fn error_messages_name_the_variant() {
    assert_eq!(MeritRankError::NodeDoesNotExist.message(), "NodeDoesNotExist");
    assert_eq!(
        MeritRankError::SelfReferenceNotAllowed.message(),
        "SelfReferenceNotAllowed"
    );
    assert_eq!(MeritRankError::RandomChoiceError.message(), "RandomChoiceError");
    assert_eq!(MeritRankError::NoPathExists.message(), "NoPathExists");
    assert_eq!(MeritRankError::NodeIdParseError.message(), "NodeIdParseError");
    assert_eq!(MeritRankError::InvalidNode.message(), "InvalidNode");
}

#[test]
fn sampler_follows_the_only_positive_edge() {
    let a = NodeId::UInt(1);
    let b = NodeId::UInt(2);
    let mut g = MyGraph::new();
    g.add_edge(a, b, 1).unwrap();
    g.add_edge(a, NodeId::UInt(3), -4).unwrap();
    for _ in 0..20 {
        let w = sample_walk(&g, a);
        assert_eq!(w.nodes, vec![a, b], "the one viable hop is taken");
        assert!(matches!(w.end, WalkEnd::NoViableEdge | WalkEnd::RestartFired));
    }
}

#[test]
fn sampler_respects_the_length_cap_on_a_cycle() {
    let a = NodeId::UInt(1);
    let b = NodeId::UInt(2);
    let mut g = MyGraph::new();
    g.add_edge(a, b, 1).unwrap();
    g.add_edge(b, a, 1).unwrap();
    for _ in 0..50 {
        let w = sample_walk(&g, a);
        assert!(w.nodes.len() >= 2);
        assert!(w.nodes.len() <= 80);
        assert_eq!(w.nodes[0], a);
        match w.end {
            WalkEnd::MaxLength => assert_eq!(w.nodes.len(), 80),
            WalkEnd::RestartFired => assert!(w.nodes.len() < 80),
            WalkEnd::NoViableEdge => {
                panic!("both nodes of the cycle always have a viable edge")
            }
        }
    }
}
