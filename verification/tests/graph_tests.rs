use mega_store_search::graph::Recommender;

fn bits(weight: f32) -> u32 {
    weight.to_bits()
}

#[test]
fn test_empty_recommender() {
    let rec = Recommender::new();
    assert!(rec.recommend(42, 3).is_empty());
}

#[test]
fn test_simple_edge_recommendation() {
    let mut rec = Recommender::new();
    rec.add_node(1);
    rec.add_node(2);
    rec.add_edge(1, 2, bits(0.8));

    let out = rec.recommend(1, 1);
    assert_eq!(out, vec![2]);
}

#[test]
fn test_weight_ordering() {
    let mut rec = Recommender::new();
    rec.add_node(1);
    rec.add_node(2);
    rec.add_node(3);
    rec.add_edge(1, 2, bits(0.5));
    rec.add_edge(1, 3, bits(0.9));
    let out = rec.recommend(1, 2);
    assert_eq!(out, vec![3, 2]);
}

#[test]
fn recommend_for_unregistered_id_is_empty_for_any_top_n() {
    let mut rec = Recommender::new();
    rec.add_node(1);
    rec.add_node(2);
    rec.add_edge(1, 2, bits(1.0));
    for top_n in [0usize, 1, 2, 100, usize::MAX] {
        assert!(rec.recommend(7, top_n).is_empty());
    }
}

#[test]
fn recommend_returns_all_neighbors_when_top_n_is_larger() {
    let mut rec = Recommender::new();
    for id in 1..=4u64 {
        rec.add_node(id);
    }
    rec.add_edge(1, 2, bits(0.25));
    rec.add_edge(1, 3, bits(2.5));
    rec.add_edge(1, 4, bits(0.75));
    assert_eq!(rec.recommend(1, 10), vec![3, 4, 2]);
    assert_eq!(rec.recommend(1, 3), vec![3, 4, 2]);
    assert_eq!(rec.recommend(1, 2), vec![3, 4]);
    assert!(rec.recommend(1, 0).is_empty());
}

#[test]
fn edges_are_undirected() {
    let mut rec = Recommender::new();
    rec.add_node(1);
    rec.add_node(2);
    rec.add_node(3);
    rec.add_edge(1, 2, bits(0.5));
    rec.add_edge(3, 2, bits(0.7));
    assert_eq!(rec.recommend(2, 5), vec![3, 1]);
    assert_eq!(rec.recommend(1, 5), vec![2]);
    assert_eq!(rec.recommend(3, 5), vec![2]);
}

#[test]
fn readding_an_edge_replaces_its_weight() {
    let mut rec = Recommender::new();
    rec.add_node(1);
    rec.add_node(2);
    rec.add_node(3);
    rec.add_edge(1, 2, bits(0.9));
    rec.add_edge(1, 3, bits(0.5));
    assert_eq!(rec.recommend(1, 2), vec![2, 3]);
    assert_eq!(rec.edge_count(), 2);

    rec.add_edge(1, 2, bits(0.1));
    assert_eq!(rec.edge_count(), 2);
    assert_eq!(rec.recommend(1, 5), vec![3, 2]);

    // the same pair named the other way round is the same edge
    rec.add_edge(3, 1, bits(0.05));
    assert_eq!(rec.edge_count(), 2);
    assert_eq!(rec.recommend(1, 5), vec![2, 3]);
    assert_eq!(rec.recommend(3, 5), vec![1]);
}

#[test]
fn registering_twice_keeps_the_node_and_its_edges() {
    let mut rec = Recommender::new();
    rec.add_node(1);
    rec.add_node(2);
    rec.add_edge(1, 2, bits(1.0));
    rec.add_node(1);
    rec.add_node(2);
    assert_eq!(rec.node_count(), 2);
    assert_eq!(rec.recommend(1, 5), vec![2]);
    assert_eq!(rec.recommend(2, 5), vec![1]);
    assert!(rec.is_registered(1));
    assert!(!rec.is_registered(3));
}

#[test]
fn ties_keep_the_order_in_which_the_graph_walks_the_edges() {
    let mut rec = Recommender::new();
    for id in 1..=5u64 {
        rec.add_node(id);
    }
    rec.add_edge(1, 2, bits(1.0));
    rec.add_edge(3, 1, bits(1.0));
    rec.add_edge(1, 4, bits(1.0));
    rec.add_edge(5, 1, bits(1.0));
    // re-adding does not move an edge
    rec.add_edge(2, 1, bits(1.0));
    // edges added from 1, latest first, then edges added to 1, latest first
    assert_eq!(rec.recommend(1, 10), vec![4, 2, 5, 3]);
    rec.add_edge(1, 3, bits(2.0));
    assert_eq!(rec.recommend(1, 10), vec![3, 4, 2, 5]);
}

#[test]
fn ranking_orders_negative_zero_and_infinite_weights() {
    let mut rec = Recommender::new();
    for id in 0..=6u64 {
        rec.add_node(id);
    }
    rec.add_edge(0, 1, bits(-1.5));
    rec.add_edge(0, 2, bits(f32::INFINITY));
    rec.add_edge(0, 3, bits(0.0));
    rec.add_edge(0, 4, bits(f32::NEG_INFINITY));
    rec.add_edge(0, 5, bits(-0.0));
    rec.add_edge(0, 6, bits(1.0e-40));
    // 0.0 and -0.0 are equal: 5 was linked after 3 and is walked first
    assert_eq!(rec.recommend(0, 10), vec![2, 6, 5, 3, 1, 4]);
}

#[test]
fn a_loop_makes_a_node_its_own_neighbor_once() {
    let mut rec = Recommender::new();
    rec.add_node(1);
    rec.add_node(2);
    rec.add_edge(1, 1, bits(3.0));
    rec.add_edge(1, 2, bits(1.0));
    assert_eq!(rec.recommend(1, 10), vec![1, 2]);
    rec.add_edge(1, 1, bits(0.5));
    assert_eq!(rec.edge_count(), 2);
    assert_eq!(rec.recommend(1, 10), vec![2, 1]);
}
