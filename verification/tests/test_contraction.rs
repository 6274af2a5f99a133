use grough::error::GraphError;
use grough::graph::Graph;

fn sum(x: &i128, y: &i128) -> i128 {
    x + y
}

fn small_graph() -> Graph {
    let mut graph = Graph::new();
    graph.add_edge(1, 2, 5);
    graph.add_edge(2, 3, 4);
    graph.add_edge(3, 1, 3);
    graph.add_edge(4, 2, 7);
    graph
}

#[test]
fn contraction_cost_follows_neighbor_order() {
    let graph = small_graph();
    // seed 5, then the edge 1-3, then the edges 2-3 and 2-4
    let left = graph.contraction_cost(&1, &2, &|x: &i128, y: &i128| x * 10 + y);
    assert_eq!(left, Ok(5347));
    // seen from the other side: seed 5, then 2-3 and 2-4, then 1-3
    let right = graph.contraction_cost(&2, &1, &|x: &i128, y: &i128| x * 10 + y);
    assert_eq!(right, Ok(5473));
}

#[test]
fn contraction_cost_leaves_graph_alone() {
    let graph = small_graph();
    assert_eq!(graph.contraction_cost(&1, &2, &sum), Ok(19));
    assert_eq!(graph.order(), 4);
    assert_eq!(graph.size(), 4);
    assert_eq!(graph.get_weight(&1, &2), Some(&5));
}

#[test]
fn contraction_cost_of_missing_edge() {
    let graph = small_graph();
    assert_eq!(graph.contraction_cost(&1, &4, &sum), Err(GraphError::EdgeNotFound));
    assert_eq!(graph.contraction_cost(&1, &9, &sum), Err(GraphError::EdgeNotFound));
}

#[test]
fn contract_edge_merges_and_carries_over() {
    let mut graph = small_graph();
    assert_eq!(graph.contract_edge(&1, &2, sum), Ok(()));
    assert_eq!(graph.order(), 3);
    assert_eq!(graph.size(), 2);
    assert!(!graph.contains_node(&2));
    // the parallel edges 2-3 and 1-3 are merged, 2-3 first
    assert_eq!(graph.get_weight(&1, &3), Some(&7));
    // the edge 2-4 is carried over unchanged
    assert_eq!(graph.get_weight(&1, &4), Some(&7));
    assert!(!graph.contains_edge(&2, &3));
    assert!(!graph.contains_edge(&2, &4));
    assert_eq!(graph.neighbors(&1), Some(vec![3, 4]));
}

#[test]
fn contract_edge_combines_absorbed_weight_first() {
    let mut graph = small_graph();
    graph.contract_edge(&1, &2, |x: &i128, y: &i128| x * 10 + y).unwrap();
    assert_eq!(graph.get_weight(&1, &3), Some(&43));
}

#[test]
fn contract_edge_size_law() {
    // 1 and 2 have the common neighbors 3 and 4
    let mut graph = Graph::new();
    graph.add_edge(1, 2, 1);
    graph.add_edge(1, 3, 1);
    graph.add_edge(2, 3, 1);
    graph.add_edge(1, 4, 1);
    graph.add_edge(2, 4, 1);
    graph.add_edge(2, 5, 1);
    graph.add_edge(5, 6, 1);
    let order = graph.order();
    let size = graph.size();
    graph.contract_edge(&1, &2, sum).unwrap();
    assert_eq!(graph.order(), order - 1);
    assert_eq!(graph.size(), size - 1 - 2);
    assert!(graph.contains_edge(&1, &5));
    assert!(graph.contains_edge(&5, &6));
    assert_eq!(graph.get_weight(&1, &3), Some(&2));
    assert_eq!(graph.get_weight(&5, &6), Some(&1));
}

#[test]
fn contract_edge_of_missing_edge_changes_nothing() {
    let mut graph = small_graph();
    assert_eq!(graph.contract_edge(&1, &4, sum), Err(GraphError::EdgeNotFound));
    assert_eq!(graph.order(), 4);
    assert_eq!(graph.size(), 4);
    assert_eq!(graph.get_weight(&2, &4), Some(&7));
}

#[test]
fn contract_edges_resolves_aliases() {
    let mut graph = Graph::new();
    graph.add_edge(1, 2, 1);
    graph.add_edge(2, 3, 10);
    graph.add_edge(3, 4, 100);
    // 2 goes into 1; (2, 3) then means (1, 3); (3, 4) then means (1, 4)
    let total = graph.contract_edges(vec![(1, 2), (2, 3), (3, 4)], 1000, &sum);
    assert_eq!(total, Ok(1000 + 11 + 110 + 100));
    assert_eq!(graph.order(), 1);
    assert_eq!(graph.size(), 0);
    assert!(graph.contains_node(&1));
}

#[test]
fn contract_edges_passes_over_collapsed_pairs() {
    let mut graph = Graph::new();
    graph.add_edge(1, 2, 1);
    graph.add_edge(2, 3, 1);
    graph.add_edge(1, 3, 1);
    // after (1, 2) and (1, 3) the pair (2, 3) names one vertex
    let total = graph.contract_edges(vec![(1, 2), (1, 3), (2, 3), (1, 1)], 0, &sum);
    assert_eq!(total, Ok(3 + 2));
    assert_eq!(graph.order(), 1);
}

#[test]
fn contract_edges_without_pairs_returns_base() {
    let mut graph = small_graph();
    assert_eq!(graph.contract_edges(vec![], 42, &sum), Ok(42));
    assert_eq!(graph.order(), 4);
    assert_eq!(graph.size(), 4);
}

#[test]
fn contract_edges_unknown_vertex() {
    let mut graph = small_graph();
    let total = graph.contract_edges(vec![(1, 2), (1, 9)], 0, &sum);
    assert_eq!(total, Err(GraphError::VertexNotFound));
    // the first pair was contracted before the failure
    assert_eq!(graph.order(), 3);
}

#[test]
fn contract_edges_unjoined_pair() {
    let mut graph = small_graph();
    let total = graph.contract_edges(vec![(1, 4)], 0, &sum);
    assert_eq!(total, Err(GraphError::EdgeNotFound));
    assert_eq!(graph.order(), 4);
    assert_eq!(graph.size(), 4);
}

#[test]
fn contract_edges_total_out_of_range() {
    let mut graph = Graph::new();
    graph.add_edge(1, 2, 1);
    let total = graph.contract_edges(vec![(1, 2)], i128::MAX, &sum);
    assert_eq!(total, Err(GraphError::CostOverflow));
    assert_eq!(graph.order(), 2);
    assert_eq!(graph.size(), 1);
}

#[test]
fn contract_edge_at_position() {
    let mut graph = small_graph();
    // position 1 holds the key (2, 3)
    assert_eq!(graph.contract_edge_at(1, sum), Ok(4 + 5 + 7 + 3));
    assert_eq!(graph.order(), 3);
    assert!(!graph.contains_node(&3));
    assert_eq!(graph.get_weight(&1, &2), Some(&8));
    assert_eq!(graph.contract_edge_at(7, sum), Err(GraphError::EdgeNotFound));
}

#[test]
fn contract_random_edge_contracts_one_edge() {
    let mut graph = small_graph();
    let cost = graph.contract_random_edge(sum);
    assert!(cost.is_ok());
    assert_eq!(graph.order(), 3);
    assert!(graph.size() <= 3);

    let mut empty = Graph::new();
    empty.add_node(1);
    assert_eq!(empty.contract_random_edge(sum), Err(GraphError::EmptyGraph));
    assert_eq!(empty.order(), 1);
}

#[test]
fn contract_edge_with_loop_at_absorbed_vertex() {
    let mut graph = Graph::new();
    graph.add_edge(1, 2, 1);
    graph.add_edge(2, 2, 5);
    graph.add_edge(2, 3, 1);
    // 2 is a neighbor of both 1 and 2
    assert_eq!(graph.contract_edge(&1, &2, sum), Ok(()));
    assert_eq!(graph.order(), 2);
    assert_eq!(graph.size(), 3 - 1 - 1);
    assert_eq!(graph.get_weight(&1, &3), Some(&1));
    assert!(!graph.contains_node(&2));
}

#[test]
fn contract_edge_with_loop_at_surviving_vertex() {
    let mut graph = Graph::new();
    graph.add_edge(1, 1, 9);
    graph.add_edge(1, 2, 1);
    assert_eq!(graph.contract_edge(&1, &2, sum), Ok(()));
    assert_eq!(graph.order(), 1);
    // the loop stays
    assert_eq!(graph.size(), 1);
    assert_eq!(graph.get_weight(&1, &1), Some(&9));
}

#[test]
fn contract_edge_of_a_loop_removes_the_vertex() {
    let mut graph = Graph::new();
    graph.add_edge(1, 1, 9);
    graph.add_edge(1, 2, 1);
    assert_eq!(graph.contract_edge(&1, &1, sum), Ok(()));
    assert_eq!(graph.order(), 1);
    assert_eq!(graph.size(), 0);
    assert!(graph.contains_node(&2));
}

#[test]
fn contract_edges_depends_on_the_sequence() {
    let mut first = small_graph();
    let mut second = small_graph();
    let a = first.contract_edges(vec![(1, 2), (1, 3)], 0, &sum);
    let b = second.contract_edges(vec![(2, 4), (1, 2)], 0, &sum);
    // 19, then the edges 1-3 (weight 7) and 1-4 (weight 7)
    assert_eq!(a, Ok(19 + 14));
    // 7 + 5 + 4, then the edges 1-2 (5), 1-3 (3) and 2-3 (4)
    assert_eq!(b, Ok(16 + 12));
}
