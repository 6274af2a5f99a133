use grough::error::GraphError;
use grough::graph::Graph;

#[test]
fn add_edge_twice_keeps_size_and_weight() {
    let mut graph = Graph::new();
    graph.add_edge(1, 2, 3);
    graph.add_edge(1, 2, 9);
    graph.add_edge(2, 1, 9);
    assert_eq!(graph.size(), 1);
    assert_eq!(graph.order(), 2);
    assert_eq!(graph.get_weight(&1, &2), Some(&3));
    assert_eq!(graph.neighbors(&1), Some(vec![2]));
    assert_eq!(graph.neighbors(&2), Some(vec![1]));
}

#[test]
fn add_node_twice_keeps_order() {
    let mut graph = Graph::new();
    graph.add_node(5);
    graph.add_node(5);
    assert_eq!(graph.order(), 1);
    assert_eq!(graph.neighbors(&5), Some(vec![]));
}

#[test]
fn self_loop_counts_once() {
    let mut graph = Graph::new();
    graph.add_edge(4, 4, 1);
    assert_eq!(graph.order(), 1);
    assert_eq!(graph.size(), 1);
    assert!(graph.contains_edge(&4, &4));
    assert_eq!(graph.neighbors(&4), Some(vec![4]));
    graph.remove_node(&4);
    assert_eq!(graph.order(), 0);
    assert_eq!(graph.size(), 0);
}

#[test]
fn contains_edge_is_symmetric() {
    let mut graph = Graph::new();
    graph.add_edge(7, 3, 1);
    assert_eq!(graph.contains_edge(&7, &3), graph.contains_edge(&3, &7));
    assert!(graph.contains_edge(&3, &7));
    assert_eq!(graph.contains_edge(&7, &4), graph.contains_edge(&4, &7));
    assert!(!graph.contains_edge(&4, &7));
    assert_eq!(graph.get_weight(&3, &7), graph.get_weight(&7, &3));
}

#[test]
fn missing_things_are_reported_by_absence() {
    let mut graph = Graph::new();
    graph.add_edge(1, 2, 3);
    assert_eq!(graph.neighbors(&9), None);
    assert_eq!(graph.get_weight(&1, &9), None);
    assert_eq!(graph.edge_idx(1), None);
    assert_eq!(graph.node_idx(2), None);
    assert!(!graph.contains_node(&9));
    graph.remove_edge(&1, &9);
    graph.remove_node(&9);
    graph.set_weight(&1, &9, 5);
    assert_eq!(graph.order(), 2);
    assert_eq!(graph.size(), 1);
    assert_eq!(graph.get_weight(&1, &2), Some(&3));
}

#[test]
fn remove_node_drops_degree_many_edges() {
    let mut graph = Graph::new();
    graph.add_edge(1, 2, 0);
    graph.add_edge(1, 3, 0);
    graph.add_edge(1, 4, 0);
    graph.add_edge(2, 3, 0);
    let degree = graph.neighbors(&1).unwrap().len() as u32;
    let size = graph.size();
    let order = graph.order();
    graph.remove_node(&1);
    assert_eq!(graph.order(), order - 1);
    assert_eq!(graph.size(), size - degree);
    assert!(!graph.contains_edge(&1, &2));
    assert!(!graph.contains_edge(&3, &1));
    assert!(!graph.contains_edge(&1, &4));
    assert!(graph.contains_edge(&2, &3));
    assert_eq!(graph.neighbors(&4), Some(vec![]));
}

#[test]
fn removal_moves_the_last_into_the_gap() {
    let mut graph = Graph::new();
    graph.add_edge(1, 2, 12);
    graph.add_edge(1, 3, 13);
    graph.add_edge(1, 4, 14);
    graph.remove_edge(&1, &2);
    assert_eq!(graph.neighbors(&1), Some(vec![4, 3]));
    assert_eq!(graph.edge_idx(0), Some((&1, &4, &14)));
    assert_eq!(graph.edge_idx(1), Some((&1, &3, &13)));
    graph.remove_node(&1);
    assert_eq!(graph.node_idx(0), Some(&4));
    assert_eq!(graph.node_idx(1), Some(&2));
    assert_eq!(graph.node_idx(2), Some(&3));
    assert_eq!(graph.order(), 3);
}

#[test]
fn cursors_follow_the_order() {
    let mut graph = Graph::new();
    graph.add_edge(3, 1, 0);
    graph.add_edge(2, 1, 0);
    let mut vs = graph.nodes();
    assert_eq!(vs.next(), Some(&3));
    assert_eq!(vs.next(), Some(&1));
    assert_eq!(vs.next(), Some(&2));
    assert_eq!(vs.next(), None);
    assert_eq!(vs.next(), None);
    let mut es = graph.edges();
    assert_eq!(es.next(), Some(&(1, 3)));
    assert_eq!(es.next(), Some(&(1, 2)));
    assert_eq!(es.next(), None);
}

#[test]
fn cursor_is_a_snapshot() {
    let mut graph = Graph::new();
    graph.add_node(1);
    let mut vs = graph.nodes();
    graph.add_node(2);
    assert_eq!(vs.next(), Some(&1));
    assert_eq!(vs.next(), None);
}

#[test]
fn weight_can_be_changed_in_place() {
    let mut graph = Graph::new();
    graph.add_edge(1, 2, 3);
    if let Some(w) = graph.get_weight_mut(&2, &1) {
        *w = 8;
    }
    assert_eq!(graph.get_weight(&1, &2), Some(&8));
    assert!(graph.get_weight_mut(&1, &3).is_none());
}

#[test]
fn is_neighbor_reads_the_adjacency() {
    let mut graph = Graph::new();
    graph.add_edge(1, 2, 3);
    assert!(graph.is_neighbor(&1, &2));
    assert!(graph.is_neighbor(&2, &1));
    assert!(!graph.is_neighbor(&1, &1));
    assert!(!graph.is_neighbor(&5, &1));
}

#[test]
fn random_picks_on_empty_graph() {
    let mut graph = Graph::new();
    assert_eq!(graph.random_node(), Err(GraphError::EmptyGraph));
    assert_eq!(graph.random_edge(), Err(GraphError::EmptyGraph));
    graph.add_node(1);
    assert_eq!(graph.random_node(), Ok(&1));
    assert_eq!(graph.random_edge(), Err(GraphError::EmptyGraph));
}

#[test]
fn random_picks_stay_inside() {
    let mut graph = Graph::new();
    graph.add_edge(1, 2, 0);
    graph.add_edge(2, 3, 0);
    graph.add_edge(3, 4, 0);
    let mut round = 0;
    while round < 50 {
        let node = *graph.random_node().unwrap();
        assert!(graph.contains_node(&node));
        let (u, v) = graph.random_edge().unwrap();
        assert!(graph.contains_edge(u, v));
        round += 1;
    }
}

#[test]
fn clone_is_independent() {
    let mut graph = Graph::new();
    graph.add_edge(1, 2, 3);
    let mut copy = graph.clone();
    copy.add_edge(2, 3, 4);
    copy.set_weight(&1, &2, 9);
    assert_eq!(graph.order(), 2);
    assert_eq!(graph.size(), 1);
    assert_eq!(graph.get_weight(&1, &2), Some(&3));
    assert_eq!(copy.order(), 3);
    assert_eq!(copy.size(), 2);
    assert_eq!(copy.get_weight(&1, &2), Some(&9));
    assert_eq!(copy.neighbors(&2), Some(vec![1, 3]));
}
