use grough::algo::search::{bfs, dfs, Bfs, Dfs};
use grough::graph::Graph;

fn graph_1() -> Graph {
    let mut graph = Graph::new();
    graph.add_edge(1, 2, 1);
    graph.add_edge(2, 3, 1);
    graph.add_edge(1, 3, 1);
    graph.add_edge(1, 4, 1);
    graph.add_edge(3, 4, 1);

    graph
}

fn graph_2() -> Graph {
    let mut graph = Graph::new();
    graph.add_edge(0, 1, 1);
    graph.add_edge(1, 3, 1);
    graph.add_edge(1, 2, 1);
    graph.add_edge(3, 4, 1);
    graph.add_edge(2, 4, 1);

    graph
}

#[test]
fn test_search_test_dfs() {
    let mut graph = graph_2();

    let result = dfs(&0, None, &graph);
    assert!(result.is_some());
    assert_eq!(result, Some(vec![0, 1, 2, 4, 3]));

    assert_eq!(dfs(&1, Some(&5), &graph), None);

    graph = graph_1();

    let result = dfs(&1, Some(&3), &graph);
    assert!(result.is_some());
    assert_eq!(result, Some(vec![1, 4, 3]));

    assert_eq!(dfs(&1, Some(&5), &graph), None);
}

#[test]
fn test_bfs() {
    let graph = graph_1();
    let result = bfs(&1, &2, &graph);

    assert!(result.is_some());
    assert_eq!(result, Some(vec![1, 2]));
}

#[test]
fn bfs_gives_visiting_order_up_to_end() {
    let graph = graph_1();
    assert_eq!(bfs(&1, &4, &graph), Some(vec![1, 2, 3, 4]));
    assert_eq!(bfs(&1, &1, &graph), Some(vec![1]));
    assert_eq!(bfs(&4, &2, &graph), Some(vec![4, 1, 3, 2]));
    assert_eq!(bfs(&1, &5, &graph), None);
}

#[test]
fn bfs_from_outside_the_graph() {
    let graph = graph_1();
    assert_eq!(bfs(&9, &9, &graph), Some(vec![9]));
    assert_eq!(bfs(&9, &1, &graph), None);
}

#[test]
fn dfs_follows_the_stack() {
    let graph = graph_1();
    assert_eq!(dfs(&1, Some(&4), &graph), Some(vec![1, 4]));
    assert_eq!(dfs(&1, Some(&2), &graph), Some(vec![1, 4, 3, 2]));
    assert_eq!(dfs(&1, None, &graph), Some(vec![1, 4, 3, 2]));
    assert_eq!(dfs(&1, Some(&7), &graph), None);
}

#[test]
fn dfs_needs_start_in_graph() {
    let graph = graph_1();
    assert_eq!(dfs(&9, None, &graph), None);
    assert_eq!(dfs(&9, Some(&9), &graph), None);
    assert_eq!(dfs(&9, Some(&1), &graph), None);
}

#[test]
fn visitors_give_each_vertex_once() {
    let graph = graph_2();
    let mut bfs_visitor = Bfs::new(&0, &graph);
    let mut seen = Vec::new();
    while let Some(v) = bfs_visitor.next() {
        assert!(!seen.contains(&v));
        seen.push(v);
    }
    assert_eq!(seen, vec![0, 1, 3, 2, 4]);
    assert!(seen.len() <= graph.order() as usize);
    assert_eq!(bfs_visitor.next(), None);

    let mut dfs_visitor = Dfs::new(&0, &graph);
    let mut seen = Vec::new();
    while let Some(v) = dfs_visitor.next() {
        assert!(!seen.contains(&v));
        seen.push(v);
    }
    assert_eq!(seen, vec![0, 1, 2, 4, 3]);
    assert!(seen.len() <= graph.order() as usize);
}

#[test]
fn visitor_stays_in_its_component() {
    let mut graph = graph_1();
    graph.add_edge(10, 11, 1);
    assert_eq!(dfs(&10, None, &graph), Some(vec![10, 11]));
    assert_eq!(bfs(&10, &1, &graph), None);
}
