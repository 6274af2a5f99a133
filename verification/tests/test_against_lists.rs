use grough::graph::Graph;

/// A graph kept in plain lists, with removal by swapping the last entry in.
struct Lists {
    adj: Vec<(i32, Vec<i32>)>,
    edges: Vec<((i32, i32), i128)>,
}

fn key(u: i32, v: i32) -> (i32, i32) {
    if u < v {
        (u, v)
    } else {
        (v, u)
    }
}

impl Lists {
    fn row(&self, u: i32) -> Option<usize> {
        self.adj.iter().position(|(n, _)| *n == u)
    }

    fn slot(&self, u: i32, v: i32) -> Option<usize> {
        self.edges.iter().position(|(k, _)| *k == key(u, v))
    }

    fn add_node(&mut self, u: i32) {
        if self.row(u).is_none() {
            self.adj.push((u, Vec::new()));
        }
    }

    fn link(&mut self, u: i32, v: i32) {
        let r = self.row(u).unwrap();
        if !self.adj[r].1.contains(&v) {
            self.adj[r].1.push(v);
        }
    }

    fn unlink(&mut self, u: i32, v: i32) {
        let r = self.row(u).unwrap();
        if let Some(i) = self.adj[r].1.iter().position(|n| *n == v) {
            self.adj[r].1.swap_remove(i);
        }
    }

    fn add_edge(&mut self, u: i32, v: i32, w: i128) {
        self.add_node(u);
        self.add_node(v);
        self.link(u, v);
        self.link(v, u);
        if self.slot(u, v).is_none() {
            self.edges.push((key(u, v), w));
        }
    }

    fn remove_edge(&mut self, u: i32, v: i32) {
        if let Some(i) = self.slot(u, v) {
            self.unlink(u, v);
            self.unlink(v, u);
            self.edges.swap_remove(i);
        }
    }

    fn remove_node(&mut self, u: i32) {
        if let Some(r) = self.row(u) {
            let ns = self.adj[r].1.clone();
            for n in ns {
                self.unlink(n, u);
                let i = self.slot(u, n).unwrap();
                self.edges.swap_remove(i);
            }
            let r = self.row(u).unwrap();
            self.adj.swap_remove(r);
        }
    }

    fn set_weight(&mut self, u: i32, v: i32, w: i128) {
        if let Some(i) = self.slot(u, v) {
            self.edges[i].1 = w;
        }
    }
}

fn same(graph: &Graph, lists: &Lists) {
    assert_eq!(graph.order() as usize, lists.adj.len());
    assert_eq!(graph.size() as usize, lists.edges.len());
    let mut nodes = graph.nodes();
    for (i, (n, ns)) in lists.adj.iter().enumerate() {
        assert_eq!(nodes.next(), Some(n));
        assert_eq!(graph.node_idx(i), Some(n));
        assert_eq!(graph.neighbors(n), Some(ns.clone()));
    }
    assert_eq!(nodes.next(), None);
    let mut edges = graph.edges();
    for (i, (k, w)) in lists.edges.iter().enumerate() {
        assert_eq!(edges.next(), Some(k));
        assert_eq!(graph.edge_idx(i), Some((&k.0, &k.1, w)));
        assert_eq!(graph.get_weight(&k.1, &k.0), Some(w));
    }
    assert_eq!(edges.next(), None);
    assert_eq!(graph.edge_idx(lists.edges.len()), None);
}

#[test]
fn graph_agrees_with_plain_lists() {
    let mut graph = Graph::new();
    let mut lists = Lists { adj: Vec::new(), edges: Vec::new() };
    let mut state: u64 = 0x2545_f491_4f6c_dd1d;
    let mut step = 0;
    while step < 4000 {
        state = state.wrapping_mul(6364136223846793005).wrapping_add(1442695040888963407);
        let op = (state >> 60) % 8;
        let u = ((state >> 40) % 9) as i32;
        let v = ((state >> 20) % 9) as i32;
        let w = ((state >> 8) % 1000) as i128;
        match op {
            0 => {
                graph.add_node(u);
                lists.add_node(u);
            }
            1 | 2 | 3 => {
                graph.add_edge(u, v, w);
                lists.add_edge(u, v, w);
            }
            4 | 5 => {
                graph.remove_edge(&u, &v);
                lists.remove_edge(u, v);
            }
            6 => {
                graph.remove_node(&u);
                lists.remove_node(u);
            }
            _ => {
                graph.set_weight(&u, &v, w);
                lists.set_weight(u, v, w);
            }
        }
        same(&graph, &lists);
        step += 1;
    }
}

#[test]
fn contraction_agrees_with_plain_lists() {
    let mut state: u64 = 0x9e37_79b9_7f4a_7c15;
    let mut round = 0;
    while round < 200 {
        let mut graph = Graph::new();
        let mut lists = Lists { adj: Vec::new(), edges: Vec::new() };
        let mut k = 0;
        while k < 12 {
            state = state.wrapping_mul(6364136223846793005).wrapping_add(1442695040888963407);
            let u = ((state >> 40) % 6) as i32;
            let v = ((state >> 20) % 6) as i32;
            let w = ((state >> 8) % 50) as i128;
            graph.add_edge(u, v, w);
            lists.add_edge(u, v, w);
            k += 1;
        }
        state = state.wrapping_mul(6364136223846793005).wrapping_add(1442695040888963407);
        let (u, v) = lists.edges[(state >> 33) as usize % lists.edges.len()].0;

        // the cost, folded by hand
        let weight = |l: &Lists, a: i32, b: i32| l.edges[l.slot(a, b).unwrap()].1;
        let mut cost = weight(&lists, u, v);
        for x in lists.adj[lists.row(u).unwrap()].1.clone() {
            if x != v {
                cost = cost * 3 + weight(&lists, u, x);
            }
        }
        for x in lists.adj[lists.row(v).unwrap()].1.clone() {
            if x != u {
                cost = cost * 3 + weight(&lists, v, x);
            }
        }
        assert_eq!(graph.contraction_cost(&u, &v, &|a: &i128, b: &i128| a * 3 + b), Ok(cost));

        // the contraction, step by step
        lists.remove_edge(u, v);
        let ns = lists.adj[lists.row(v).unwrap()].1.clone();
        let mut moved = Vec::new();
        for x in &ns {
            let wvx = weight(&lists, v, *x);
            if lists.adj[lists.row(u).unwrap()].1.contains(x) {
                moved.push((*x, wvx * 3 + weight(&lists, u, *x)));
            } else {
                moved.push((*x, wvx));
            }
        }
        for (x, w) in moved {
            lists.remove_edge(x, v);
            if lists.slot(x, u).is_some() {
                lists.set_weight(x, u, w);
            } else {
                lists.add_edge(x, u, w);
            }
        }
        lists.remove_node(v);

        assert_eq!(graph.contract_edge(&u, &v, |a: &i128, b: &i128| a * 3 + b), Ok(()));
        same(&graph, &lists);
        round += 1;
    }
}
