//! The graph itself: vertices, weighted undirected edges, and the structural
//! operations on them.

use crate::error::GraphError;
use crate::model::{edge_key, GraphView};
use crate::model_proofs::{
    detaching, lemma_add_edge, lemma_add_node, lemma_cardinality, lemma_detach_step, lemma_link,
    lemma_remove_edge, lemma_remove_node, lemma_set_weight, lemma_unlink,
};
use crate::sample::random_below;
use crate::store::{
    adjacency_clone, adjacency_contains_key, adjacency_get, adjacency_get_mut, adjacency_insert,
    adjacency_key_at, adjacency_key_vec, adjacency_keys, adjacency_lists, adjacency_new,
    adjacency_swap_remove, set_contains, set_insert, set_items, set_new, set_swap_remove,
    set_to_vec, weight_keys, weight_values, weights_clone, weights_contains_key,
    weights_entry_at, weights_get, weights_get_mut, weights_insert, weights_key_vec, weights_new,
    weights_swap_remove,
};
use indexmap::IndexMap;
use indexmap::IndexSet;
use vstd::prelude::*;

verus! {

/// The types that can name a vertex: cheap to copy, comparable, ordered and
/// hashable. `i32`, which names the vertices of a [`Graph`], is one of them.
pub trait Vertex: Copy + Eq + std::hash::Hash + PartialOrd + std::fmt::Debug {

}

/// The types that can weigh an edge: anything that can be cloned. `i128`,
/// which weighs the edges of a [`Graph`], is one of them.
pub trait Edge: Clone {

}

impl<T: Copy + Eq + std::hash::Hash + PartialOrd + std::fmt::Debug> Vertex for T {

}

impl<T: Clone> Edge for T {

}

/// An undirected graph with `i32` vertices and one `i128` weight per edge.
pub struct Graph {
    // mapping from nodes in the graph to their neighbors
    node_map: IndexMap<i32, IndexSet<i32>>,
    // mapping from edges in the graph to their weights
    edge_map: IndexMap<(i32, i32), i128>,
    // the number of edges in the graph
    size: u32,
    // the number of nodes in the graph
    order: u32,
}

impl View for Graph {
    type V = GraphView;

    closed spec fn view(&self) -> GraphView {
        GraphView {
            nodes: adjacency_keys(self.node_map),
            adj: adjacency_lists(self.node_map),
            edges: weight_keys(self.edge_map),
            weights: weight_values(self.edge_map),
        }
    }
}

impl Clone for Graph {
    /// A graph that holds the same vertices and edges in the same order.
    fn clone(&self) -> (g: Self)
        ensures
            g@ == self@,
            g.spec_order() == self.spec_order(),
            g.spec_size() == self.spec_size(),
    {
        Graph {
            node_map: adjacency_clone(&self.node_map),
            edge_map: weights_clone(&self.edge_map),
            size: self.size,
            order: self.order,
        }
    }
}

/// The canonical key of the edge between `u` and `v`.
fn edge(u: i32, v: i32) -> (key: (i32, i32))
    ensures
        key == edge_key(u, v),
{
    if u < v {
        (u, v)
    } else {
        (v, u)
    }
}

impl Graph {
    /// The stored vertex count.
    pub closed spec fn spec_order(&self) -> u32 {
        self.order
    }

    /// The stored edge count.
    pub closed spec fn spec_size(&self) -> u32 {
        self.size
    }

    /// The graph meets the structural invariant and its two counters agree
    /// with what it holds.
    pub open spec fn wf(&self) -> bool {
        &&& self@.wf()
        &&& self.spec_order() == self@.nodes.len()
        &&& self.spec_size() == self@.edges.len()
    }

    /// The two counters count the vertices and the canonical edge keys that
    /// the graph holds.
    pub proof fn lemma_counts(&self)
        requires
            self.wf(),
        ensures
            self@.adj.dom().finite(),
            self@.weights.dom().finite(),
            self.spec_order() == self@.adj.dom().len(),
            self.spec_size() == self@.weights.dom().len(),
    {
        lemma_cardinality(self@);
    }

    /// An empty graph.
    pub fn new() -> (g: Self)
        ensures
            g.wf(),
            g@ == GraphView::empty(),
    {
        let g = Graph { node_map: adjacency_new(), edge_map: weights_new(), order: 0, size: 0 };
        proof {
            assert(g@.nodes =~= Seq::empty());
            assert(g@.edges =~= Seq::empty());
            assert(g@.adj =~= Map::empty());
            assert(g@.weights =~= Map::empty());
        }
        g
    }

    /// The number of edges in the graph.
    pub fn size(&self) -> (n: u32)
        ensures
            n == self.spec_size(),
            self.wf() ==> n == self@.edges.len() && n == self@.weights.dom().len(),
    {
        proof {
            if self.wf() {
                lemma_cardinality(self@);
            }
        }
        self.size
    }

    /// The number of nodes in the graph.
    pub fn order(&self) -> (n: u32)
        ensures
            n == self.spec_order(),
            self.wf() ==> n == self@.nodes.len() && n == self@.adj.dom().len(),
    {
        proof {
            if self.wf() {
                lemma_cardinality(self@);
            }
        }
        self.order
    }

    /// Adds a node to the graph; if the node already exists then nothing
    /// happens.
    pub fn add_node(&mut self, u: i32)
        requires
            old(self).wf(),
            old(self)@.add_node(u).nodes.len() <= u32::MAX,
        ensures
            final(self).wf(),
            final(self)@ == old(self)@.add_node(u),
    {
        proof {
            lemma_add_node(self@, u);
        }
        if !adjacency_contains_key(&self.node_map, u) {
            let u_neibs = set_new();
            adjacency_insert(&mut self.node_map, u, u_neibs);
            self.order += 1;
            proof {
                assert(set_items(u_neibs) =~= Seq::empty());
            }
        }
    }

    /// Checks if a node is in the graph.
    pub fn contains_node(&self, u: &i32) -> (found: bool)
        ensures
            found == self@.has_node(*u),
    {
        adjacency_contains_key(&self.node_map, *u)
    }

    /// Adds an edge to the graph, with its endpoints where they are missing;
    /// if the edge is already in the graph then nothing happens.
    pub fn add_edge(&mut self, u: i32, v: i32, w: i128)
        requires
            old(self).wf(),
            old(self)@.add_node(u).add_node(v).nodes.len() <= u32::MAX,
            !old(self)@.has_edge(u, v) ==> old(self)@.edges.len() < u32::MAX,
        ensures
            final(self).wf(),
            final(self)@ == old(self)@.add_edge(u, v, w),
            final(self)@.has_node(u) && final(self)@.has_node(v) && final(self)@.has_edge(u, v),
            old(self)@.has_edge(u, v) ==> final(self)@ == old(self)@,
            !old(self)@.has_edge(u, v) ==> final(self)@.weight(u, v) == w,
            !old(self)@.has_edge(u, v) ==> final(self)@.edges.len() == old(self)@.edges.len() + 1,
    {
        let ghost g0 = self@;
        proof {
            lemma_add_node(g0, u);
            lemma_add_node(g0.add_node(u), v);
            lemma_add_edge(g0, u, v, w);
        }
        self.add_node(u);
        self.add_node(v);
        let ghost g2 = self@;

        // add u -> v to node map
        let u_map = adjacency_get_mut(&mut self.node_map, u);
        set_insert(u_map, v);
        let ghost g3 = self@;
        proof {
            assert(g3.adj =~= g2.link(u, v).adj);
            assert(g3 == g2.link(u, v));
            lemma_link(g2, u, v);
        }

        // add v -> u to node map
        let v_map = adjacency_get_mut(&mut self.node_map, v);
        set_insert(v_map, u);
        let ghost g4 = self@;
        proof {
            assert(g4.adj =~= g3.link(v, u).adj);
            assert(g4 == g3.link(v, u));
        }

        // add (u,v,w) to edge map
        let pair = edge(u, v);
        if !weights_contains_key(&self.edge_map, pair) {
            weights_insert(&mut self.edge_map, pair, w);
            self.size += 1;
        }
        proof {
            assert(self@ == g4.put_key(pair, w));
        }
    }

    /// Collection of nodes incident to `u`, in their current order.
    pub fn neighbors(&self, u: &i32) -> (r: Option<Vec<i32>>)
        ensures
            r.is_some() == self@.has_node(*u),
            r.is_some() ==> r.unwrap()@ == self@.adj[*u],
    {
        match adjacency_get(&self.node_map, *u) {
            Some(set) => Some(set_to_vec(set)),
            None => None,
        }
    }

    /// Checks whether `x` is listed among the neighbors of `u`.
    pub fn is_neighbor(&self, u: &i32, x: &i32) -> (found: bool)
        ensures
            found == self@.adjacent(*u, *x),
    {
        match adjacency_get(&self.node_map, *u) {
            Some(set) => set_contains(set, *x),
            None => false,
        }
    }

    /// Checks edge membership in the graph.
    pub fn contains_edge(&self, u: &i32, v: &i32) -> (found: bool)
        ensures
            found == self@.has_edge(*u, *v),
            found == self@.has_edge(*v, *u),
    {
        proof {
            assert(edge_key(*u, *v) == edge_key(*v, *u));
        }
        let e = edge(*u, *v);
        weights_contains_key(&self.edge_map, e)
    }

    /// Removes the edge between `u` and `v` from the graph, if there is one.
    pub fn remove_edge(&mut self, u: &i32, v: &i32)
        requires
            old(self).wf(),
        ensures
            final(self).wf(),
            final(self)@ == old(self)@.remove_edge(*u, *v),
            !final(self)@.has_edge(*u, *v),
            final(self)@.nodes == old(self)@.nodes,
            final(self)@.edges.len() == old(self)@.edges.len() - if old(self)@.has_edge(*u, *v) {
                1int
            } else {
                0int
            },
    {
        let ghost g0 = self@;
        proof {
            lemma_remove_edge(g0, *u, *v);
        }
        if self.contains_edge(u, v) {
            proof {
                let key = edge_key(*u, *v);
                assert(g0.weights.dom().contains((key.0, key.1)));
                assert(g0.adjacent(key.0, key.1));
                assert(g0.adjacent(key.1, key.0));
            }
            let u_map = adjacency_get_mut(&mut self.node_map, *u);
            set_swap_remove(u_map, *v);
            let ghost g1 = self@;
            proof {
                assert(g1.adj =~= g0.unlink(*u, *v).adj);
                assert(g1 == g0.unlink(*u, *v));
                lemma_unlink(g0, *u, *v);
            }
            let v_map = adjacency_get_mut(&mut self.node_map, *v);
            set_swap_remove(v_map, *u);
            let ghost g2 = self@;
            proof {
                assert(g2.adj =~= g1.unlink(*v, *u).adj);
                assert(g2 == g1.unlink(*v, *u));
            }

            let e = edge(*u, *v);
            weights_swap_remove(&mut self.edge_map, e);
            proof {
                assert(self@ == g2.drop_key(e));
            }

            self.size -= 1;
        }
    }

    /// Removes the node `u` from the graph, with every edge at it.
    pub fn remove_node(&mut self, u: &i32)
        requires
            old(self).wf(),
        ensures
            final(self).wf(),
            final(self)@ == old(self)@.remove_node(*u),
            !final(self)@.has_node(*u),
            forall|x: i32| !final(self)@.has_edge(*u, x),
            old(self)@.has_node(*u) ==> final(self)@.nodes.len() == old(self)@.nodes.len() - 1,
            old(self)@.has_node(*u) ==> final(self)@.edges.len() == old(self)@.edges.len() - old(
                self,
            )@.adj[*u].len(),
    {
        let ghost g0 = self@;
        let u = *u;
        proof {
            lemma_remove_node(g0, u);
            assert forall|x: i32| !g0.remove_node(u).has_edge(u, x) by {
                let key = edge_key(u, x);
                assert(g0.remove_node(u).weights.dom().contains(key) ==> key.0 != u && key.1 != u);
            }
        }
        let ns = match adjacency_get(&self.node_map, u) {
            Some(set) => set_to_vec(set),
            None => { return ; },
        };
        proof {
            assert forall|n: i32| ns@.contains(n) implies g0.adjacent(u, n) by {}
            assert forall|e: (i32, i32)| #[trigger] g0.weights.dom().contains(e) implies !(e.0 == u
                && g0.adjacent(u, e.1) && !ns@.contains(e.1)) && !(e.1 == u && g0.adjacent(u, e.0)
                && !ns@.contains(e.0)) by {}
            assert(ns@.skip(0) =~= ns@);
        }
        let mut i: usize = 0;
        while i < ns.len()
            invariant
                0 <= i <= ns.len(),
                g0.wf(),
                g0.has_node(u),
                ns@ == g0.adj[u],
                detaching(g0, self@, u, ns@.skip(i as int)),
                self@.detach(u, ns@.skip(i as int)) == g0.detach(u, ns@),
                self.order == g0.nodes.len(),
                self.size == self@.edges.len(),
            decreases ns.len() - i,
        {
            let ghost rest = ns@.skip(i as int);
            let ghost g = self@;
            proof {
                assert(rest.no_duplicates());
                assert forall|n: i32| rest.contains(n) implies g0.adjacent(u, n) by {
                    let j = choose|j: int| 0 <= j < rest.len() && rest[j] == n;
                    assert(ns@[i + j] == n);
                }
                lemma_detach_step(g0, g, u, rest);
                assert(rest.drop_first() =~= ns@.skip(i + 1));
                assert(rest[0] == ns@[i as int]);
            }
            let n = ns[i];
            let n_map = adjacency_get_mut(&mut self.node_map, n);
            set_swap_remove(n_map, u);
            let ghost g1 = self@;
            proof {
                assert(g1.adj =~= g.unlink(n, u).adj);
                assert(g1 == g.unlink(n, u));
            }
            let e = edge(u, n);
            weights_swap_remove(&mut self.edge_map, e);
            proof {
                assert(self@ == g1.drop_key(e));
            }
            self.size -= 1;
            i += 1;
        }
        proof {
            assert(ns@.skip(ns@.len() as int) =~= Seq::empty());
            assert(self@ == g0.detach(u, ns@));
        }
        adjacency_swap_remove(&mut self.node_map, u);
        self.order -= 1;
    }

    /// The weight of the edge between `u` and `v`, if there is one.
    pub fn get_weight(&self, u: &i32, v: &i32) -> (r: Option<&i128>)
        ensures
            r.is_some() == self@.has_edge(*u, *v),
            r.is_some() ==> *r.unwrap() == self@.weight(*u, *v),
    {
        if self.contains_edge(u, v) {
            let key = edge(*u, *v);
            weights_get(&self.edge_map, key)
        } else {
            None
        }
    }

    /// The weight of the edge between `u` and `v`, if there is one, for the
    /// caller to change in place.
    pub fn get_weight_mut(&mut self, u: &i32, v: &i32) -> (r: Option<&mut i128>)
        requires
            old(self).wf(),
        ensures
            r.is_some() == old(self)@.has_edge(*u, *v),
            match r {
                Some(w) => *w == old(self)@.weight(*u, *v) && final(self)@ == old(self)@.set_weight(
                    *u,
                    *v,
                    *final(w),
                ) && final(self).wf(),
                None => final(self)@ == old(self)@ && final(self).wf(),
            },
    {
        let ghost g0 = self@;
        proof {
            assert forall|w: i128| #![trigger g0.set_weight(*u, *v, w)]
                g0.set_weight(*u, *v, w).wf() && g0.set_weight(*u, *v, w).nodes == g0.nodes
                    && g0.set_weight(*u, *v, w).edges == g0.edges by {
                lemma_set_weight(g0, *u, *v, w);
            }
        }
        if self.contains_edge(u, v) {
            let key = edge(*u, *v);
            let weight = weights_get_mut(&mut self.edge_map, key);
            Some(weight)
        } else {
            None
        }
    }

    /// Overwrites the weight of the edge between `u` and `v`, if there is
    /// one.
    pub fn set_weight(&mut self, u: &i32, v: &i32, w: i128)
        requires
            old(self).wf(),
        ensures
            final(self).wf(),
            final(self)@ == old(self)@.set_weight(*u, *v, w),
    {
        proof {
            lemma_set_weight(self@, *u, *v, w);
        }
        if self.contains_edge(u, v) {
            let key = edge(*u, *v);
            let weight = weights_get_mut(&mut self.edge_map, key);
            *weight = w;
        }
    }

    /// The vertex at position `idx` of the vertex order, if there is one.
    pub fn node_idx(&self, idx: usize) -> (r: Option<&i32>)
        ensures
            r.is_some() == (idx < self@.nodes.len()),
            r.is_some() ==> *r.unwrap() == self@.nodes[idx as int],
    {
        adjacency_key_at(&self.node_map, idx)
    }

    /// The endpoints and the weight of the edge at position `idx` of the
    /// edge order, if there is one.
    pub fn edge_idx(&self, idx: usize) -> (r: Option<(&i32, &i32, &i128)>)
        ensures
            r.is_some() == (idx < self@.edges.len()),
            r.is_some() ==> (*r.unwrap().0, *r.unwrap().1) == self@.edges[idx as int],
            r.is_some() ==> *r.unwrap().2 == self@.weights[self@.edges[idx as int]],
    {
        weights_entry_at(&self.edge_map, idx)
    }

    /// A cursor over the nodes of the graph as they are now, in order.
    pub fn nodes(&self) -> (it: NodeIter)
        ensures
            it.remaining() == self@.nodes,
    {
        let keys = adjacency_key_vec(&self.node_map);
        proof {
            assert(keys@.skip(0) =~= keys@);
        }
        NodeIter { keys, pos: 0 }
    }

    /// A cursor over the canonical edge keys of the graph as they are now,
    /// in order.
    pub fn edges(&self) -> (it: EdgeIter)
        ensures
            it.remaining() == self@.edges,
    {
        let keys = weights_key_vec(&self.edge_map);
        proof {
            assert(keys@.skip(0) =~= keys@);
        }
        EdgeIter { keys, pos: 0 }
    }

    /// Grabs a random node from the graph.
    pub fn random_node(&self) -> (r: Result<&i32, GraphError>)
        requires
            self.wf(),
        ensures
            r.is_err() == (self@.nodes.len() == 0),
            r.is_err() ==> r == Err::<&i32, GraphError>(GraphError::EmptyGraph),
            r.is_ok() ==> self@.nodes.contains(*r.unwrap()) && self@.has_node(*r.unwrap()),
    {
        if self.order == 0 {
            return Err(GraphError::EmptyGraph);
        }
        // get index of a node [0,|V|)
        let upper = self.order as usize;
        let index = random_below(upper);
        let v = self.node_idx(index).unwrap();
        proof {
            assert(self@.nodes[index as int] == *v);
            assert(self@.nodes.contains(*v));
            assert(self@.adj.dom().contains(*v));
        }
        Ok(v)
    }

    /// Grabs a random edge from the graph.
    pub fn random_edge(&self) -> (r: Result<(&i32, &i32), GraphError>)
        requires
            self.wf(),
        ensures
            r.is_err() == (self@.edges.len() == 0),
            r.is_err() ==> r == Err::<(&i32, &i32), GraphError>(GraphError::EmptyGraph),
            r.is_ok() ==> self@.edges.contains((*r.unwrap().0, *r.unwrap().1)) && self@.has_edge(
                *r.unwrap().0,
                *r.unwrap().1,
            ),
    {
        if self.size == 0 {
            return Err(GraphError::EmptyGraph);
        }
        let upper = self.size as usize;
        let edge_index = random_below(upper);
        let (u, v, _w) = self.edge_idx(edge_index).unwrap();
        proof {
            let e = self@.edges[edge_index as int];
            assert(e == (*u, *v));
            assert(self@.edges.contains(e));
            assert(self@.weights.dom().contains(e));
            assert(self@.weights.dom().contains((e.0, e.1)));
            assert(edge_key(*u, *v) == e);
        }
        Ok((u, v))
    }
}

/// A cursor over a snapshot of the nodes of a graph.
pub struct NodeIter {
    keys: Vec<i32>,
    pos: usize,
}

impl NodeIter {
    /// The nodes that the cursor has yet to give out.
    pub closed spec fn remaining(&self) -> Seq<i32> {
        if self.pos <= self.keys@.len() {
            self.keys@.skip(self.pos as int)
        } else {
            Seq::empty()
        }
    }

    /// Gives out the next node, if there is one left.
    pub fn next(&mut self) -> (r: Option<&i32>)
        ensures
            r.is_some() == (old(self).remaining().len() > 0),
            r.is_some() ==> *r.unwrap() == old(self).remaining()[0],
            final(self).remaining() == if old(self).remaining().len() > 0 {
                old(self).remaining().drop_first()
            } else {
                old(self).remaining()
            },
    {
        if self.pos < self.keys.len() {
            let i = self.pos;
            self.pos = i + 1;
            proof {
                assert(self.keys@.skip(i as int).drop_first() =~= self.keys@.skip(i + 1));
            }
            Some(&self.keys[i])
        } else {
            None
        }
    }
}

/// A cursor over a snapshot of the canonical edge keys of a graph.
pub struct EdgeIter {
    keys: Vec<(i32, i32)>,
    pos: usize,
}

impl EdgeIter {
    /// The edge keys that the cursor has yet to give out.
    pub closed spec fn remaining(&self) -> Seq<(i32, i32)> {
        if self.pos <= self.keys@.len() {
            self.keys@.skip(self.pos as int)
        } else {
            Seq::empty()
        }
    }

    /// Gives out the next edge key, if there is one left.
    pub fn next(&mut self) -> (r: Option<&(i32, i32)>)
        ensures
            r.is_some() == (old(self).remaining().len() > 0),
            r.is_some() ==> *r.unwrap() == old(self).remaining()[0],
            final(self).remaining() == if old(self).remaining().len() > 0 {
                old(self).remaining().drop_first()
            } else {
                old(self).remaining()
            },
    {
        if self.pos < self.keys.len() {
            let i = self.pos;
            self.pos = i + 1;
            proof {
                assert(self.keys@.skip(i as int).drop_first() =~= self.keys@.skip(i + 1));
            }
            Some(&self.keys[i])
        } else {
            None
        }
    }
}

} // verus!
