//! The mathematical model of a graph: ordered vertex and edge-key sequences,
//! a neighbor list per vertex and a weight per canonical edge key, together
//! with the effect of each structural operation on that model.

use crate::error::GraphError;
use crate::store::swap_removed;
use vstd::prelude::*;

verus! {

/// The canonical key of the undirected edge between `u` and `v`: the smaller
/// endpoint first.
pub open spec fn edge_key(u: i32, v: i32) -> (i32, i32) {
    if u < v {
        (u, v)
    } else {
        (v, u)
    }
}

/// Appending to a sequence adds exactly the appended element.
pub proof fn lemma_push_contains<T>(s: Seq<T>, x: T)
    ensures
        forall|y: T| #[trigger] s.push(x).contains(y) <==> s.contains(y) || y == x,
        s.no_duplicates() && !s.contains(x) ==> s.push(x).no_duplicates(),
{
    let r = s.push(x);
    assert forall|y: T| #[trigger] r.contains(y) <==> s.contains(y) || y == x by {
        if r.contains(y) {
            let i = choose|i: int| 0 <= i < r.len() && r[i] == y;
            if i < s.len() {
                assert(s[i] == y);
            }
        }
        if s.contains(y) {
            let i = choose|i: int| 0 <= i < s.len() && s[i] == y;
            assert(r[i] == y);
        }
        if y == x {
            assert(r[s.len() as int] == y);
        }
    }
}

/// Removing a present element of a duplicate-free sequence by swapping the
/// last element into its place removes exactly that element.
pub proof fn lemma_swap_removed<T>(s: Seq<T>, x: T)
    requires
        s.no_duplicates(),
        s.contains(x),
    ensures
        swap_removed(s, s.index_of(x)).no_duplicates(),
        swap_removed(s, s.index_of(x)).len() == s.len() - 1,
        forall|y: T| #[trigger]
            swap_removed(s, s.index_of(x)).contains(y) <==> s.contains(y) && y != x,
{
    let k = s.index_of(x);
    let r = swap_removed(s, k);
    assert(0 <= k < s.len() && s[k] == x);
    assert forall|y: T| #[trigger] r.contains(y) <==> s.contains(y) && y != x by {
        if r.contains(y) {
            let i = choose|i: int| 0 <= i < r.len() && r[i] == y;
            if i == k {
                assert(s[s.len() - 1] == y);
            } else {
                assert(s[i] == y);
            }
        }
        if s.contains(y) && y != x {
            let i = choose|i: int| 0 <= i < s.len() && s[i] == y;
            if i == s.len() - 1 {
                assert(r[k] == y);
            } else {
                assert(r[i] == y);
            }
        }
    }
}

/// What a graph is, as plain mathematical values.
pub struct GraphView {
    /// The vertices in their current order.
    pub nodes: Seq<i32>,
    /// The neighbors of each vertex in their current order.
    pub adj: Map<i32, Seq<i32>>,
    /// The canonical edge keys in their current order.
    pub edges: Seq<(i32, i32)>,
    /// The weight of each canonical edge key.
    pub weights: Map<(i32, i32), i128>,
}

impl GraphView {
    /// `u` is a vertex of the graph.
    pub open spec fn has_node(self, u: i32) -> bool {
        self.adj.dom().contains(u)
    }

    /// `b` is listed as a neighbor of the vertex `a`.
    pub open spec fn adjacent(self, a: i32, b: i32) -> bool {
        self.adj.dom().contains(a) && self.adj[a].contains(b)
    }

    /// A weight is stored for the edge between `u` and `v`.
    pub open spec fn has_edge(self, u: i32, v: i32) -> bool {
        self.weights.dom().contains(edge_key(u, v))
    }

    /// The weight stored for the edge between `u` and `v`.
    pub open spec fn weight(self, u: i32, v: i32) -> i128 {
        self.weights[edge_key(u, v)]
    }

    /// The order sequences list exactly the keys of the two maps, once each.
    pub open spec fn indexed(self) -> bool {
        &&& self.nodes.no_duplicates()
        &&& forall|a: i32| #[trigger] self.nodes.contains(a) <==> self.adj.dom().contains(a)
        &&& self.edges.no_duplicates()
        &&& forall|e: (i32, i32)| #[trigger]
            self.edges.contains(e) <==> self.weights.dom().contains(e)
        &&& forall|a: i32| #[trigger]
            self.adj.dom().contains(a) ==> self.adj[a].no_duplicates()
    }

    /// The structural invariant: the order sequences match the maps,
    /// adjacency is symmetric, and an edge key is present exactly when its
    /// endpoints list each other.
    pub open spec fn wf(self) -> bool {
        &&& self.indexed()
        &&& forall|a: i32, b: i32| #[trigger] self.adjacent(a, b) ==> self.adjacent(b, a)
        &&& forall|a: i32, b: i32| #[trigger]
            self.weights.dom().contains((a, b)) ==> a <= b && self.adjacent(a, b)
        &&& forall|a: i32, b: i32| a <= b && #[trigger] self.adjacent(a, b)
            ==> self.weights.dom().contains((a, b))
    }

    /// The graph without vertices.
    pub open spec fn empty() -> GraphView {
        GraphView {
            nodes: Seq::empty(),
            adj: Map::empty(),
            edges: Seq::empty(),
            weights: Map::empty(),
        }
    }

    /// The graph with `u` as a vertex: added last, without neighbors, unless
    /// it is a vertex already.
    pub open spec fn add_node(self, u: i32) -> GraphView {
        if self.has_node(u) {
            self
        } else {
            GraphView { nodes: self.nodes.push(u), adj: self.adj.insert(u, Seq::empty()), ..self }
        }
    }

    /// Lists `v` as a neighbor of `u`, last, unless it is listed already.
    pub open spec fn link(self, u: i32, v: i32) -> GraphView {
        if self.adj[u].contains(v) {
            self
        } else {
            GraphView { adj: self.adj.insert(u, self.adj[u].push(v)), ..self }
        }
    }

    /// Stores `w` under `key`, last, unless the key is present already.
    pub open spec fn put_key(self, key: (i32, i32), w: i128) -> GraphView {
        if self.weights.dom().contains(key) {
            self
        } else {
            GraphView { edges: self.edges.push(key), weights: self.weights.insert(key, w), ..self }
        }
    }

    /// The graph with an edge between `u` and `v`: both are vertices, each
    /// lists the other, and the weight `w` is stored unless the edge had a
    /// weight already.
    pub open spec fn add_edge(self, u: i32, v: i32, w: i128) -> GraphView {
        self.add_node(u).add_node(v).link(u, v).link(v, u).put_key(edge_key(u, v), w)
    }

    /// Takes `v` out of the neighbors of `u`, the last neighbor moving
    /// into its place.
    pub open spec fn unlink(self, u: i32, v: i32) -> GraphView {
        if self.adj[u].contains(v) {
            GraphView {
                adj: self.adj.insert(u, swap_removed(self.adj[u], self.adj[u].index_of(v))),
                ..self
            }
        } else {
            self
        }
    }

    /// Takes `key` out of the edge keys, the last key moving into its place.
    pub open spec fn drop_key(self, key: (i32, i32)) -> GraphView {
        if self.weights.dom().contains(key) {
            GraphView {
                edges: swap_removed(self.edges, self.edges.index_of(key)),
                weights: self.weights.remove(key),
                ..self
            }
        } else {
            self
        }
    }

    /// The graph without the edge between `u` and `v`: neither lists the
    /// other, and the weight is gone.
    pub open spec fn remove_edge(self, u: i32, v: i32) -> GraphView {
        if self.has_edge(u, v) {
            self.unlink(u, v).unlink(v, u).drop_key(edge_key(u, v))
        } else {
            self
        }
    }

    /// The graph with `w` as the weight of the edge between `u` and `v`, if
    /// there is such an edge.
    pub open spec fn set_weight(self, u: i32, v: i32, w: i128) -> GraphView {
        if self.has_edge(u, v) {
            GraphView { weights: self.weights.insert(edge_key(u, v), w), ..self }
        } else {
            self
        }
    }

    /// Removes the edges between `u` and each vertex of `ns`, in that order,
    /// keeping `u`'s own neighbor list unless `u` itself is among them.
    pub open spec fn detach(self, u: i32, ns: Seq<i32>) -> GraphView
        decreases ns.len(),
    {
        if ns.len() == 0 {
            self
        } else {
            self.unlink(ns[0], u).drop_key(edge_key(u, ns[0])).detach(u, ns.drop_first())
        }
    }

    /// The graph without the vertex `u` and without the edges at it; the
    /// last vertex moves into its place.
    pub open spec fn remove_node(self, u: i32) -> GraphView {
        if self.has_node(u) {
            let g = self.detach(u, self.adj[u]);
            GraphView {
                nodes: swap_removed(g.nodes, g.nodes.index_of(u)),
                adj: g.adj.remove(u),
                ..g
            }
        } else {
            self
        }
    }
}

impl GraphView {
    /// Folds `op` from the left over the weights of the edges between `a`
    /// and the vertices of `ns`, in that order, leaving out `skip`.
    pub open spec fn fold_costs(
        self,
        op: spec_fn(i128, i128) -> i128,
        acc: i128,
        a: i32,
        skip: i32,
        ns: Seq<i32>,
    ) -> i128
        decreases ns.len(),
    {
        if ns.len() == 0 {
            acc
        } else if ns[0] == skip {
            self.fold_costs(op, acc, a, skip, ns.drop_first())
        } else {
            self.fold_costs(op, op(acc, self.weight(a, ns[0])), a, skip, ns.drop_first())
        }
    }

    /// The cost of contracting the edge between `u` and `v`: its own weight,
    /// combined with the weights of the other edges at `u` and then with
    /// those of the other edges at `v`, each in neighbor order.
    pub open spec fn contraction_cost(
        self,
        u: i32,
        v: i32,
        op: spec_fn(i128, i128) -> i128,
    ) -> i128 {
        let at_u = self.fold_costs(op, self.weight(u, v), u, v, self.adj[u]);
        self.fold_costs(op, at_u, v, u, self.adj[v])
    }

    /// The weight that the edge between `v` and `x` takes along when `v` is
    /// fused into `u`: combined with the weight of the edge between `u` and
    /// `x` where there is one.
    pub open spec fn merged_weight(
        self,
        u: i32,
        v: i32,
        x: i32,
        op: spec_fn(i128, i128) -> i128,
    ) -> i128 {
        if self.adjacent(u, x) {
            op(self.weight(v, x), self.weight(u, x))
        } else {
            self.weight(v, x)
        }
    }

    /// Each neighbor of `v`, in order, with the weight that its edge takes
    /// along when `v` is fused into `u`.
    pub open spec fn merged_weights(
        self,
        u: i32,
        v: i32,
        op: spec_fn(i128, i128) -> i128,
    ) -> Seq<(i32, i128)> {
        Seq::new(
            self.adj[v].len(),
            |i: int| (self.adj[v][i], self.merged_weight(u, v, self.adj[v][i], op)),
        )
    }

    /// Moves the edge between `x` and `v` over to `u`, with the weight `w`.
    pub open spec fn rehome_one(self, u: i32, v: i32, x: i32, w: i128) -> GraphView {
        let g = self.remove_edge(x, v);
        if g.has_edge(x, u) {
            g.set_weight(x, u, w)
        } else {
            g.add_edge(x, u, w)
        }
    }

    /// Moves the edges between `v` and the listed vertices over to `u`, one
    /// after the other, each with the weight listed for it.
    pub open spec fn rehome(self, u: i32, v: i32, ws: Seq<(i32, i128)>) -> GraphView
        decreases ws.len(),
    {
        if ws.len() == 0 {
            self
        } else {
            self.rehome_one(u, v, ws[0].0, ws[0].1).rehome(u, v, ws.drop_first())
        }
    }

    /// The graph after `v` has been fused into `u`.
    pub open spec fn contract_edge(
        self,
        u: i32,
        v: i32,
        op: spec_fn(i128, i128) -> i128,
    ) -> GraphView {
        let g = self.remove_edge(u, v);
        g.rehome(u, v, g.merged_weights(u, v, op)).remove_node(v)
    }

    /// The vertices that are neighbors of both `u` and `v`.
    pub open spec fn common_neighbors(self, u: i32, v: i32) -> Set<i32> {
        self.adj[u].to_set().intersect(self.adj[v].to_set())
    }
}

/// The alias table in which every vertex of `nodes` stands for itself.
pub open spec fn identity_on(nodes: Set<i32>) -> Map<i32, i32> {
    Map::new(|x: i32| nodes.contains(x), |x: i32| x)
}

/// The alias table after `v` has been fused into `u`: whatever stood for `v`
/// stands for `u`.
pub open spec fn merge_alias(rep: Map<i32, i32>, u: i32, v: i32) -> Map<i32, i32> {
    Map::new(|x: i32| rep.dom().contains(x), |x: i32| if rep[x] == v { u } else { rep[x] })
}

impl GraphView {
    /// Contracts the listed edges one after the other, each between the
    /// vertices that its endpoints stand for by then, and adds the costs to
    /// `total`. A pair whose endpoints stand for the same vertex is passed
    /// over. The run stops at the first pair that names an unknown vertex,
    /// whose endpoints are not joined, or whose cost takes the total out of
    /// range; the graph is then as the pairs before it left it.
    pub open spec fn contract_sequence(
        self,
        rep: Map<i32, i32>,
        edges: Seq<(i32, i32)>,
        total: i128,
        op: spec_fn(i128, i128) -> i128,
    ) -> (Result<i128, GraphError>, GraphView)
        decreases edges.len(),
    {
        if edges.len() == 0 {
            (Ok(total), self)
        } else if !rep.dom().contains(edges[0].0) || !rep.dom().contains(edges[0].1) {
            (Err(GraphError::VertexNotFound), self)
        } else {
            let u = rep[edges[0].0];
            let v = rep[edges[0].1];
            if u == v {
                self.contract_sequence(rep, edges.drop_first(), total, op)
            } else if !self.has_edge(u, v) {
                (Err(GraphError::EdgeNotFound), self)
            } else {
                let sum = total + self.contraction_cost(u, v, op);
                if sum < i128::MIN || sum > i128::MAX {
                    (Err(GraphError::CostOverflow), self)
                } else {
                    self.contract_edge(u, v, op).contract_sequence(
                        merge_alias(rep, u, v),
                        edges.drop_first(),
                        sum as i128,
                        op,
                    )
                }
            }
        }
    }
}

} // verus!
