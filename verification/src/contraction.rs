//! Edge contraction: the cost of fusing two joined vertices, the fusion
//! itself, and sequences of fusions.

use crate::error::GraphError;
use crate::graph::Graph;
use crate::model::{edge_key, identity_on, lemma_push_contains, merge_alias, GraphView};
use crate::model_proofs::{
    lemma_add_node, lemma_edge_adjacent, lemma_rehome_one, lemma_remove_edge, lemma_remove_node,
};
use crate::sample::random_below;
use std::collections::HashMap;
use vstd::prelude::*;

verus! {

/// The value that `f` returns on `a` and `b`, as its postcondition gives it.
pub open spec fn combined<F: Fn(&i128, &i128) -> i128>(f: F, a: i128, b: i128) -> i128 {
    choose|r: i128| call_ensures(f, (&a, &b), r)
}

/// The mathematical operation that `f` computes.
pub open spec fn as_op<F: Fn(&i128, &i128) -> i128>(f: F) -> spec_fn(i128, i128) -> i128 {
    |a: i128, b: i128| combined(f, a, b)
}

/// `f` accepts every pair of weights, and its postcondition determines the
/// result for each pair.
pub open spec fn is_function<F: Fn(&i128, &i128) -> i128>(f: F) -> bool {
    &&& forall|a: i128, b: i128| #[trigger] call_requires(f, (&a, &b))
    &&& forall|a: i128, b: i128, r1: i128, r2: i128|
        #![trigger call_ensures(f, (&a, &b), r1), call_ensures(f, (&a, &b), r2)]
        call_ensures(f, (&a, &b), r1) && call_ensures(f, (&a, &b), r2) ==> r1 == r2
}

/// Whatever `f` may return on `a` and `b` is the value of the operation
/// that it computes.
pub proof fn lemma_as_op<F: Fn(&i128, &i128) -> i128>(f: F, a: i128, b: i128, r: i128)
    requires
        is_function(f),
        call_ensures(f, (&a, &b), r),
    ensures
        as_op(f)(a, b) == r,
{
    let c = combined(f, a, b);
    assert(call_ensures(f, (&a, &b), c));
}

/// `e` is the key of an edge between `u` and a neighbor of `v`.
pub open spec fn rehomed_key(g: GraphView, u: i32, v: i32, e: (i32, i32)) -> bool {
    (e.0 == u && g.adjacent(v, e.1)) || (e.1 == u && g.adjacent(v, e.0))
}

/// Calls `f` on `a` and `b`.
fn apply<F: Fn(&i128, &i128) -> i128>(f: &F, a: i128, b: i128) -> (r: i128)
    requires
        is_function(*f),
    ensures
        r == as_op(*f)(a, b),
{
    let r = f(&a, &b);
    proof {
        lemma_as_op(*f, a, b, r);
    }
    r
}

impl Graph {
    /// Combines `acc` with the weights of the edges at `a`, in neighbor
    /// order, leaving out the edge to `skip`.
    fn fold_neighbors<F: Fn(&i128, &i128) -> i128>(
        &self,
        acc: i128,
        a: i32,
        skip: i32,
        combine: &F,
    ) -> (r: i128)
        requires
            self.wf(),
            self@.has_node(a),
            is_function(*combine),
        ensures
            r == self@.fold_costs(as_op(*combine), acc, a, skip, self@.adj[a]),
    {
        let ns = self.neighbors(&a).unwrap();
        let mut cost = acc;
        let mut i: usize = 0;
        proof {
            assert(ns@.skip(0) =~= ns@);
        }
        while i < ns.len()
            invariant
                0 <= i <= ns.len(),
                self.wf(),
                self@.has_node(a),
                ns@ == self@.adj[a],
                is_function(*combine),
                self@.fold_costs(as_op(*combine), cost, a, skip, ns@.skip(i as int))
                    == self@.fold_costs(as_op(*combine), acc, a, skip, ns@),
            decreases ns.len() - i,
        {
            let x = ns[i];
            proof {
                assert(ns@.skip(i as int).drop_first() =~= ns@.skip(i + 1));
                assert(ns@.skip(i as int)[0] == x);
                assert(self@.adj[a].contains(x));
                lemma_edge_adjacent(self@, a, x);
            }
            if x != skip {
                let wn = *self.get_weight(&a, &x).unwrap();
                cost = apply(combine, cost, wn);
            }
            i += 1;
        }
        proof {
            assert(ns@.skip(ns@.len() as int).len() == 0);
        }
        cost
    }

    /// The cost of contracting the edge between `u` and `v`, without
    /// changing the graph.
    pub fn contraction_cost<F: Fn(&i128, &i128) -> i128>(
        &self,
        u: &i32,
        v: &i32,
        combine: &F,
    ) -> (r: Result<i128, GraphError>)
        requires
            self.wf(),
            is_function(*combine),
        ensures
            r == if self@.has_edge(*u, *v) {
                Ok::<i128, GraphError>(self@.contraction_cost(*u, *v, as_op(*combine)))
            } else {
                Err::<i128, GraphError>(GraphError::EdgeNotFound)
            },
    {
        proof {
            lemma_edge_adjacent(self@, *u, *v);
        }
        // cost of this edge
        let seed = match self.get_weight(u, v) {
            Some(w) => *w,
            None => { return Err(GraphError::EdgeNotFound); },
        };
        // costs of edges incident to u
        let at_u = self.fold_neighbors(seed, *u, *v, combine);
        // costs of edges incident to v
        let cost = self.fold_neighbors(at_u, *v, *u, combine);
        Ok(cost)
    }

    /// Each neighbor of `v`, in order, with the weight that its edge takes
    /// along when `v` is fused into `u`.
    fn merged_weights<F: Fn(&i128, &i128) -> i128>(
        &self,
        u: i32,
        v: i32,
        combine: &F,
    ) -> (ws: Vec<(i32, i128)>)
        requires
            self.wf(),
            self@.has_node(v),
            is_function(*combine),
        ensures
            ws@ == self@.merged_weights(u, v, as_op(*combine)),
    {
        let ns = self.neighbors(&v).unwrap();
        let mut ws: Vec<(i32, i128)> = Vec::new();
        let mut i: usize = 0;
        while i < ns.len()
            invariant
                0 <= i <= ns.len(),
                self.wf(),
                self@.has_node(v),
                ns@ == self@.adj[v],
                is_function(*combine),
                ws@.len() == i,
                forall|j: int|
                    0 <= j < i ==> #[trigger] ws@[j] == (
                        ns@[j],
                        self@.merged_weight(u, v, ns@[j], as_op(*combine)),
                    ),
            decreases ns.len() - i,
        {
            let x = ns[i];
            proof {
                assert(self@.adj[v].contains(x));
                lemma_edge_adjacent(self@, v, x);
                lemma_edge_adjacent(self@, u, x);
            }
            let wvx = *self.get_weight(&v, &x).unwrap();
            // if u and v are both incident to x, the weights will be combined
            let new_weight = if self.is_neighbor(&u, &x) {
                let wux = *self.get_weight(&u, &x).unwrap();
                apply(combine, wvx, wux)
            } else {
                // otherwise the weight will simply stay the same as it was
                wvx
            };
            ws.push((x, new_weight));
            i += 1;
        }
        proof {
            assert(ws@ =~= self@.merged_weights(u, v, as_op(*combine)));
        }
        ws
    }

    /// Fuses `v` into `u`: the edge between them goes, every other edge at
    /// `v` moves over to `u`, merging with the edge that `u` already has to
    /// the same vertex, and `v` leaves the graph.
    pub fn contract_edge<F: Fn(&i128, &i128) -> i128>(
        &mut self,
        u: &i32,
        v: &i32,
        combine: F,
    ) -> (r: Result<(), GraphError>)
        requires
            old(self).wf(),
            is_function(combine),
        ensures
            final(self).wf(),
            r == if old(self)@.has_edge(*u, *v) {
                Ok::<(), GraphError>(())
            } else {
                Err::<(), GraphError>(GraphError::EdgeNotFound)
            },
            final(self)@ == if old(self)@.has_edge(*u, *v) {
                old(self)@.contract_edge(*u, *v, as_op(combine))
            } else {
                old(self)@
            },
            old(self)@.has_edge(*u, *v) ==> final(self)@.nodes.len() == old(self)@.nodes.len() - 1,
            old(self)@.has_edge(*u, *v) && *u != *v && !old(self)@.adjacent(*u, *u)
                ==> final(self)@.edges.len() == old(self)@.edges.len() - 1 - old(
                self,
            )@.common_neighbors(*u, *v).len(),
            old(self)@.has_edge(*u, *v) && *u != *v && !old(self)@.adjacent(*u, *u) && !old(
                self,
            )@.adjacent(*v, *v) ==> {
                &&& forall|a: i32| #[trigger]
                    final(self)@.has_node(a) <==> old(self)@.has_node(a) && a != *v
                &&& forall|x: i32| #[trigger]
                    old(self)@.adjacent(*v, x) && x != *u ==> final(self)@.has_edge(*u, x)
                        && final(self)@.weight(*u, x) == old(self)@.merged_weight(
                        *u,
                        *v,
                        x,
                        as_op(combine),
                    )
                &&& forall|a: i32, b: i32|
                    a != *v && b != *v && !(a == *u && old(self)@.adjacent(*v, b)) && !(b == *u
                        && old(self)@.adjacent(*v, a)) ==> (#[trigger] final(self)@.has_edge(a, b))
                        == old(self)@.has_edge(a, b) && (old(self)@.has_edge(a, b)
                        ==> final(self)@.weight(a, b) == old(self)@.weight(a, b))
            },
    {
        self.fuse(*u, *v, &combine)
    }

    /// Fuses `v` into `u`, with the combining function taken by reference.
    fn fuse<F: Fn(&i128, &i128) -> i128>(&mut self, u: i32, v: i32, combine: &F) -> (r: Result<
        (),
        GraphError,
    >)
        requires
            old(self).wf(),
            is_function(*combine),
        ensures
            final(self).wf(),
            r == if old(self)@.has_edge(u, v) {
                Ok::<(), GraphError>(())
            } else {
                Err::<(), GraphError>(GraphError::EdgeNotFound)
            },
            final(self)@ == if old(self)@.has_edge(u, v) {
                old(self)@.contract_edge(u, v, as_op(*combine))
            } else {
                old(self)@
            },
            old(self)@.has_edge(u, v) ==> final(self)@.nodes.len() == old(self)@.nodes.len() - 1,
            old(self)@.has_edge(u, v) && u != v && !old(self)@.adjacent(u, u)
                ==> final(self)@.edges.len() == old(self)@.edges.len() - 1 - old(
                self,
            )@.common_neighbors(u, v).len(),
            old(self)@.has_edge(u, v) && u != v && !old(self)@.adjacent(u, u) && !old(
                self,
            )@.adjacent(v, v) ==> {
                &&& forall|a: i32| #[trigger]
                    final(self)@.has_node(a) <==> old(self)@.has_node(a) && a != v
                &&& forall|x: i32| #[trigger]
                    old(self)@.adjacent(v, x) && x != u ==> final(self)@.has_edge(u, x)
                        && final(self)@.weight(u, x) == old(self)@.merged_weight(
                        u,
                        v,
                        x,
                        as_op(*combine),
                    )
                &&& forall|a: i32, b: i32|
                    a != v && b != v && !(a == u && old(self)@.adjacent(v, b)) && !(b == u
                        && old(self)@.adjacent(v, a)) ==> (#[trigger] final(self)@.has_edge(a, b))
                        == old(self)@.has_edge(a, b) && (old(self)@.has_edge(a, b)
                        ==> final(self)@.weight(a, b) == old(self)@.weight(a, b))
            },
    {
        let ghost g0 = self@;
        if !self.contains_edge(&u, &v) {
            return Err(GraphError::EdgeNotFound);
        }
        let ghost plain = u != v && !g0.adjacent(u, u);
        let ghost simple = plain && !g0.adjacent(v, v);
        proof {
            lemma_edge_adjacent(g0, u, v);
            lemma_remove_edge(g0, u, v);
        }
        self.remove_edge(&u, &v);
        let ghost g1 = self@;

        // calculate and save the new weights of edges incident to v
        let ws = self.merged_weights(u, v, combine);
        let ghost ns = g1.adj[v];
        let ghost mut merged: Set<i32> = Set::empty();
        proof {
            assert(ws@.skip(0) =~= ws@);
            assert(g1.adj.dom().contains(v));
            assert(ns.no_duplicates());
            assert forall|y: i32| !(#[trigger] ns.take(0).contains(y)) by {}
            assert forall|y: i32| #[trigger] ns.skip(0).contains(y) <==> g1.adjacent(v, y) by {
                assert(ns.skip(0) =~= ns);
            }
            assert(!ns.contains(u));
            assert(merged =~= Set::new(|y: i32| ns.take(0).contains(y) && g1.adjacent(u, y)));
        }

        // replace all edges incident to v by remapping them to u
        let mut k: usize = 0;
        while k < ws.len()
            invariant
                0 <= k <= ws.len(),
                ws@ == g1.merged_weights(u, v, as_op(*combine)),
                g1.wf(),
                g1.has_node(v),
                !g1.adjacent(v, u),
                ns == g1.adj[v],
                ns.no_duplicates(),
                ws@.len() == ns.len(),
                self.wf(),
                self@.rehome(u, v, ws@.skip(k as int)) == g1.rehome(u, v, ws@),
                self@.has_node(u),
                self@.has_node(v),
                self@.adj.dom() == g1.adj.dom(),
                self@.nodes.len() == g1.nodes.len(),
                self@.edges.len() <= g1.edges.len(),
                forall|j: int| k <= j < ns.len() ==> self@.adjacent(v, #[trigger] ns[j]),
                plain == (u != v && !g1.adjacent(u, u)),
                simple == (plain && !g1.adjacent(v, v)),
                !ns.contains(u),
                plain ==> forall|y: i32| #[trigger]
                    self@.adjacent(v, y) <==> ns.skip(k as int).contains(y) || (y == u
                        && ns.take(k as int).contains(v)),
                plain ==> forall|y: i32| #[trigger]
                    self@.adjacent(u, y) <==> g1.adjacent(u, y) || ns.take(k as int).contains(y),
                merged.finite(),
                merged =~= Set::new(|y: i32| ns.take(k as int).contains(y) && g1.adjacent(u, y)),
                plain ==> self@.edges.len() == g1.edges.len() - merged.len(),
                simple ==> forall|a: i32, b: i32|
                    a != u && a != v && b != u && b != v ==> (#[trigger] self@.adjacent(a, b)
                        <==> g1.adjacent(a, b)),
                simple ==> forall|j: int|
                    0 <= j < k ==> self@.weights.dom().contains(edge_key(#[trigger] ns[j], u))
                        && self@.weights[edge_key(ns[j], u)] == ws@[j].1,
                simple ==> forall|e: (i32, i32)| #[trigger]
                    self@.weights.dom().contains(e) && !rehomed_key(g1, u, v, e)
                        ==> g1.weights.dom().contains(e) && self@.weights[e] == g1.weights[e],
            decreases ws.len() - k,
        {
            let ghost g = self@;
            let (x, wvx) = ws[k];
            proof {
                assert(ws@[k as int].0 == ns[k as int]);
                assert(x == ns[k as int]);
                assert(g.adjacent(v, x));
                lemma_rehome_one(g, u, v, x, wvx);
                lemma_edge_adjacent(g, v, x);
                lemma_edge_adjacent(g, x, v);
                lemma_remove_edge(g, x, v);
                assert(ws@.skip(k as int).drop_first() =~= ws@.skip(k + 1));
                assert(ws@.skip(k as int)[0] == ws@[k as int]);
            }
            // remove (x,v) because v is getting fused into u
            self.remove_edge(&x, &v);
            proof {
                lemma_add_node(self@, x);
                lemma_add_node(self@.add_node(x), u);
            }
            if self.contains_edge(&x, &u) {
                self.set_weight(&x, &u, wvx);
            } else {
                self.add_edge(x, u, wvx);
            }
            proof {
                let r = self@;
                assert(r == g.rehome_one(u, v, x, wvx));
                let i1 = k + 1;
                assert forall|y: i32| #[trigger]
                    ns.take(i1).contains(y) <==> ns.take(k as int).contains(y) || y == x by {
                    if ns.take(i1).contains(y) {
                        let j = choose|j: int| 0 <= j < ns.take(i1).len() && ns.take(i1)[j] == y;
                        if j < k {
                            assert(ns.take(k as int)[j] == y);
                        }
                    }
                    if ns.take(k as int).contains(y) {
                        let j = choose|j: int|
                            0 <= j < ns.take(k as int).len() && ns.take(k as int)[j] == y;
                        assert(ns.take(i1)[j] == y);
                    }
                    if y == x {
                        assert(ns.take(i1)[k as int] == y);
                    }
                }
                assert forall|y: i32| #[trigger]
                    ns.skip(i1).contains(y) <==> ns.skip(k as int).contains(y) && y != x by {
                    if ns.skip(i1).contains(y) {
                        let j = choose|j: int| 0 <= j < ns.skip(i1).len() && ns.skip(i1)[j] == y;
                        assert(ns.skip(k as int)[j + 1] == y);
                        assert(ns[i1 + j] == y);
                    }
                    if ns.skip(k as int).contains(y) && y != x {
                        let j = choose|j: int|
                            0 <= j < ns.skip(k as int).len() && ns.skip(k as int)[j] == y;
                        assert(ns[k + j] == y);
                        assert(ns.skip(i1)[j - 1] == y);
                    }
                }
                assert(!ns.take(k as int).contains(x)) by {
                    if ns.take(k as int).contains(x) {
                        let j = choose|j: int|
                            0 <= j < ns.take(k as int).len() && ns.take(k as int)[j] == x;
                        assert(ns[j] == x);
                    }
                }
                assert forall|j: int| i1 <= j < ns.len() implies r.adjacent(
                    v,
                    #[trigger] ns[j],
                ) by {
                    assert(g.adjacent(v, ns[j]));
                    assert(ns[j] != x);
                }
                let next = Set::new(|y: i32| ns.take(i1).contains(y) && g1.adjacent(u, y));
                if g1.adjacent(u, x) {
                    assert(next =~= merged.insert(x));
                } else {
                    assert(next =~= merged);
                }
                if plain {
                    assert(ns.skip(k as int).contains(x)) by {
                        assert(ns.skip(k as int)[0] == x);
                    }
                    assert(g1.adjacent(v, x)) by {
                        assert(ns.contains(x));
                    }
                    assert(x != u);
                    assert(g.adjacent(u, x) <==> g1.adjacent(u, x));
                    assert(!ns.skip(i1).contains(u)) by {
                        if ns.skip(i1).contains(u) {
                            let j = choose|j: int|
                                0 <= j < ns.skip(i1).len() && ns.skip(i1)[j] == u;
                            assert(ns[i1 + j] == u);
                        }
                    }
                    assert(!ns.skip(k as int).contains(u)) by {
                        if ns.skip(k as int).contains(u) {
                            let j = choose|j: int|
                                0 <= j < ns.skip(k as int).len() && ns.skip(k as int)[j] == u;
                            assert(ns[k + j] == u);
                        }
                    }
                }
                if simple {
                    assert(x != v);
                    assert(rehomed_key(g1, u, v, edge_key(x, u)));
                    assert forall|j: int| 0 <= j < i1 implies r.weights.dom().contains(
                        edge_key(#[trigger] ns[j], u),
                    ) && r.weights[edge_key(ns[j], u)] == ws@[j].1 by {
                        if j < k {
                            assert(ns[j] != x);
                            assert(g.weights.dom().contains(edge_key(ns[j], u)));
                        }
                    }
                }
                merged = next;
            }
            k += 1;
        }
        proof {
            assert(ws@.skip(ws@.len() as int).len() == 0);
            assert(self@ == g1.rehome(u, v, ws@));
            if plain {
                let s = self@.adj[v];
                assert(ns.take(ns.len() as int) =~= ns);
                assert forall|y: i32| !(#[trigger] ns.skip(ns.len() as int).contains(y)) by {}
                assert forall|y: i32| #[trigger] s.contains(y) <==> y == u && ns.contains(v) by {
                    assert(self@.adjacent(v, y) <==> s.contains(y));
                }
                assert(ns.contains(v) <==> g0.adjacent(v, v)) by {
                    assert(g1.adjacent(v, v) <==> g0.adjacent(v, v));
                }
                let with_v = Set::new(
                    |y: i32| (ns.contains(y) && g1.adjacent(u, y)) || (y == v && ns.contains(v)),
                );
                assert(with_v =~= g0.common_neighbors(u, v)) by {
                    assert forall|y: i32|
                        with_v.contains(y) <==> g0.common_neighbors(u, v).contains(y) by {
                        assert(g1.adjacent(v, y) <==> g0.adjacent(v, y) && y != u);
                        assert(g1.adjacent(u, y) <==> g0.adjacent(u, y) && y != v);
                        assert(ns.contains(y) <==> g1.adjacent(v, y));
                        assert(g0.adjacent(u, v));
                    }
                }
                if ns.contains(v) {
                    assert(s.contains(u));
                    if s.len() >= 2 {
                        assert(s.contains(s[0]) && s.contains(s[1]));
                    }
                    assert(s.len() == 1);
                    assert(!merged.contains(v));
                    assert(with_v =~= merged.insert(v));
                } else {
                    if s.len() > 0 {
                        assert(s.contains(s[0]));
                    }
                    assert(s.len() == 0);
                    assert(with_v =~= merged);
                }
            }
        }
        let ghost g2 = self@;
        self.remove_node(&v);
        proof {
            lemma_remove_node(g2, v);
            if simple {
                let r = self@;
                let op = as_op(*combine);
                assert forall|a: i32| #[trigger] r.has_node(a) <==> g0.has_node(a) && a != v by {}
                assert forall|x: i32| #[trigger] g0.adjacent(v, x) && x != u implies r.has_edge(
                    u,
                    x,
                ) && r.weight(u, x) == g0.merged_weight(u, v, x, op) by {
                    assert(g1.adjacent(v, x));
                    assert(ns.contains(x));
                    let j = choose|j: int| 0 <= j < ns.len() && ns[j] == x;
                    assert(edge_key(ns[j], u) == edge_key(u, x));
                    assert(ws@[j].1 == g1.merged_weight(u, v, x, op));
                    assert(g1.adjacent(u, x) <==> g0.adjacent(u, x));
                    lemma_edge_adjacent(g0, v, x);
                    lemma_edge_adjacent(g0, u, x);
                    assert(edge_key(v, x) != edge_key(u, v));
                    assert(edge_key(u, x) != edge_key(u, v));
                }
                assert forall|a: i32, b: i32|
                    a != v && b != v && !(a == u && g0.adjacent(v, b)) && !(b == u && g0.adjacent(
                        v,
                        a,
                    )) implies (#[trigger] r.has_edge(a, b)) == g0.has_edge(a, b) && (g0.has_edge(
                    a,
                    b,
                ) ==> r.weight(a, b) == g0.weight(a, b)) by {
                    let e = edge_key(a, b);
                    lemma_edge_adjacent(g0, a, b);
                    lemma_edge_adjacent(g1, a, b);
                    lemma_edge_adjacent(g2, a, b);
                    lemma_edge_adjacent(r, a, b);
                    assert(e != edge_key(u, v));
                    assert(!rehomed_key(g1, u, v, e));
                    assert(r.adjacent(a, b) <==> g2.adjacent(a, b));
                    assert(g1.adjacent(a, b) <==> g0.adjacent(a, b));
                    if a == u {
                        assert(g2.adjacent(u, b) <==> g1.adjacent(u, b) || ns.take(
                            ns.len() as int,
                        ).contains(b));
                        assert(ns.contains(b) <==> g1.adjacent(v, b));
                    } else if b == u {
                        lemma_edge_adjacent(g0, b, a);
                        lemma_edge_adjacent(g1, b, a);
                        lemma_edge_adjacent(g2, b, a);
                        assert(g2.adjacent(u, a) <==> g1.adjacent(u, a) || ns.take(
                            ns.len() as int,
                        ).contains(a));
                        assert(ns.contains(a) <==> g1.adjacent(v, a));
                    } else {
                        assert(g2.adjacent(a, b) <==> g1.adjacent(a, b));
                    }
                    if r.has_edge(a, b) {
                        assert(r.weights.dom().contains(e));
                        assert(g2.weights.dom().contains(e));
                    }
                }
            }
        }
        Ok(())
    }
}

/// The chained alias table `alias` resolves every vertex to what it stands
/// for in `rep`. Each link of a chain leads to a vertex that was fused
/// later, as `stamp` records, so that chains end.
pub open spec fn alias_ok(
    alias: Map<i32, i32>,
    rep: Map<i32, i32>,
    stamp: Map<i32, nat>,
    step: nat,
    bound: nat,
) -> bool {
    &&& step <= bound
    &&& alias.dom() == rep.dom()
    &&& alias.dom() == stamp.dom()
    &&& forall|x: i32| #[trigger]
        alias.dom().contains(x) ==> {
            &&& alias.dom().contains(alias[x])
            &&& alias.dom().contains(rep[x])
            &&& rep[alias[x]] == rep[x]
            &&& alias[rep[x]] == rep[x]
            &&& (alias[x] == x ==> rep[x] == x && stamp[x] == bound)
            &&& (alias[x] != x ==> stamp[x] < stamp[alias[x]] && stamp[x] < step)
            &&& stamp[x] <= bound
        }
}

/// The sum of two costs, where it fits.
fn checked_sum(a: i128, b: i128) -> (r: Option<i128>)
    ensures
        r == if i128::MIN <= a + b <= i128::MAX {
            Some((a + b) as i128)
        } else {
            None::<i128>
        },
{
    if (b >= 0 && a > i128::MAX - b) || (b < 0 && a < i128::MIN - b) {
        None
    } else {
        Some(a + b)
    }
}

impl Graph {
    /// The vertex that `v` stands for after the fusions recorded in
    /// `fusion`, if the table knows `v`.
    fn node_ref(
        &self,
        fusion: &HashMap<i32, i32>,
        v: i32,
        Ghost(rep): Ghost<Map<i32, i32>>,
        Ghost(stamp): Ghost<Map<i32, nat>>,
        Ghost(step): Ghost<nat>,
        Ghost(bound): Ghost<nat>,
    ) -> (r: Option<i32>)
        requires
            alias_ok(fusion@, rep, stamp, step, bound),
        ensures
            r == if rep.dom().contains(v) {
                Some(rep[v])
            } else {
                None::<i32>
            },
    {
        broadcast use vstd::std_specs::hash::group_hash_axioms;

        let mut fused = match fusion.get(&v) {
            Some(x) => *x,
            None => { return None; },
        };
        let mut last = v;
        while fused != last
            invariant
                alias_ok(fusion@, rep, stamp, step, bound),
                fusion@.dom().contains(last),
                fused == fusion@[last],
                rep[last] == rep[v],
            decreases bound - stamp[last],
        {
            last = fused;
            fused = *fusion.get(&fused).unwrap();
        }
        Some(fused)
    }

    /// Contracts a sequence of edges and returns `base` plus the sum of
    /// their contraction costs. Each pair is taken between the vertices that
    /// its endpoints have been fused into by then; a pair that has collapsed
    /// to one vertex is passed over.
    pub fn contract_edges<F: Fn(&i128, &i128) -> i128>(
        &mut self,
        edges: Vec<(i32, i32)>,
        base: i128,
        combine: &F,
    ) -> (r: Result<i128, GraphError>)
        requires
            old(self).wf(),
            is_function(*combine),
        ensures
            final(self).wf(),
            (r, final(self)@) == old(self)@.contract_sequence(
                identity_on(old(self)@.adj.dom()),
                edges@,
                base,
                as_op(*combine),
            ),
    {
        broadcast use vstd::std_specs::hash::group_hash_axioms;

        let ghost g0 = self@;
        let ghost rep0 = identity_on(g0.adj.dom());
        let ghost bound = edges@.len();
        let mut total_cost = base;

        let mut overwrite = HashMap::<i32, i32>::new();
        let mut it = self.nodes();
        let ghost mut done: int = 0;
        proof {
            assert(g0.nodes.skip(0) =~= g0.nodes);
        }
        loop
            invariant_except_break
                0 <= done <= g0.nodes.len(),
                it.remaining() == g0.nodes.skip(done),
                forall|x: i32| #[trigger]
                    overwrite@.dom().contains(x) <==> g0.nodes.take(done).contains(x),
                forall|x: i32| #[trigger] overwrite@.dom().contains(x) ==> overwrite@[x] == x,
            ensures
                forall|x: i32| #[trigger] overwrite@.dom().contains(x) <==> g0.nodes.contains(x),
                forall|x: i32| #[trigger] overwrite@.dom().contains(x) ==> overwrite@[x] == x,
            decreases g0.nodes.len() - done,
        {
            let u = match it.next() {
                Some(u) => *u,
                None => {
                    proof {
                        assert(g0.nodes.take(done) =~= g0.nodes);
                    }
                    break ;
                },
            };
            proof {
                assert(g0.nodes.skip(done)[0] == g0.nodes[done]);
                assert(g0.nodes.skip(done).drop_first() =~= g0.nodes.skip(done + 1));
                assert(g0.nodes.take(done + 1) =~= g0.nodes.take(done).push(u));
                lemma_push_contains(g0.nodes.take(done), u);
                done = done + 1;
            }
            overwrite.insert(u, u);
        }
        let ghost mut rep = rep0;
        let ghost mut stamp = Map::new(|x: i32| g0.adj.dom().contains(x), |x: i32| bound);
        proof {
            assert(overwrite@.dom() =~= rep.dom());
            assert(overwrite@.dom() =~= stamp.dom());
            assert(edges@.skip(0) =~= edges@);
        }

        let mut i: usize = 0;
        while i < edges.len()
            invariant
                0 <= i <= edges.len(),
                bound == edges@.len(),
                g0 == old(self)@,
                rep0 == identity_on(g0.adj.dom()),
                self.wf(),
                is_function(*combine),
                alias_ok(overwrite@, rep, stamp, i as nat, bound),
                self@.contract_sequence(rep, edges@.skip(i as int), total_cost, as_op(*combine))
                    == g0.contract_sequence(rep0, edges@, base, as_op(*combine)),
            decreases edges.len() - i,
        {
            let ghost g = self@;
            let ghost rest = edges@.skip(i as int);
            proof {
                assert(rest[0] == edges@[i as int]);
                assert(rest.drop_first() =~= edges@.skip(i + 1));
            }
            let (a, b) = edges[i];
            proof {
                assert(rest.len() > 0);
                assert(rest[0].0 == a && rest[0].1 == b);
                assert(overwrite@.dom().contains(a) ==> overwrite@.dom().contains(rep[a]));
                assert(overwrite@.dom().contains(b) ==> overwrite@.dom().contains(rep[b]));
            }
            let ghost step = i as nat;
            let u = match self.node_ref(
                &overwrite,
                a,
                Ghost(rep),
                Ghost(stamp),
                Ghost(step),
                Ghost(bound),
            ) {
                Some(u) => u,
                None => {
                    proof {
                        assert(g.contract_sequence(rep, rest, total_cost, as_op(*combine)) == (
                            Err::<i128, GraphError>(GraphError::VertexNotFound),
                            g,
                        ));
                    }
                    return Err(GraphError::VertexNotFound);
                },
            };
            let v = match self.node_ref(
                &overwrite,
                b,
                Ghost(rep),
                Ghost(stamp),
                Ghost(step),
                Ghost(bound),
            ) {
                Some(v) => v,
                None => { return Err(GraphError::VertexNotFound); },
            };

            if u != v {
                let cost = match self.contraction_cost(&u, &v, combine) {
                    Ok(cost) => cost,
                    Err(e) => { return Err(e); },
                };
                let sum = match checked_sum(total_cost, cost) {
                    Some(sum) => sum,
                    None => { return Err(GraphError::CostOverflow); },
                };
                let _ = self.fuse(u, v, combine);
                let ghost old_alias = overwrite@;
                overwrite.insert(v, u);
                proof {
                    let new_rep = merge_alias(rep, u, v);
                    let new_stamp = stamp.insert(v, i as nat);
                    assert(old_alias.dom().contains(a));
                    assert(old_alias.dom().contains(b));
                    assert(old_alias.dom().contains(u));
                    assert(old_alias.dom().contains(v));
                    assert(old_alias[u] == u);
                    assert(old_alias[v] == v);
                    assert(overwrite@.dom() =~= new_rep.dom());
                    assert(overwrite@.dom() =~= new_stamp.dom());
                    assert forall|x: i32| #[trigger] overwrite@.dom().contains(x) implies {
                        &&& overwrite@.dom().contains(overwrite@[x])
                        &&& overwrite@.dom().contains(new_rep[x])
                        &&& new_rep[overwrite@[x]] == new_rep[x]
                        &&& overwrite@[new_rep[x]] == new_rep[x]
                        &&& (overwrite@[x] == x ==> new_rep[x] == x && new_stamp[x] == bound)
                        &&& (overwrite@[x] != x ==> new_stamp[x] < new_stamp[overwrite@[x]]
                            && new_stamp[x] < i + 1)
                        &&& new_stamp[x] <= bound
                    } by {
                        assert(old_alias.dom().contains(x));
                        assert(old_alias.dom().contains(old_alias[x]));
                        assert(old_alias.dom().contains(rep[x]));
                    }
                    rep = new_rep;
                    stamp = new_stamp;
                }
                total_cost = sum;
            }
            i += 1;
        }
        Ok(total_cost)
    }

    /// Contracts the edge at position `idx` of the edge order and returns
    /// its contraction cost.
    pub fn contract_edge_at<F: Fn(&i128, &i128) -> i128>(&mut self, idx: usize, combine: F) -> (r:
        Result<i128, GraphError>)
        requires
            old(self).wf(),
            is_function(combine),
        ensures
            final(self).wf(),
            r == if idx < old(self)@.edges.len() {
                Ok::<i128, GraphError>(
                    old(self)@.contraction_cost(
                        old(self)@.edges[idx as int].0,
                        old(self)@.edges[idx as int].1,
                        as_op(combine),
                    ),
                )
            } else {
                Err::<i128, GraphError>(GraphError::EdgeNotFound)
            },
            final(self)@ == if idx < old(self)@.edges.len() {
                old(self)@.contract_edge(
                    old(self)@.edges[idx as int].0,
                    old(self)@.edges[idx as int].1,
                    as_op(combine),
                )
            } else {
                old(self)@
            },
    {
        let (x, y) = match self.edge_idx(idx) {
            Some((u, v, _w)) => (*u, *v),
            None => { return Err(GraphError::EdgeNotFound); },
        };
        proof {
            let e = self@.edges[idx as int];
            assert(self@.edges.contains(e));
            assert(self@.weights.dom().contains(e));
            assert(self@.weights.dom().contains((e.0, e.1)));
            assert(edge_key(x, y) == e);
        }
        let cost = self.contraction_cost(&x, &y, &combine);
        let _ = self.fuse(x, y, &combine);
        cost
    }

    /// Contracts an edge picked at random and returns its contraction cost.
    pub fn contract_random_edge<F: Fn(&i128, &i128) -> i128>(&mut self, combine: F) -> (r:
        Result<i128, GraphError>)
        requires
            old(self).wf(),
            is_function(combine),
        ensures
            final(self).wf(),
            old(self)@.edges.len() == 0 ==> r == Err::<i128, GraphError>(GraphError::EmptyGraph)
                && final(self)@ == old(self)@,
            old(self)@.edges.len() > 0 ==> exists|i: int|
                0 <= i < old(self)@.edges.len() && r == Ok::<i128, GraphError>(
                    old(self)@.contraction_cost(
                        (#[trigger] old(self)@.edges[i]).0,
                        old(self)@.edges[i].1,
                        as_op(combine),
                    ),
                ) && final(self)@ == old(self)@.contract_edge(
                    old(self)@.edges[i].0,
                    old(self)@.edges[i].1,
                    as_op(combine),
                ),
    {
        let size = self.size();
        if size == 0 {
            return Err(GraphError::EmptyGraph);
        }
        let idx = random_below(size as usize);
        self.contract_edge_at(idx, combine)
    }
}

} // verus!
