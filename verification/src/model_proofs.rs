//! Proofs that each structural operation of the model keeps the structural
//! invariant, and what it does to the vertex set, the adjacency relation and
//! the edge keys.

use crate::model::{edge_key, lemma_push_contains, lemma_swap_removed, GraphView};
use vstd::prelude::*;

verus! {

/// `link(u, v)` adds the pair `(u, v)` to the adjacency relation and nothing
/// else.
pub proof fn lemma_link(g: GraphView, u: i32, v: i32)
    requires
        g.indexed(),
        g.has_node(u),
    ensures
        g.link(u, v).indexed(),
        g.link(u, v).nodes == g.nodes,
        g.link(u, v).adj.dom() == g.adj.dom(),
        g.link(u, v).edges == g.edges,
        g.link(u, v).weights == g.weights,
        forall|a: i32| a != u && g.has_node(a) ==> #[trigger] g.link(u, v).adj[a] == g.adj[a],
        forall|a: i32, b: i32| #[trigger]
            g.link(u, v).adjacent(a, b) <==> g.adjacent(a, b) || (a == u && b == v),
{
    let r = g.link(u, v);
    lemma_push_contains(g.adj[u], v);
    assert(r.adj.dom() =~= g.adj.dom());
    assert forall|a: i32, b: i32| #[trigger]
        r.adjacent(a, b) <==> g.adjacent(a, b) || (a == u && b == v) by {
        if a == u {
            assert(g.adj[u].push(v).contains(b) <==> g.adj[u].contains(b) || b == v);
        }
    }
    assert forall|a: i32| #[trigger] r.adj.dom().contains(a) implies r.adj[a].no_duplicates() by {
        assert(g.adj.dom().contains(a));
    }
    assert forall|a: i32| #[trigger] r.nodes.contains(a) <==> r.adj.dom().contains(a) by {
        assert(g.nodes.contains(a) <==> g.adj.dom().contains(a));
    }
}

/// `unlink(u, v)` takes the pair `(u, v)` out of the adjacency relation and
/// nothing else.
pub proof fn lemma_unlink(g: GraphView, u: i32, v: i32)
    requires
        g.indexed(),
        g.has_node(u),
    ensures
        g.unlink(u, v).indexed(),
        g.unlink(u, v).nodes == g.nodes,
        g.unlink(u, v).adj.dom() == g.adj.dom(),
        g.unlink(u, v).edges == g.edges,
        g.unlink(u, v).weights == g.weights,
        forall|a: i32| a != u && g.has_node(a) ==> #[trigger] g.unlink(u, v).adj[a] == g.adj[a],
        g.unlink(u, v).adj[u].len() == g.adj[u].len() - if g.adjacent(u, v) { 1int } else { 0int },
        forall|a: i32, b: i32| #[trigger]
            g.unlink(u, v).adjacent(a, b) <==> g.adjacent(a, b) && !(a == u && b == v),
{
    let r = g.unlink(u, v);
    assert(g.adj[u].no_duplicates());
    if g.adj[u].contains(v) {
        lemma_swap_removed(g.adj[u], v);
    }
    assert(r.adj.dom() =~= g.adj.dom());
    assert forall|a: i32, b: i32| #[trigger]
        r.adjacent(a, b) <==> g.adjacent(a, b) && !(a == u && b == v) by {
        if a == u && g.adj[u].contains(v) {
            assert(r.adj[u].contains(b) <==> g.adj[u].contains(b) && b != v);
        }
    }
    assert forall|a: i32| #[trigger] r.adj.dom().contains(a) implies r.adj[a].no_duplicates() by {
        assert(g.adj.dom().contains(a));
    }
    assert forall|a: i32| #[trigger] r.nodes.contains(a) <==> r.adj.dom().contains(a) by {
        assert(g.nodes.contains(a) <==> g.adj.dom().contains(a));
    }
}

/// `put_key` adds one edge key with its weight, unless the key is present.
pub proof fn lemma_put_key(g: GraphView, key: (i32, i32), w: i128)
    requires
        g.indexed(),
    ensures
        g.put_key(key, w).indexed(),
        g.put_key(key, w).nodes == g.nodes,
        g.put_key(key, w).adj == g.adj,
        g.put_key(key, w).weights.dom() == g.weights.dom().insert(key),
        g.put_key(key, w).edges.len() == g.edges.len() + if g.weights.dom().contains(key) {
            0int
        } else {
            1int
        },
{
    let r = g.put_key(key, w);
    lemma_push_contains(g.edges, key);
    assert(r.weights.dom() =~= g.weights.dom().insert(key));
    assert(g.edges.contains(key) <==> g.weights.dom().contains(key));
    assert forall|e: (i32, i32)| #[trigger] r.edges.contains(e) <==> r.weights.dom().contains(
        e,
    ) by {
        assert(g.edges.contains(e) <==> g.weights.dom().contains(e));
        assert(g.edges.push(key).contains(e) <==> g.edges.contains(e) || e == key);
    }
}

/// `drop_key` removes one edge key with its weight, if the key is present.
pub proof fn lemma_drop_key(g: GraphView, key: (i32, i32))
    requires
        g.indexed(),
    ensures
        g.drop_key(key).indexed(),
        g.drop_key(key).nodes == g.nodes,
        g.drop_key(key).adj == g.adj,
        g.drop_key(key).weights == g.weights.remove(key),
        g.drop_key(key).edges.len() == g.edges.len() - if g.weights.dom().contains(key) {
            1int
        } else {
            0int
        },
{
    let r = g.drop_key(key);
    assert(g.edges.contains(key) <==> g.weights.dom().contains(key));
    if g.weights.dom().contains(key) {
        lemma_swap_removed(g.edges, key);
    }
    assert(r.weights =~= g.weights.remove(key));
    assert forall|e: (i32, i32)| #[trigger] r.edges.contains(e) <==> r.weights.dom().contains(
        e,
    ) by {
        assert(g.edges.contains(e) <==> g.weights.dom().contains(e));
    }
}

/// Adding a vertex keeps the invariant and adds at most that vertex.
pub proof fn lemma_add_node(g: GraphView, u: i32)
    requires
        g.wf(),
    ensures
        g.add_node(u).wf(),
        g.add_node(u).adj.dom() == g.adj.dom().insert(u),
        g.add_node(u).nodes.len() == g.nodes.len() + if g.has_node(u) { 0int } else { 1int },
        g.add_node(u).edges == g.edges,
        g.add_node(u).weights == g.weights,
        forall|a: i32, b: i32| #[trigger] g.add_node(u).adjacent(a, b) <==> g.adjacent(a, b),
        forall|a: i32| g.has_node(a) ==> #[trigger] g.add_node(u).adj[a] == g.adj[a],
{
    let r = g.add_node(u);
    lemma_push_contains(g.nodes, u);
    assert(r.adj.dom() =~= g.adj.dom().insert(u));
    assert(g.nodes.contains(u) <==> g.adj.dom().contains(u));
    assert forall|a: i32| #[trigger] r.nodes.contains(a) <==> r.adj.dom().contains(a) by {
        assert(g.nodes.contains(a) <==> g.adj.dom().contains(a));
        assert(g.nodes.push(u).contains(a) <==> g.nodes.contains(a) || a == u);
    }
    assert forall|a: i32, b: i32| #[trigger] r.adjacent(a, b) <==> g.adjacent(a, b) by {
        if a == u && !g.has_node(u) {
            assert(!Seq::<i32>::empty().contains(b));
        }
    }
    assert forall|a: i32| #[trigger] r.adj.dom().contains(a) implies r.adj[a].no_duplicates() by {
        if g.has_node(a) {
            assert(g.adj.dom().contains(a));
        }
    }
    assert forall|a: i32, b: i32| #[trigger] r.adjacent(a, b) implies r.adjacent(b, a) by {
        assert(g.adjacent(a, b));
        assert(g.adjacent(b, a));
    }
    assert forall|a: i32, b: i32| #[trigger] r.weights.dom().contains((a, b)) implies a <= b
        && r.adjacent(a, b) by {
        assert(g.adjacent(a, b));
    }
    assert forall|a: i32, b: i32|
        a <= b && #[trigger] r.adjacent(a, b) implies r.weights.dom().contains((a, b)) by {
        assert(g.adjacent(a, b));
    }
}

/// Adding an edge keeps the invariant; it adds the endpoints, makes them
/// neighbors of each other, and stores the weight unless the edge exists.
pub proof fn lemma_add_edge(g: GraphView, u: i32, v: i32, w: i128)
    requires
        g.wf(),
    ensures
        g.add_edge(u, v, w).wf(),
        g.add_edge(u, v, w).adj.dom() == g.adj.dom().insert(u).insert(v),
        forall|a: i32, b: i32| #[trigger]
            g.add_edge(u, v, w).adjacent(a, b) <==> g.adjacent(a, b) || (a == u && b == v) || (a
                == v && b == u),
        forall|a: i32|
            a != u && a != v && g.has_node(a) ==> #[trigger] g.add_edge(u, v, w).adj[a]
                == g.adj[a],
        g.add_edge(u, v, w).weights == if g.has_edge(u, v) {
            g.weights
        } else {
            g.weights.insert(edge_key(u, v), w)
        },
        g.add_edge(u, v, w).nodes.len() == g.nodes.len() + g.add_node(u).add_node(v).nodes.len()
            - g.nodes.len(),
        g.add_node(u).add_node(v).nodes.len() == g.nodes.len() + (if g.has_node(u) {
            0int
        } else {
            1int
        }) + (if g.has_node(v) || u == v {
            0int
        } else {
            1int
        }),
        g.add_edge(u, v, w).edges.len() == g.edges.len() + if g.has_edge(u, v) {
            0int
        } else {
            1int
        },
        g.has_edge(u, v) ==> g.add_edge(u, v, w) == g,
{
    let key = edge_key(u, v);
    let g1 = g.add_node(u);
    lemma_add_node(g, u);
    let g2 = g1.add_node(v);
    lemma_add_node(g1, v);
    let g3 = g2.link(u, v);
    lemma_link(g2, u, v);
    let g4 = g3.link(v, u);
    lemma_link(g3, v, u);
    let r = g4.put_key(key, w);
    lemma_put_key(g4, key, w);
    assert(r == g.add_edge(u, v, w));
    assert forall|a: i32, b: i32| #[trigger]
        r.adjacent(a, b) <==> g.adjacent(a, b) || (a == u && b == v) || (a == v && b == u) by {
        assert(r.adjacent(a, b) <==> g4.adjacent(a, b));
        assert(g4.adjacent(a, b) <==> g3.adjacent(a, b) || (a == v && b == u));
        assert(g3.adjacent(a, b) <==> g2.adjacent(a, b) || (a == u && b == v));
        assert(g2.adjacent(a, b) <==> g1.adjacent(a, b));
        assert(g1.adjacent(a, b) <==> g.adjacent(a, b));
    }
    assert forall|a: i32| a != u && a != v && g.has_node(a) implies #[trigger] r.adj[a]
        == g.adj[a] by {
        assert(g1.adj[a] == g.adj[a]);
        assert(g2.adj[a] == g1.adj[a]);
        assert(g3.adj[a] == g2.adj[a]);
        assert(g4.adj[a] == g3.adj[a]);
    }
    if g.has_edge(u, v) {
        assert(g.adjacent(key.0, key.1));
        assert(g.adjacent(key.1, key.0));
        assert(r == g);
    } else {
        assert(r.weights =~= g.weights.insert(key, w));
    }
    assert forall|a: i32, b: i32| #[trigger] r.adjacent(a, b) implies r.adjacent(b, a) by {
        if g.adjacent(a, b) {
            assert(g.adjacent(b, a));
        }
    }
    assert forall|a: i32, b: i32| #[trigger] r.weights.dom().contains((a, b)) implies a <= b
        && r.adjacent(a, b) by {
        if g.weights.dom().contains((a, b)) {
            assert(g.adjacent(a, b));
        }
    }
    assert forall|a: i32, b: i32|
        a <= b && #[trigger] r.adjacent(a, b) implies r.weights.dom().contains((a, b)) by {
        if g.adjacent(a, b) {
            assert(g.weights.dom().contains((a, b)));
        }
    }
}

/// Adding an edge that exists changes nothing: neither the counts nor the
/// stored weight.
pub proof fn lemma_add_edge_idempotent(g: GraphView, u: i32, v: i32, w1: i128, w2: i128)
    requires
        g.wf(),
    ensures
        g.add_edge(u, v, w1).add_edge(u, v, w2) == g.add_edge(u, v, w1),
        g.add_edge(u, v, w1).add_edge(v, u, w2) == g.add_edge(u, v, w1),
{
    lemma_add_edge(g, u, v, w1);
    let r = g.add_edge(u, v, w1);
    assert(r.weights.dom().contains(edge_key(u, v)));
    assert(edge_key(u, v) == edge_key(v, u));
    lemma_add_edge(r, u, v, w2);
    lemma_add_edge(r, v, u, w2);
}

/// Edge membership does not depend on the order of the endpoints.
pub proof fn lemma_has_edge_symmetric(g: GraphView, u: i32, v: i32)
    ensures
        g.has_edge(u, v) == g.has_edge(v, u),
        g.weight(u, v) == g.weight(v, u),
{
    assert(edge_key(u, v) == edge_key(v, u));
}

/// Removing an edge keeps the invariant and removes exactly that edge.
pub proof fn lemma_remove_edge(g: GraphView, u: i32, v: i32)
    requires
        g.wf(),
    ensures
        g.remove_edge(u, v).wf(),
        g.remove_edge(u, v).nodes == g.nodes,
        g.remove_edge(u, v).adj.dom() == g.adj.dom(),
        forall|a: i32, b: i32| #[trigger]
            g.remove_edge(u, v).adjacent(a, b) <==> g.adjacent(a, b) && !(a == u && b == v) && !(a
                == v && b == u),
        forall|a: i32|
            a != u && a != v && g.has_node(a) ==> #[trigger] g.remove_edge(u, v).adj[a]
                == g.adj[a],
        g.remove_edge(u, v).weights == g.weights.remove(edge_key(u, v)),
        g.remove_edge(u, v).edges.len() == g.edges.len() - if g.has_edge(u, v) {
            1int
        } else {
            0int
        },
        g.has_edge(u, v) <==> g.adjacent(u, v),
        !g.has_edge(u, v) ==> g.remove_edge(u, v) == g,
{
    let key = edge_key(u, v);
    let r = g.remove_edge(u, v);
    if g.adjacent(u, v) {
        assert(g.adjacent(v, u));
        assert(g.adjacent(key.0, key.1));
        assert(g.weights.dom().contains((key.0, key.1)));
    }
    if g.has_edge(u, v) {
        assert(g.weights.dom().contains((key.0, key.1)));
        assert(g.adjacent(key.0, key.1));
        assert(g.adjacent(key.1, key.0));
        let g1 = g.unlink(u, v);
        lemma_unlink(g, u, v);
        let g2 = g1.unlink(v, u);
        lemma_unlink(g1, v, u);
        lemma_drop_key(g2, key);
        assert(r == g2.drop_key(key));
        assert forall|a: i32, b: i32| #[trigger]
            r.adjacent(a, b) <==> g.adjacent(a, b) && !(a == u && b == v) && !(a == v && b
                == u) by {
            assert(r.adjacent(a, b) <==> g2.adjacent(a, b));
            assert(g2.adjacent(a, b) <==> g1.adjacent(a, b) && !(a == v && b == u));
            assert(g1.adjacent(a, b) <==> g.adjacent(a, b) && !(a == u && b == v));
        }
        assert forall|a: i32| a != u && a != v && g.has_node(a) implies #[trigger] r.adj[a]
            == g.adj[a] by {
            assert(g1.adj[a] == g.adj[a]);
            assert(g2.adj[a] == g1.adj[a]);
        }
        assert forall|a: i32, b: i32| #[trigger] r.adjacent(a, b) implies r.adjacent(b, a) by {
            assert(g.adjacent(b, a));
        }
        assert forall|a: i32, b: i32| #[trigger] r.weights.dom().contains((a, b)) implies a <= b
            && r.adjacent(a, b) by {
            assert(g.weights.dom().contains((a, b)));
            assert(g.adjacent(a, b));
        }
        assert forall|a: i32, b: i32|
            a <= b && #[trigger] r.adjacent(a, b) implies r.weights.dom().contains((a, b)) by {
            assert(g.adjacent(a, b));
            assert(g.weights.dom().contains((a, b)));
        }
    } else {
        assert(g.weights.remove(key) =~= g.weights);
    }
}

/// Overwriting the weight of an edge keeps the invariant and the structure.
pub proof fn lemma_set_weight(g: GraphView, u: i32, v: i32, w: i128)
    requires
        g.wf(),
    ensures
        g.set_weight(u, v, w).wf(),
        g.set_weight(u, v, w).nodes == g.nodes,
        g.set_weight(u, v, w).adj == g.adj,
        g.set_weight(u, v, w).edges == g.edges,
        g.set_weight(u, v, w).weights.dom() == g.weights.dom(),
{
    let r = g.set_weight(u, v, w);
    assert(r.weights.dom() =~= g.weights.dom());
    assert forall|a: i32, b: i32| #[trigger] r.adjacent(a, b) <==> g.adjacent(a, b) by {}
    assert forall|a: i32, b: i32| #[trigger] r.adjacent(a, b) implies r.adjacent(b, a) by {
        assert(g.adjacent(a, b));
        assert(g.adjacent(b, a));
    }
    assert forall|a: i32, b: i32| #[trigger] r.weights.dom().contains((a, b)) implies a <= b
        && r.adjacent(a, b) by {
        assert(g.weights.dom().contains((a, b)));
        assert(g.adjacent(a, b));
    }
    assert forall|a: i32, b: i32|
        a <= b && #[trigger] r.adjacent(a, b) implies r.weights.dom().contains((a, b)) by {
        assert(g.adjacent(a, b));
    }
    assert forall|e: (i32, i32)| #[trigger] r.edges.contains(e) <==> r.weights.dom().contains(
        e,
    ) by {
        assert(g.edges.contains(e) <==> g.weights.dom().contains(e));
    }
}

/// The state reached while the edges at `u` are being removed one by one:
/// `g` is `g0` without the edges between `u` and those neighbors of `u`
/// that are no longer in `ns`.
pub open spec fn detaching(g0: GraphView, g: GraphView, u: i32, ns: Seq<i32>) -> bool {
    &&& g.indexed()
    &&& g.nodes == g0.nodes
    &&& g.adj.dom() == g0.adj.dom()
    &&& forall|a: i32, b: i32| #[trigger]
        g.adjacent(a, b) <==> g0.adjacent(a, b) && !(b == u && g0.adjacent(u, a) && !ns.contains(
            a,
        ))
    &&& forall|e: (i32, i32)| #[trigger]
        g.weights.dom().contains(e) <==> g0.weights.dom().contains(e) && !(e.0 == u
            && g0.adjacent(u, e.1) && !ns.contains(e.1)) && !(e.1 == u && g0.adjacent(u, e.0)
            && !ns.contains(e.0))
    &&& forall|e: (i32, i32)| #[trigger]
        g.weights.dom().contains(e) ==> g.weights[e] == g0.weights[e]
}

/// One step of removing the edges at `u`: the edge to `ns[0]` goes.
pub proof fn lemma_detach_step(g0: GraphView, g: GraphView, u: i32, ns: Seq<i32>)
    requires
        g0.wf(),
        g0.has_node(u),
        ns.no_duplicates(),
        ns.len() > 0,
        forall|n: i32| ns.contains(n) ==> g0.adjacent(u, n),
        detaching(g0, g, u, ns),
    ensures
        g.has_node(ns[0]),
        g.weights.dom().contains(edge_key(u, ns[0])),
        detaching(g0, g.unlink(ns[0], u).drop_key(edge_key(u, ns[0])), u, ns.drop_first()),
        g.unlink(ns[0], u).drop_key(edge_key(u, ns[0])).edges.len() == g.edges.len() - 1,
        ns.drop_first().no_duplicates(),
        forall|n: i32| ns.drop_first().contains(n) ==> g0.adjacent(u, n),
{
    let n = ns[0];
    let key = edge_key(u, n);
    let rest = ns.drop_first();
    assert(ns.contains(n));
    assert(g0.adjacent(u, n));
    assert(g0.adjacent(n, u));
    assert(g0.adjacent(key.0, key.1));
    assert(g0.weights.dom().contains((key.0, key.1)));
    assert(g.weights.dom().contains(key));
    assert forall|a: i32| rest.contains(a) <==> ns.contains(a) && a != n by {
        if rest.contains(a) {
            let i = choose|i: int| 0 <= i < rest.len() && rest[i] == a;
            assert(ns[i + 1] == a);
        }
        if ns.contains(a) && a != n {
            let i = choose|i: int| 0 <= i < ns.len() && ns[i] == a;
            assert(rest[i - 1] == a);
        }
    }
    let g1 = g.unlink(n, u);
    lemma_unlink(g, n, u);
    let g2 = g1.drop_key(key);
    lemma_drop_key(g1, key);
    assert forall|a: i32, b: i32| #[trigger]
        g2.adjacent(a, b) <==> g0.adjacent(a, b) && !(b == u && g0.adjacent(u, a)
            && !rest.contains(a)) by {
        assert(g2.adjacent(a, b) <==> g1.adjacent(a, b));
        assert(g1.adjacent(a, b) <==> g.adjacent(a, b) && !(a == n && b == u));
    }
    assert forall|e: (i32, i32)| #[trigger]
        g2.weights.dom().contains(e) <==> g0.weights.dom().contains(e) && !(e.0 == u
            && g0.adjacent(u, e.1) && !rest.contains(e.1)) && !(e.1 == u && g0.adjacent(u, e.0)
            && !rest.contains(e.0)) by {
        if g0.weights.dom().contains(e) {
            assert(g0.weights.dom().contains((e.0, e.1)));
            assert(e.0 <= e.1);
        }
    }
}

/// Removing the edges between `u` and each vertex of `ns` removes exactly
/// those edges, one edge key for each.
pub proof fn lemma_detach(g0: GraphView, g: GraphView, u: i32, ns: Seq<i32>)
    requires
        g0.wf(),
        g0.has_node(u),
        ns.no_duplicates(),
        forall|n: i32| ns.contains(n) ==> g0.adjacent(u, n),
        detaching(g0, g, u, ns),
    ensures
        detaching(g0, g.detach(u, ns), u, Seq::empty()),
        g.detach(u, ns).edges.len() == g.edges.len() - ns.len(),
    decreases ns.len(),
{
    if ns.len() == 0 {
        assert(ns =~= Seq::empty());
    } else {
        lemma_detach_step(g0, g, u, ns);
        lemma_detach(g0, g.unlink(ns[0], u).drop_key(edge_key(u, ns[0])), u, ns.drop_first());
    }
}

/// Removing a vertex keeps the invariant; the vertex goes, together with
/// every edge at it, and nothing else changes.
pub proof fn lemma_remove_node(g: GraphView, u: i32)
    requires
        g.wf(),
    ensures
        g.remove_node(u).wf(),
        !g.remove_node(u).has_node(u),
        g.remove_node(u).adj.dom() == g.adj.dom().remove(u),
        forall|a: i32, b: i32| #[trigger]
            g.remove_node(u).adjacent(a, b) <==> g.adjacent(a, b) && a != u && b != u,
        forall|e: (i32, i32)| #[trigger]
            g.remove_node(u).weights.dom().contains(e) <==> g.weights.dom().contains(e) && e.0 != u
                && e.1 != u,
        forall|e: (i32, i32)| #[trigger]
            g.remove_node(u).weights.dom().contains(e) ==> g.remove_node(u).weights[e]
                == g.weights[e],
        g.has_node(u) ==> g.remove_node(u).nodes.len() == g.nodes.len() - 1,
        g.has_node(u) ==> g.remove_node(u).edges.len() == g.edges.len() - g.adj[u].len(),
        !g.has_node(u) ==> g.remove_node(u) == g,
{
    let r = g.remove_node(u);
    if g.has_node(u) {
        let ns = g.adj[u];
        assert forall|n: i32| ns.contains(n) implies g.adjacent(u, n) by {}
        assert forall|e: (i32, i32)| #[trigger] g.weights.dom().contains(e) implies !(e.0 == u
            && g.adjacent(u, e.1) && !ns.contains(e.1)) && !(e.1 == u && g.adjacent(u, e.0)
            && !ns.contains(e.0)) by {}
        assert(detaching(g, g, u, ns));
        lemma_detach(g, g, u, ns);
        let d = g.detach(u, ns);
        assert(g.nodes.contains(u));
        lemma_swap_removed(d.nodes, u);
        assert(r.adj.dom() =~= g.adj.dom().remove(u));
        let none = Seq::<i32>::empty();
        assert forall|a: i32| !none.contains(a) by {}
        assert forall|a: i32, b: i32| #[trigger]
            r.adjacent(a, b) <==> g.adjacent(a, b) && a != u && b != u by {
            if a != u {
                assert(r.adjacent(a, b) <==> d.adjacent(a, b));
                assert(d.adjacent(a, b) <==> g.adjacent(a, b) && !(b == u && g.adjacent(u, a)
                    && !none.contains(a)));
                if g.adjacent(a, b) && b == u {
                    assert(g.adjacent(u, a));
                }
            }
        }
        assert forall|e: (i32, i32)| #[trigger]
            r.weights.dom().contains(e) <==> g.weights.dom().contains(e) && e.0 != u && e.1
                != u by {
            assert(r.weights.dom().contains(e) <==> d.weights.dom().contains(e));
            if g.weights.dom().contains(e) {
                assert(g.weights.dom().contains((e.0, e.1)));
                assert(g.adjacent(e.0, e.1));
                assert(g.adjacent(e.1, e.0));
            }
        }
        assert forall|a: i32| #[trigger] r.nodes.contains(a) <==> r.adj.dom().contains(a) by {
            assert(g.nodes.contains(a) <==> g.adj.dom().contains(a));
        }
        assert forall|a: i32| #[trigger]
            r.adj.dom().contains(a) implies r.adj[a].no_duplicates() by {
            assert(d.adj.dom().contains(a));
        }
        assert(r.indexed());
        assert forall|a: i32, b: i32| #[trigger] r.adjacent(a, b) implies r.adjacent(b, a) by {
            assert(g.adjacent(b, a));
        }
        assert forall|a: i32, b: i32| #[trigger] r.weights.dom().contains((a, b)) implies a <= b
            && r.adjacent(a, b) by {
            assert(g.weights.dom().contains((a, b)));
            assert(g.adjacent(a, b));
        }
        assert forall|a: i32, b: i32|
            a <= b && #[trigger] r.adjacent(a, b) implies r.weights.dom().contains((a, b)) by {
            assert(g.adjacent(a, b));
            assert(g.weights.dom().contains((a, b)));
        }
    } else {
        assert(g.adj.dom().remove(u) =~= g.adj.dom());
        assert forall|a: i32, b: i32| #[trigger]
            g.adjacent(a, b) implies a != u && b != u by {
            assert(g.adjacent(b, a));
        }
        assert forall|e: (i32, i32)| #[trigger] g.weights.dom().contains(e) implies e.0 != u
            && e.1 != u by {
            assert(g.weights.dom().contains((e.0, e.1)));
            assert(g.adjacent(e.0, e.1));
            assert(g.adjacent(e.1, e.0));
        }
    }
}

/// Under the invariant an edge exists exactly when its endpoints list each
/// other, and both endpoints are vertices.
pub proof fn lemma_edge_adjacent(g: GraphView, u: i32, v: i32)
    requires
        g.wf(),
    ensures
        g.has_edge(u, v) <==> g.adjacent(u, v),
        g.adjacent(u, v) <==> g.adjacent(v, u),
        g.adjacent(u, v) ==> g.has_node(u) && g.has_node(v),
{
    let key = edge_key(u, v);
    if g.adjacent(u, v) {
        assert(g.adjacent(v, u));
        assert(g.adjacent(key.0, key.1));
        assert(g.weights.dom().contains((key.0, key.1)));
    }
    if g.adjacent(v, u) {
        assert(g.adjacent(u, v));
    }
    if g.has_edge(u, v) {
        assert(g.weights.dom().contains((key.0, key.1)));
        assert(g.adjacent(key.0, key.1));
        assert(g.adjacent(key.1, key.0));
    }
}

/// Moving the edge between `x` and `v` over to `u` keeps the invariant and
/// the vertices; `x` stops being a neighbor of `v` and is a neighbor of
/// `u` afterwards. One edge key goes where `u` and `x` were neighbors
/// before.
pub proof fn lemma_rehome_one(g: GraphView, u: i32, v: i32, x: i32, w: i128)
    requires
        g.wf(),
        g.has_node(u),
        g.adjacent(v, x),
    ensures
        g.rehome_one(u, v, x, w).wf(),
        g.rehome_one(u, v, x, w).nodes == g.nodes,
        g.rehome_one(u, v, x, w).adj.dom() == g.adj.dom(),
        forall|a: i32, b: i32| #[trigger]
            g.rehome_one(u, v, x, w).adjacent(a, b) <==> (g.adjacent(a, b) && !(a == x && b == v)
                && !(a == v && b == x)) || (a == x && b == u) || (a == u && b == x),
        g.rehome_one(u, v, x, w).weights == g.weights.remove(edge_key(x, v)).insert(
            edge_key(x, u),
            w,
        ),
        g.rehome_one(u, v, x, w).edges.len() == g.edges.len() - if g.adjacent(u, x) && u != v {
            1int
        } else {
            0int
        },
        g.remove_edge(x, v).has_edge(x, u) <==> g.adjacent(u, x) && u != v,
{
    lemma_edge_adjacent(g, v, x);
    lemma_edge_adjacent(g, x, v);
    lemma_edge_adjacent(g, u, x);
    let g1 = g.remove_edge(x, v);
    lemma_remove_edge(g, x, v);
    lemma_edge_adjacent(g1, x, u);
    lemma_edge_adjacent(g1, u, x);
    assert(g1.adjacent(x, u) <==> g.adjacent(x, u) && u != v);
    let r = g.rehome_one(u, v, x, w);
    if g1.has_edge(x, u) {
        lemma_set_weight(g1, x, u, w);
        assert forall|a: i32, b: i32| #[trigger]
            r.adjacent(a, b) <==> (g.adjacent(a, b) && !(a == x && b == v) && !(a == v && b == x))
                || (a == x && b == u) || (a == u && b == x) by {
            assert(r.adjacent(a, b) <==> g1.adjacent(a, b));
        }
    } else {
        lemma_add_edge(g1, x, u, w);
        lemma_add_node(g1, x);
        lemma_add_node(g1.add_node(x), u);
        assert(g1.add_node(x) == g1);
        assert(g1.add_node(x).add_node(u) == g1);
        assert(r.adj.dom() =~= g.adj.dom());
        assert(r.nodes.len() == g.nodes.len());
        let g2 = g1.link(x, u);
        lemma_link(g1, x, u);
        let g3 = g2.link(u, x);
        lemma_link(g2, u, x);
        assert(r == g3.put_key(edge_key(x, u), w));
        assert(r.nodes == g.nodes);
    }
}

/// The order sequences are as long as the vertex set and the edge-key set
/// are large.
pub proof fn lemma_cardinality(g: GraphView)
    requires
        g.indexed(),
    ensures
        g.adj.dom().finite(),
        g.weights.dom().finite(),
        g.nodes.len() == g.adj.dom().len(),
        g.edges.len() == g.weights.dom().len(),
{
    assert(g.adj.dom() =~= g.nodes.to_set());
    assert(g.weights.dom() =~= g.edges.to_set());
    g.nodes.unique_seq_to_set();
    g.edges.unique_seq_to_set();
    vstd::seq_lib::seq_to_set_is_finite(g.nodes);
    vstd::seq_lib::seq_to_set_is_finite(g.edges);
}

} // verus!
