//! Breadth-first and depth-first visitors, and the searches built on them.

use crate::graph::Graph;
use crate::model::{lemma_push_contains, GraphView};
use crate::model_proofs::lemma_edge_adjacent;
use std::collections::HashSet;
use std::collections::VecDeque;
use vstd::prelude::*;

verus! {

/// The vertices of `ns` that are not in `seen`, in the order of `ns`.
pub open spec fn unseen(ns: Seq<i32>, seen: Set<i32>) -> Seq<i32>
    decreases ns.len(),
{
    if ns.len() == 0 {
        Seq::empty()
    } else if seen.contains(ns.last()) {
        unseen(ns.drop_last(), seen)
    } else {
        unseen(ns.drop_last(), seen).push(ns.last())
    }
}

/// One pull on a visitor: pending vertices are taken, from the front of a
/// queue or from the top of a stack, until one is new. That one is marked as
/// seen and given out, and those of its neighbors that are not marked join
/// the pending ones, in neighbor order. The result is what is given out,
/// what is pending afterwards, and what is marked afterwards.
pub open spec fn take_next(g: GraphView, pending: Seq<i32>, seen: Set<i32>, lifo: bool) -> (
    Option<i32>,
    Seq<i32>,
    Set<i32>,
)
    decreases pending.len(),
{
    if pending.len() == 0 {
        (None, pending, seen)
    } else {
        let v = if lifo {
            pending.last()
        } else {
            pending.first()
        };
        let rest = if lifo {
            pending.drop_last()
        } else {
            pending.drop_first()
        };
        if seen.contains(v) {
            take_next(g, rest, seen, lifo)
        } else {
            let marked = seen.insert(v);
            let found = if g.has_node(v) {
                unseen(g.adj[v], marked)
            } else {
                Seq::empty()
            };
            (Some(v), rest + found, marked)
        }
    }
}

/// The vertices given out by repeated pulls, after those in `path`, up to
/// and including `end`; or all of them when there is no `end`. `None` when
/// there is an `end` and the visitor runs dry before giving it out. `fuel`
/// bounds the number of pulls.
pub open spec fn visit_path(
    g: GraphView,
    pending: Seq<i32>,
    seen: Set<i32>,
    lifo: bool,
    end: Option<i32>,
    path: Seq<i32>,
    fuel: nat,
) -> Option<Seq<i32>>
    decreases fuel,
{
    if fuel == 0 {
        None
    } else {
        let step = take_next(g, pending, seen, lifo);
        match step.0 {
            None => if end.is_some() {
                None
            } else {
                Some(path)
            },
            Some(v) => if end == Some(v) {
                Some(path.push(v))
            } else {
                visit_path(g, step.1, step.2, lifo, end, path.push(v), (fuel - 1) as nat)
            },
        }
    }
}

/// The vertices that a fresh visitor started at `start` gives out, up to and
/// including `end`; or all of them when there is no `end`. `None` when there
/// is an `end` and the visitor runs dry before giving it out.
pub open spec fn visiting_order(g: GraphView, start: i32, end: Option<i32>, lifo: bool) -> Option<
    Seq<i32>,
> {
    visit_path(
        g,
        seq![start],
        Set::empty(),
        lifo,
        end,
        Seq::empty(),
        budget(g, start, Set::empty()),
    )
}

/// The vertices that a visitor started at `origin` can give out: the
/// vertices of the graph, or `origin` alone if it is not one of them.
pub open spec fn scope(g: GraphView, origin: i32) -> Set<i32> {
    if g.has_node(origin) {
        g.adj.dom()
    } else {
        set![origin]
    }
}

/// The pending and the marked vertices of a visitor are in its scope, and
/// `visited` lists the marked vertices once each.
pub open spec fn visitor_wf(
    g: GraphView,
    pending: Seq<i32>,
    seen: Set<i32>,
    origin: i32,
    visited: Seq<i32>,
) -> bool {
    &&& g.wf()
    &&& forall|i: int| 0 <= i < pending.len() ==> scope(g, origin).contains(#[trigger] pending[i])
    &&& forall|x: i32| #[trigger] seen.contains(x) ==> scope(g, origin).contains(x)
    &&& visited.no_duplicates()
    &&& forall|x: i32| #[trigger] visited.contains(x) <==> seen.contains(x)
}

/// The number of pulls that can still give out a vertex, and one more.
pub open spec fn budget(g: GraphView, origin: i32, seen: Set<i32>) -> nat {
    (scope(g, origin).difference(seen).len() + 1) as nat
}

/// The scope of a visitor is finite, and as large as the graph unless the
/// origin is outside the graph.
pub proof fn lemma_scope(g: GraphView, origin: i32)
    requires
        g.wf(),
    ensures
        scope(g, origin).finite(),
        g.has_node(origin) ==> scope(g, origin).len() == g.nodes.len(),
        !g.has_node(origin) ==> scope(g, origin).len() == 1,
{
    assert(g.adj.dom() =~= g.nodes.to_set());
    g.nodes.unique_seq_to_set();
    vstd::seq_lib::seq_to_set_is_finite(g.nodes);
}

/// Every element of `unseen(ns, seen)` is an element of `ns`.
pub proof fn lemma_unseen_members(ns: Seq<i32>, seen: Set<i32>)
    ensures
        forall|i: int|
            0 <= i < unseen(ns, seen).len() ==> ns.contains(#[trigger] unseen(ns, seen)[i]),
    decreases ns.len(),
{
    if ns.len() > 0 {
        lemma_unseen_members(ns.drop_last(), seen);
        let rest = unseen(ns.drop_last(), seen);
        assert forall|i: int| 0 <= i < unseen(ns, seen).len() implies ns.contains(
            #[trigger] unseen(ns, seen)[i],
        ) by {
            if i < rest.len() {
                let x = rest[i];
                assert(ns.drop_last().contains(x));
                let j = choose|j: int| 0 <= j < ns.drop_last().len() && ns.drop_last()[j] == x;
                assert(ns[j] == x);
            } else {
                assert(ns[ns.len() - 1] == ns.last());
            }
        }
    }
}

/// A pull keeps a visitor well-formed. What it gives out is in scope and
/// was not marked before, and is the one vertex that it marks.
pub proof fn lemma_take_next(
    g: GraphView,
    pending: Seq<i32>,
    seen: Set<i32>,
    origin: i32,
    visited: Seq<i32>,
    lifo: bool,
)
    requires
        visitor_wf(g, pending, seen, origin, visited),
    ensures
        match take_next(g, pending, seen, lifo).0 {
            Some(v) => {
                &&& !seen.contains(v)
                &&& scope(g, origin).contains(v)
                &&& take_next(g, pending, seen, lifo).2 == seen.insert(v)
                &&& visitor_wf(
                    g,
                    take_next(g, pending, seen, lifo).1,
                    take_next(g, pending, seen, lifo).2,
                    origin,
                    visited.push(v),
                )
            },
            None => {
                &&& take_next(g, pending, seen, lifo).2 == seen
                &&& visitor_wf(g, take_next(g, pending, seen, lifo).1, seen, origin, visited)
            },
        },
    decreases pending.len(),
{
    if pending.len() > 0 {
        let v = if lifo {
            pending.last()
        } else {
            pending.first()
        };
        let rest = if lifo {
            pending.drop_last()
        } else {
            pending.drop_first()
        };
        assert(scope(g, origin).contains(v));
        assert forall|i: int| 0 <= i < rest.len() implies scope(g, origin).contains(
            #[trigger] rest[i],
        ) by {
            if lifo {
                assert(rest[i] == pending[i]);
            } else {
                assert(rest[i] == pending[i + 1]);
            }
        }
        if seen.contains(v) {
            lemma_take_next(g, rest, seen, origin, visited, lifo);
        } else {
            let marked = seen.insert(v);
            let found = if g.has_node(v) {
                unseen(g.adj[v], marked)
            } else {
                Seq::empty()
            };
            let after = rest + found;
            if g.has_node(v) {
                lemma_unseen_members(g.adj[v], marked);
            }
            assert forall|i: int| 0 <= i < after.len() implies scope(g, origin).contains(
                #[trigger] after[i],
            ) by {
                if i < rest.len() {
                    assert(after[i] == rest[i]);
                } else {
                    let x = found[i - rest.len()];
                    assert(after[i] == x);
                    assert(g.adj[v].contains(x));
                    assert(g.adjacent(v, x));
                    lemma_edge_adjacent(g, v, x);
                }
            }
            lemma_push_contains(visited, v);
            assert(!visited.contains(v));
        }
    }
}

/// A visitor never gives out a vertex twice, and in a graph that is not
/// empty it never gives out more vertices than the graph has.
pub proof fn lemma_visited_bound(
    g: GraphView,
    pending: Seq<i32>,
    seen: Set<i32>,
    origin: i32,
    visited: Seq<i32>,
)
    requires
        visitor_wf(g, pending, seen, origin, visited),
    ensures
        visited.no_duplicates(),
        visited.len() <= scope(g, origin).len(),
        g.nodes.len() >= 1 ==> visited.len() <= g.nodes.len(),
{
    lemma_scope(g, origin);
    visited.unique_seq_to_set();
    assert(visited.to_set().subset_of(scope(g, origin)));
    vstd::set_lib::lemma_len_subset(visited.to_set(), scope(g, origin));
}

/// A breadth-first visitor: the pending vertices wait in a queue.
pub struct Bfs<'a> {
    pub queue: VecDeque<i32>,
    pub seen: HashSet<i32>,
    pub graph: &'a Graph,
    /// The vertex that the visitor was started at.
    pub origin: Ghost<i32>,
    /// The vertices given out so far, in order.
    pub visited: Ghost<Seq<i32>>,
}

impl<'a> Bfs<'a> {
    /// The graph is well-formed, and so is the state of the visitor.
    pub open spec fn wf(&self) -> bool {
        &&& self.graph.wf()
        &&& visitor_wf(self.graph@, self.queue@, self.seen@, self.origin@, self.visited@)
    }

    /// The visitor has given out no vertex twice, and on a graph that is not
    /// empty it has given out no more vertices than the graph has.
    pub proof fn lemma_yields(&self)
        requires
            self.wf(),
        ensures
            self.visited@.no_duplicates(),
            self.graph@.nodes.len() >= 1 ==> self.visited@.len() <= self.graph@.nodes.len(),
            self.graph.wf() ==> self.graph@.nodes.len() == self.graph.spec_order(),
    {
        lemma_visited_bound(self.graph@, self.queue@, self.seen@, self.origin@, self.visited@);
    }

    /// A visitor that starts at `v`, with nothing given out yet.
    pub fn new(v: &'a i32, g: &'a Graph) -> (visitor: Self)
        requires
            g.wf(),
        ensures
            visitor.wf(),
            visitor.graph == g,
            visitor.origin@ == *v,
            visitor.queue@ == seq![*v],
            visitor.seen@ == Set::<i32>::empty(),
            visitor.visited@ == Seq::<i32>::empty(),
    {
        broadcast use vstd::std_specs::hash::group_hash_axioms;

        let mut queue = VecDeque::new();
        queue.push_back(*v);
        let visitor = Bfs {
            queue,
            seen: HashSet::new(),
            graph: g,
            origin: Ghost(*v),
            visited: Ghost(Seq::empty()),
        };
        proof {
            assert(visitor.queue@ =~= seq![*v]);
        }
        visitor
    }

    /// Gives out the next vertex that has not been given out before, if the
    /// pending vertices hold one.
    pub fn next(&mut self) -> (r: Option<i32>)
        requires
            old(self).wf(),
        ensures
            final(self).wf(),
            final(self).graph == old(self).graph,
            final(self).origin == old(self).origin,
            (r, final(self).queue@, final(self).seen@) == take_next(
                old(self).graph@,
                old(self).queue@,
                old(self).seen@,
                false,
            ),
            match r {
                Some(v) => {
                    &&& !old(self).seen@.contains(v)
                    &&& final(self).seen@ == old(self).seen@.insert(v)
                    &&& scope(old(self).graph@, old(self).origin@).contains(v)
                    &&& final(self).visited@ == old(self).visited@.push(v)
                },
                None => {
                    &&& final(self).seen@ == old(self).seen@
                    &&& final(self).visited@ == old(self).visited@
                },
            },
    {
        broadcast use vstd::std_specs::hash::group_hash_axioms;

        let ghost g = self.graph@;
        let ghost pending0 = self.queue@;
        let ghost seen0 = self.seen@;
        proof {
            lemma_take_next(g, pending0, seen0, self.origin@, self.visited@, false);
        }
        loop
            invariant
                self.graph == old(self).graph,
                self.origin == old(self).origin,
                self.visited == old(self).visited,
                self.seen@ == seen0,
                seen0 == old(self).seen@,
                pending0 == old(self).queue@,
                g == self.graph@,
                self.graph.wf(),
                take_next(g, self.queue@, seen0, false) == take_next(g, pending0, seen0, false),
                match take_next(g, pending0, seen0, false).0 {
                    Some(v) => {
                        &&& !seen0.contains(v)
                        &&& scope(g, self.origin@).contains(v)
                        &&& take_next(g, pending0, seen0, false).2 == seen0.insert(v)
                        &&& visitor_wf(
                            g,
                            take_next(g, pending0, seen0, false).1,
                            take_next(g, pending0, seen0, false).2,
                            self.origin@,
                            self.visited@.push(v),
                        )
                    },
                    None => {
                        &&& take_next(g, pending0, seen0, false).2 == seen0
                        &&& visitor_wf(
                            g,
                            take_next(g, pending0, seen0, false).1,
                            seen0,
                            self.origin@,
                            self.visited@,
                        )
                    },
                },
            decreases self.queue@.len(),
        {
            let ghost before = self.queue@;
            let v = match self.queue.pop_front() {
                Some(v) => v,
                None => { return None; },
            };
            let ghost rest = self.queue@;
            proof {
                assert(rest =~= if false {
                    before.drop_last()
                } else {
                    before.drop_first()
                });
            }
            if !self.seen.contains(&v) {
                self.seen.insert(v);
                let ghost marked = self.seen@;
                match self.graph.neighbors(&v) {
                    Some(neighbors) => {
                        let mut j: usize = 0;
                        while j < neighbors.len()
                            invariant
                                0 <= j <= neighbors.len(),
                                self.graph == old(self).graph,
                                self.origin == old(self).origin,
                                self.visited == old(self).visited,
                                self.seen@ == marked,
                                self.queue@ == rest + unseen(neighbors@.take(j as int), marked),
                            decreases neighbors.len() - j,
                        {
                            let u = neighbors[j];
                            proof {
                                let upto = neighbors@.take(j + 1);
                                assert(upto.drop_last() =~= neighbors@.take(j as int));
                                assert(upto.last() == u);
                                assert((rest + unseen(neighbors@.take(j as int), marked)).push(u)
                                    =~= rest + unseen(neighbors@.take(j as int), marked).push(u));
                            }
                            if !self.seen.contains(&u) {
                                self.queue.push_back(u);
                            }
                            j += 1;
                        }
                        proof {
                            assert(neighbors@.take(neighbors@.len() as int) =~= neighbors@);
                        }
                    },
                    None => {
                        proof {
                            assert(rest + Seq::<i32>::empty() =~= rest);
                        }
                    },
                }
                proof {
                    self.visited = Ghost(self.visited@.push(v));
                }
                return Some(v);
            }
        }
    }
}

/// The vertices that a breadth-first visitor started at `start` gives out,
/// up to and including `end`: the whole visiting order so far, not a route.
/// `None` if the visitor runs dry before it gives out `end`.
pub fn bfs(start: &i32, end: &i32, g: &Graph) -> (r: Option<Vec<i32>>)
    requires
        g.wf(),
    ensures
        r.is_some() == visiting_order(g@, *start, Some(*end), false).is_some(),
        r.is_some() ==> Some(r.unwrap()@) == visiting_order(g@, *start, Some(*end), false),
        r.is_some() ==> r.unwrap()@.no_duplicates() && r.unwrap()@.len() >= 1
            && r.unwrap()@.first() == *start && r.unwrap()@.last() == *end && r.unwrap()@.len()
            <= g@.nodes.len() + 1,
        r.is_some() && g@.nodes.len() >= 1 ==> r.unwrap()@.len() <= g@.nodes.len(),
{
    broadcast use vstd::std_specs::hash::group_hash_axioms;

    let mut bfs_visitor = Bfs::new(start, g);
    let mut path: Vec<i32> = Vec::new();
    let ghost goal = visiting_order(g@, *start, Some(*end), false);
    proof {
        lemma_scope(g@, *start);
    }
    loop
        invariant
            bfs_visitor.wf(),
            bfs_visitor.graph == g,
            bfs_visitor.origin@ == *start,
            path@ == bfs_visitor.visited@,
            path@.len() == 0 ==> bfs_visitor.queue@ == seq![*start] && bfs_visitor.seen@
                == Set::<i32>::empty(),
            path@.len() > 0 ==> path@[0] == *start,
            scope(g@, *start).finite(),
            visit_path(
                g@,
                bfs_visitor.queue@,
                bfs_visitor.seen@,
                false,
                Some(*end),
                path@,
                budget(g@, *start, bfs_visitor.seen@),
            ) == goal,
            goal == visiting_order(g@, *start, Some(*end), false),
        decreases scope(g@, *start).difference(bfs_visitor.seen@).len(),
    {
        let ghost seen = bfs_visitor.seen@;
        let v = match bfs_visitor.next() {
            Some(v) => v,
            None => { return None; },
        };
        path.push(v);
        proof {
            let left = scope(g@, *start).difference(seen);
            assert(left.contains(v));
            assert(scope(g@, *start).difference(bfs_visitor.seen@) =~= left.remove(v));
            lemma_visited_bound(
                g@,
                bfs_visitor.queue@,
                bfs_visitor.seen@,
                *start,
                bfs_visitor.visited@,
            );
            lemma_scope(g@, *start);
        }
        if v == *end {
            return Some(path);
        }
    }
}

/// A depth-first visitor: the pending vertices wait on a stack.
pub struct Dfs<'a> {
    pub stack: Vec<i32>,
    pub seen: HashSet<i32>,
    pub graph: &'a Graph,
    /// The vertex that the visitor was started at.
    pub origin: Ghost<i32>,
    /// The vertices given out so far, in order.
    pub visited: Ghost<Seq<i32>>,
}

impl<'a> Dfs<'a> {
    /// The graph is well-formed, and so is the state of the visitor.
    pub open spec fn wf(&self) -> bool {
        &&& self.graph.wf()
        &&& visitor_wf(self.graph@, self.stack@, self.seen@, self.origin@, self.visited@)
    }

    /// The visitor has given out no vertex twice, and on a graph that is not
    /// empty it has given out no more vertices than the graph has.
    pub proof fn lemma_yields(&self)
        requires
            self.wf(),
        ensures
            self.visited@.no_duplicates(),
            self.graph@.nodes.len() >= 1 ==> self.visited@.len() <= self.graph@.nodes.len(),
            self.graph.wf() ==> self.graph@.nodes.len() == self.graph.spec_order(),
    {
        lemma_visited_bound(self.graph@, self.stack@, self.seen@, self.origin@, self.visited@);
    }

    /// A visitor that starts at `v`, with nothing given out yet.
    pub fn new(v: &'a i32, g: &'a Graph) -> (visitor: Self)
        requires
            g.wf(),
        ensures
            visitor.wf(),
            visitor.graph == g,
            visitor.origin@ == *v,
            visitor.stack@ == seq![*v],
            visitor.seen@ == Set::<i32>::empty(),
            visitor.visited@ == Seq::<i32>::empty(),
    {
        broadcast use vstd::std_specs::hash::group_hash_axioms;

        let mut stack = Vec::new();
        stack.push(*v);
        let visitor = Dfs {
            stack,
            seen: HashSet::new(),
            graph: g,
            origin: Ghost(*v),
            visited: Ghost(Seq::empty()),
        };
        proof {
            assert(visitor.stack@ =~= seq![*v]);
        }
        visitor
    }

    /// Gives out the next vertex that has not been given out before, if the
    /// pending vertices hold one.
    pub fn next(&mut self) -> (r: Option<i32>)
        requires
            old(self).wf(),
        ensures
            final(self).wf(),
            final(self).graph == old(self).graph,
            final(self).origin == old(self).origin,
            (r, final(self).stack@, final(self).seen@) == take_next(
                old(self).graph@,
                old(self).stack@,
                old(self).seen@,
                true,
            ),
            match r {
                Some(v) => {
                    &&& !old(self).seen@.contains(v)
                    &&& final(self).seen@ == old(self).seen@.insert(v)
                    &&& scope(old(self).graph@, old(self).origin@).contains(v)
                    &&& final(self).visited@ == old(self).visited@.push(v)
                },
                None => {
                    &&& final(self).seen@ == old(self).seen@
                    &&& final(self).visited@ == old(self).visited@
                },
            },
    {
        broadcast use vstd::std_specs::hash::group_hash_axioms;

        let ghost g = self.graph@;
        let ghost pending0 = self.stack@;
        let ghost seen0 = self.seen@;
        proof {
            lemma_take_next(g, pending0, seen0, self.origin@, self.visited@, true);
        }
        loop
            invariant
                self.graph == old(self).graph,
                self.origin == old(self).origin,
                self.visited == old(self).visited,
                self.seen@ == seen0,
                seen0 == old(self).seen@,
                pending0 == old(self).stack@,
                g == self.graph@,
                self.graph.wf(),
                take_next(g, self.stack@, seen0, true) == take_next(g, pending0, seen0, true),
                match take_next(g, pending0, seen0, true).0 {
                    Some(v) => {
                        &&& !seen0.contains(v)
                        &&& scope(g, self.origin@).contains(v)
                        &&& take_next(g, pending0, seen0, true).2 == seen0.insert(v)
                        &&& visitor_wf(
                            g,
                            take_next(g, pending0, seen0, true).1,
                            take_next(g, pending0, seen0, true).2,
                            self.origin@,
                            self.visited@.push(v),
                        )
                    },
                    None => {
                        &&& take_next(g, pending0, seen0, true).2 == seen0
                        &&& visitor_wf(
                            g,
                            take_next(g, pending0, seen0, true).1,
                            seen0,
                            self.origin@,
                            self.visited@,
                        )
                    },
                },
            decreases self.stack@.len(),
        {
            let ghost before = self.stack@;
            let v = match self.stack.pop() {
                Some(v) => v,
                None => { return None; },
            };
            let ghost rest = self.stack@;
            proof {
                assert(rest =~= if true {
                    before.drop_last()
                } else {
                    before.drop_first()
                });
            }
            if !self.seen.contains(&v) {
                self.seen.insert(v);
                let ghost marked = self.seen@;
                match self.graph.neighbors(&v) {
                    Some(neighbors) => {
                        let mut j: usize = 0;
                        while j < neighbors.len()
                            invariant
                                0 <= j <= neighbors.len(),
                                self.graph == old(self).graph,
                                self.origin == old(self).origin,
                                self.visited == old(self).visited,
                                self.seen@ == marked,
                                self.stack@ == rest + unseen(neighbors@.take(j as int), marked),
                            decreases neighbors.len() - j,
                        {
                            let u = neighbors[j];
                            proof {
                                let upto = neighbors@.take(j + 1);
                                assert(upto.drop_last() =~= neighbors@.take(j as int));
                                assert(upto.last() == u);
                                assert((rest + unseen(neighbors@.take(j as int), marked)).push(u)
                                    =~= rest + unseen(neighbors@.take(j as int), marked).push(u));
                            }
                            if !self.seen.contains(&u) {
                                self.stack.push(u);
                            }
                            j += 1;
                        }
                        proof {
                            assert(neighbors@.take(neighbors@.len() as int) =~= neighbors@);
                        }
                    },
                    None => {
                        proof {
                            assert(rest + Seq::<i32>::empty() =~= rest);
                        }
                    },
                }
                proof {
                    self.visited = Ghost(self.visited@.push(v));
                }
                return Some(v);
            }
        }
    }
}

/// The vertices that a depth-first visitor started at `start` gives out: up
/// to and including `end` where one is given, all of them otherwise. `None`
/// if `start` is not in the graph, or if the visitor runs dry before it
/// gives out `end`.
pub fn dfs(start: &i32, end: Option<&i32>, g: &Graph) -> (r: Option<Vec<i32>>)
    requires
        g.wf(),
    ensures
        !g@.has_node(*start) ==> r.is_none(),
        g@.has_node(*start) ==> r.is_some() == visiting_order(
            g@,
            *start,
            target(end),
            true,
        ).is_some(),
        g@.has_node(*start) && r.is_some() ==> Some(r.unwrap()@) == visiting_order(
            g@,
            *start,
            target(end),
            true,
        ),
        r.is_some() ==> r.unwrap()@.no_duplicates() && r.unwrap()@.len() <= g@.nodes.len(),
        r.is_some() ==> r.unwrap()@.len() >= 1 && r.unwrap()@.first() == *start,
        r.is_some() && end.is_some() ==> r.unwrap()@.last() == *end.unwrap(),
{
    broadcast use vstd::std_specs::hash::group_hash_axioms;

    if !g.contains_node(start) {
        return None;
    }
    let mut dfs_visitor = Dfs::new(start, g);
    let mut path: Vec<i32> = Vec::new();
    let ghost goal = visiting_order(g@, *start, target(end), true);
    proof {
        lemma_scope(g@, *start);
        lemma_visited_bound(
            g@,
            dfs_visitor.stack@,
            dfs_visitor.seen@,
            *start,
            dfs_visitor.visited@,
        );
    }
    loop
        invariant
            dfs_visitor.wf(),
            dfs_visitor.graph == g,
            dfs_visitor.origin@ == *start,
            g@.has_node(*start),
            path@ == dfs_visitor.visited@,
            path@.len() == 0 ==> dfs_visitor.stack@ == seq![*start] && dfs_visitor.seen@
                == Set::<i32>::empty(),
            path@.len() > 0 ==> path@[0] == *start,
            path@.no_duplicates(),
            path@.len() <= g@.nodes.len(),
            scope(g@, *start).finite(),
            visit_path(
                g@,
                dfs_visitor.stack@,
                dfs_visitor.seen@,
                true,
                target(end),
                path@,
                budget(g@, *start, dfs_visitor.seen@),
            ) == goal,
            goal == visiting_order(g@, *start, target(end), true),
        decreases scope(g@, *start).difference(dfs_visitor.seen@).len(),
    {
        let ghost seen = dfs_visitor.seen@;
        let v = match dfs_visitor.next() {
            Some(v) => v,
            None => {
                if end.is_some() {
                    return None;
                } else {
                    return Some(path);
                }
            },
        };
        path.push(v);
        proof {
            let left = scope(g@, *start).difference(seen);
            assert(left.contains(v));
            assert(scope(g@, *start).difference(dfs_visitor.seen@) =~= left.remove(v));
            lemma_visited_bound(
                g@,
                dfs_visitor.stack@,
                dfs_visitor.seen@,
                *start,
                dfs_visitor.visited@,
            );
            lemma_scope(g@, *start);
        }
        if end.is_some() && v == *end.unwrap() {
            return Some(path);
        }
    }
}

/// The vertex that a search is to stop at, if any.
pub open spec fn target(end: Option<&i32>) -> Option<i32> {
    match end {
        Some(e) => Some(*e),
        None => None,
    }
}

} // verus!
