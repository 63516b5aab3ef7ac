//! The graph and the path engine: adjacency index construction, the
//! relaxation drain loop, and path reconstruction.

use std::collections::HashMap;

use vstd::prelude::*;

use crate::model::edges_from;
use crate::model::has_pair;
use crate::model::is_walk;
use crate::model::lemma_edge_in_edges_from;
use crate::model::lemma_edges_from_len;
use crate::model::lemma_edges_from_member;
use crate::model::lemma_out_edge_facts;
use crate::model::nonneg_edges;
use crate::model::walk_cost;
use crate::queue::cost_pot;
use crate::queue::WorkQueue;
use crate::routing::RoutingInfo;
use crate::Cost;
use crate::Edge;
use crate::Node;

verus! {

/// Termination potential of one `(f, t)` pair: one more than the cost
/// recorded for predecessor `f` at node `t`, or the ceiling `0x8000_0001`
/// (one past the largest cost a 32-bit task can carry) when nothing is
/// recorded yet. A relaxation that improves the pair strictly lowers this.
spec fn pair_pot(src: Map<Node, RoutingInfo>, f: Node, t: Node) -> nat {
    if src.contains_key(t) && src[t].paths@.contains_key(f) {
        let c = src[t].paths@[f];
        if c >= 0 {
            (c + 1) as nat
        } else {
            0
        }
    } else {
        0x8000_0001
    }
}

/// Sum of the pair potentials over all edge occurrences of the list.
spec fn relax_pot(src: Map<Node, RoutingInfo>, edges: Seq<Edge>) -> nat
    decreases edges.len(),
{
    if edges.len() == 0 {
        0
    } else {
        relax_pot(src, edges.drop_last()) + pair_pot(src, edges.last().0, edges.last().1)
    }
}

/// When the routing tables agree on every pair but `(f0, t0)`, the summed
/// potential moves only by that pair's change, once per occurrence of the
/// pair in the edge list.
proof fn lemma_relax_pot_update(
    src1: Map<Node, RoutingInfo>,
    src2: Map<Node, RoutingInfo>,
    f0: Node,
    t0: Node,
    edges: Seq<Edge>,
)
    requires
        forall|f: Node, t: Node|
            (f, t) != (f0, t0) ==> #[trigger] pair_pot(src1, f, t) == pair_pot(src2, f, t),
        pair_pot(src2, f0, t0) <= pair_pot(src1, f0, t0),
    ensures
        relax_pot(src2, edges) <= relax_pot(src1, edges),
        has_pair(edges, f0, t0) ==> relax_pot(src2, edges) + pair_pot(src1, f0, t0)
            <= relax_pot(src1, edges) + pair_pot(src2, f0, t0),
    decreases edges.len(),
{
    if edges.len() > 0 {
        lemma_relax_pot_update(src1, src2, f0, t0, edges.drop_last());
        let e = edges.last();
        if has_pair(edges, f0, t0) && !(e.0 == f0 && e.1 == t0) {
            let i = choose|i: int|
                0 <= i < edges.len() && (#[trigger] edges[i]).0 == f0 && edges[i].1 == t0;
            assert(edges.drop_last()[i] == edges[i]);
            assert(has_pair(edges.drop_last(), f0, t0));
        }
    }
}

/// The drain loop's measure goes down: the pop pays `c`, the pushes add at
/// most `e` ceiling units to the queue potential, and the relaxation
/// potential, weighted by `(e + 1)` ceilings, strictly drops.
proof fn lemma_drain_pot_dec(q1: nat, q2: nat, p1: nat, p2: nat, e: nat, c: nat)
    requires
        c >= 1,
        q2 + c <= q1 + e * 0x8000_0001,
        p2 < p1,
    ensures
        q2 + (e + 1) * 0x8000_0001 * p2 < q1 + (e + 1) * 0x8000_0001 * p1,
{
    let b: nat = 0x8000_0001;
    assert((e + 1) * b * p2 + (e + 1) * b <= (e + 1) * b * p1) by (nonlinear_arith)
        requires
            p2 < p1,
            b == 0x8000_0001,
    ;
    assert((e + 1) * b == e * b + b) by (nonlinear_arith);
}

/// One edge is relaxed, or its relaxation is still pending in the queue `q`:
/// when the edge's source has a routing entry and following the edge from it
/// stays within 32-bit range, either the destination's entry is already at
/// most that total, or a task at most that cheap is pending for the pair.
pub open spec fn edge_ok(src: Map<Node, RoutingInfo>, q: Map<(Node, Node), Cost>, e: Edge) -> bool {
    src.contains_key(e.0) && src[e.0].minimal_cost + e.2 <= i32::MAX ==> {
        ||| src.contains_key(e.1) && src[e.1].minimal_cost <= src[e.0].minimal_cost + e.2
        ||| q.contains_key((e.0, e.1)) && q[(e.0, e.1)] <= src[e.0].minimal_cost + e.2
    }
}

/// One edge out of `start` is accounted for, or its seed task is still
/// pending: the destination's recorded cost is at most the edge cost.
pub open spec fn seed_ok(
    src: Map<Node, RoutingInfo>,
    q: Map<(Node, Node), Cost>,
    e: Edge,
    start: Node,
) -> bool {
    e.0 == start ==> {
        ||| src.contains_key(e.1) && src[e.1].minimal_cost <= e.2
        ||| q.contains_key((start, e.1)) && q[(start, e.1)] <= e.2
    }
}

/// A pending task's cost certificate: the task rides a real edge of the
/// graph, costs at least that edge, and — unless it is a seed out of `start`
/// — at least the edge's cost on top of its source's recorded minimum.
spec fn task_ok(
    src: Map<Node, RoutingInfo>,
    edges: Seq<Edge>,
    kk: (Node, Node),
    c: Cost,
    start: Node,
) -> bool {
    exists|i: int|
        0 <= i < edges.len() && (#[trigger] edges[i]).0 == kk.0 && edges[i].1 == kk.1 && c
            >= edges[i].2 && (kk.0 != start ==> src.contains_key(kk.0) && c
            >= src[kk.0].minimal_cost + edges[i].2)
}

/// A routing entry's predecessor link is backed by a real edge: the recorded
/// minimum is at least that edge's cost, and — unless the predecessor is the
/// query's start — at least the edge's cost on top of the predecessor's own
/// recorded minimum. Together with `settled` and `seeded` this pins the
/// recorded minimum to the exact cost of the predecessor-link path.
pub open spec fn link_ok(
    src: Map<Node, RoutingInfo>,
    edges: Seq<Edge>,
    n: Node,
    start: Node,
) -> bool {
    src.contains_key(n) ==> {
        let p = src[n].minimal_from;
        exists|i: int|
            0 <= i < edges.len() && (#[trigger] edges[i]).0 == p && edges[i].1 == n
                && src[n].minimal_cost >= edges[i].2 && (p != start ==> src.contains_key(p)
                && src[n].minimal_cost >= src[p].minimal_cost + edges[i].2)
    }
}

/// Node `a` strictly precedes node `b` in the predecessor order: a lower
/// recorded minimum, or an equal one with an older stamp in `ord`.
pub open spec fn lex_before(
    src: Map<Node, RoutingInfo>,
    ord: Map<Node, nat>,
    a: Node,
    b: Node,
) -> bool {
    src[a].minimal_cost < src[b].minimal_cost || (src[a].minimal_cost == src[b].minimal_cost
        && ord[a] < ord[b])
}

/// Predecessor links are well founded for a query from `start`: every link
/// leads straight to `start`, or to an entry that strictly precedes its own.
/// Walking the links from any entry therefore never revisits a node, so it
/// reaches `start` in at most as many steps as the table has entries.
pub open spec fn lex_links(src: Map<Node, RoutingInfo>, ord: Map<Node, nat>, start: Node) -> bool {
    forall|n: Node|
        #[trigger] src.contains_key(n) ==> {
            let p = src[n].minimal_from;
            p == start || (src.contains_key(p) && lex_before(src, ord, p, n))
        }
}

/// A weighted directed graph together with the routing table of the queries
/// run against it so far. The adjacency index is immutable after
/// construction; the routing table is retained from one query to the next.
pub struct Graph {
    pub destinations_list: HashMap<Node, Vec<(Node, Cost)>>,
    pub sources_list: HashMap<Node, RoutingInfo>,
    pub edges: Ghost<Seq<Edge>>,
}

impl Graph {
    /// The adjacency index stores exactly the outgoing edges of each node,
    /// in edge-list order, and omits nodes with no outgoing edges.
    pub open spec fn adjacency_matches(&self) -> bool {
        &&& forall|n: Node|
            self.destinations_list@.contains_key(n) <==> edges_from(self.edges@, n).len() != 0
        &&& forall|n: Node|
            #[trigger] self.destinations_list@.contains_key(n)
                ==> self.destinations_list@[n]@ == edges_from(self.edges@, n)
    }

    /// A routing entry records only non-negative costs, each via a
    /// predecessor that really has an edge to the entry's node.
    pub open spec fn entry_ok(&self, n: Node) -> bool {
        let r = self.sources_list@[n];
        &&& r.wf()
        &&& forall|p: Node|
            #[trigger] r.paths@.contains_key(p) ==> r.paths@[p] >= 0 && has_pair(
                self.edges@,
                p,
                n,
            )
    }

    pub open spec fn wf(&self) -> bool {
        &&& self.adjacency_matches()
        &&& forall|n: Node| #[trigger] self.sources_list@.contains_key(n) ==> self.entry_ok(n)
    }

    /// The routing table is a relaxation fixpoint: no edge out of a node
    /// with an entry would lower its destination's recorded cost (within
    /// 32-bit range). This holds whenever no query is in flight.
    pub open spec fn settled(&self) -> bool {
        forall|i: int|
            0 <= i < self.edges@.len() ==> edge_ok(
                self.sources_list@,
                Map::empty(),
                #[trigger] self.edges@[i],
            )
    }

    /// Every direct successor of `start` has an entry of at most the edge's
    /// cost. A query from `start` guarantees this by seeding.
    pub open spec fn seeded(&self, start: Node) -> bool {
        forall|i: int|
            0 <= i < self.edges@.len() ==> seed_ok(
                self.sources_list@,
                Map::empty(),
                #[trigger] self.edges@[i],
                start,
            )
    }

    /// Build the adjacency index from an ordered edge list. Duplicate pairs,
    /// self-loops and negative costs are all taken as given: nothing is
    /// validated here.
    pub fn from_edge_list(edge_list: &Vec<Edge>) -> (g: Graph)
        ensures
            g.edges@ == edge_list@,
            g.sources_list@ == Map::<Node, RoutingInfo>::empty(),
            g.wf(),
            g.settled(),
    {
        let ghost all = edge_list@;
        let mut destinations_list: HashMap<Node, Vec<(Node, Cost)>> = HashMap::new();
        let mut i: usize = 0;
        while i < edge_list.len()
            invariant
                i <= all.len(),
                all == edge_list@,
                forall|n: Node|
                    destinations_list@.contains_key(n) <==> edges_from(
                        all.take(i as int),
                        n,
                    ).len() != 0,
                forall|n: Node|
                    #[trigger] destinations_list@.contains_key(n) ==> destinations_list@[n]@
                        == edges_from(all.take(i as int), n),
            decreases all.len() - i,
        {
            let (source, destination, cost) = edge_list[i];
            proof {
                assert(all.take(i + 1).drop_last() =~= all.take(i as int));
                assert(all.take(i + 1).last() == all[i as int]);
            }
            match destinations_list.remove(&source) {
                None => {
                    let mut v: Vec<(Node, Cost)> = Vec::new();
                    v.push((destination, cost));
                    destinations_list.insert(source, v);
                },
                Some(mut v) => {
                    v.push((destination, cost));
                    destinations_list.insert(source, v);
                },
            }
            i = i + 1;
        }
        proof {
            assert(all.take(all.len() as int) =~= all);
        }
        let sources_list: HashMap<Node, RoutingInfo> = HashMap::new();
        Graph { destinations_list, sources_list, edges: Ghost(edge_list@) }
    }

    /// Run the relaxation worklist for a query from `start`: seed one task
    /// per outgoing edge of `start`, then drain the queue to completion,
    /// recording every improvement in the routing table and propagating each
    /// improvement along the improved node's outgoing edges. Reports whether
    /// `goal` was ever reached as a task destination; a goal that is a direct
    /// successor of `start` is always found, and on a fresh routing table a
    /// goal is found exactly when it ends up in the table. Costs already
    /// recorded never increase, the table is left settled (no edge could
    /// still lower a recorded cost) and seeded for `start`, and on a fresh
    /// table every entry's predecessor link is certified by a real edge and
    /// well founded, so the links can be walked back to `start`.
    #[verifier::loop_isolation(false)]
    #[verifier::rlimit(100)]
    pub fn populate_sources_list(&mut self, start: Node, goal: Node) -> (found: bool)
        requires
            old(self).wf(),
            old(self).settled(),
            nonneg_edges(old(self).edges@),
        ensures
            final(self).wf(),
            final(self).settled(),
            final(self).seeded(start),
            final(self).edges == old(self).edges,
            final(self).destinations_list == old(self).destinations_list,
            forall|n: Node|
                #[trigger] old(self).sources_list@.contains_key(n)
                    ==> final(self).sources_list@.contains_key(n)
                    && final(self).sources_list@[n].minimal_cost
                    <= old(self).sources_list@[n].minimal_cost,
            found ==> final(self).sources_list@.contains_key(goal),
            has_pair(old(self).edges@, start, goal) ==> found,
            old(self).sources_list@ == Map::<Node, RoutingInfo>::empty() ==> forall|n: Node|
                #[trigger] link_ok(final(self).sources_list@, final(self).edges@, n, start),
            old(self).sources_list@ == Map::<Node, RoutingInfo>::empty() ==> exists|ord: Map<
                Node,
                nat,
            >| lex_links(final(self).sources_list@, ord, start),
            old(self).sources_list@ == Map::<Node, RoutingInfo>::empty()
                && final(self).sources_list@.contains_key(goal) ==> found,
    {
        let ghost edges = self.edges@;
        let ghost mut ordm: Map<Node, nat> = Map::empty();
        let ghost mut ctr: nat = 0;
        let mut queue = WorkQueue::new();
        match self.destinations_list.get(&start) {
            Some(destinations) => {
                let ghost outs = edges_from(edges, start);
                let mut i: usize = 0;
                while i < destinations.len()
                    invariant
                        destinations@ == outs,
                        i <= outs.len(),
                        queue.wf(),
                        forall|kk: (Node, Node)|
                            #[trigger] queue@.contains_key(kk) ==> has_pair(edges, kk.0, kk.1)
                                && queue@[kk] >= 0,
                        forall|j: int|
                            0 <= j < i ==> queue@.contains_key((start, (#[trigger] outs[j]).0))
                                && queue@[(start, outs[j].0)] <= outs[j].1,
                        forall|kk: (Node, Node)|
                            #[trigger] queue@.contains_key(kk) ==> task_ok(
                                self.sources_list@,
                                edges,
                                kk,
                                queue@[kk],
                                start,
                            ),
                    decreases outs.len() - i,
                {
                    let (to, cost) = destinations[i];
                    let ghost q_seed = queue@;
                    proof {
                        lemma_out_edge_facts(edges, start, i as int);
                        lemma_edges_from_member(edges, start, i as int);
                    }
                    queue.push_task(start, to, cost);
                    proof {
                        assert forall|kk: (Node, Node)| #[trigger] queue@.contains_key(kk) implies
                            task_ok(self.sources_list@, edges, kk, queue@[kk], start) by {
                            if kk == (start, to) && !(q_seed.contains_key(kk) && q_seed[kk]
                                <= cost) {
                                let ix = choose|ix: int|
                                    0 <= ix < edges.len() && #[trigger] edges[ix] == (
                                    start,
                                    outs[i as int].0,
                                    outs[i as int].1,
                                    );
                                assert(edges[ix].0 == kk.0 && edges[ix].1 == kk.1 && queue@[kk]
                                    >= edges[ix].2);
                            } else {
                                assert(task_ok(self.sources_list@, edges, kk, q_seed[kk], start));
                            }
                        }
                    }
                    i = i + 1;
                }
                proof {
                    if has_pair(edges, start, goal) {
                        let j = choose|j: int|
                            0 <= j < edges.len() && (#[trigger] edges[j]).0 == start && edges[j].1
                                == goal;
                        lemma_edge_in_edges_from(edges, j);
                        let m = choose|m: int|
                            0 <= m < outs.len() && #[trigger] outs[m] == (edges[j].1, edges[j].2);
                        assert(queue@.contains_key((start, outs[m].0)));
                    }
                    assert forall|j: int| 0 <= j < edges.len() implies seed_ok(
                        self.sources_list@,
                        queue@,
                        #[trigger] edges[j],
                        start,
                    ) by {
                        if edges[j].0 == start {
                            lemma_edge_in_edges_from(edges, j);
                            let m = choose|m: int|
                                0 <= m < outs.len() && #[trigger] outs[m] == (
                                edges[j].1,
                                edges[j].2,
                                );
                            assert(queue@[(start, outs[m].0)] <= outs[m].1);
                        }
                    }
                }
            },
            None => {
                proof {
                    assert forall|j: int| 0 <= j < edges.len() implies (#[trigger] edges[j]).0
                        != start by {
                        if edges[j].0 == start {
                            lemma_edge_in_edges_from(edges, j);
                            assert(edges_from(edges, start).len() != 0);
                            assert(self.destinations_list@.contains_key(start));
                        }
                    }
                    assert(!has_pair(edges, start, goal));
                }
            },
        }
        proof {
            // nothing has been relaxed yet: the fixpoint of the previous
            // query still stands, and every seed is pending
            assert forall|j: int| 0 <= j < edges.len() implies edge_ok(
                self.sources_list@,
                queue@,
                #[trigger] edges[j],
            ) by {
                assert(edge_ok(self.sources_list@, Map::empty(), edges[j]));
            }
            assert forall|j: int| 0 <= j < edges.len() implies seed_ok(
                self.sources_list@,
                queue@,
                #[trigger] edges[j],
                start,
            ) by {
                assert(edges[j].0 != start || seed_ok(self.sources_list@, queue@, edges[j], start));
            }
        }
        let mut found = false;
        #[verifier::loop_isolation(true)]
        loop
            invariant
                self.wf(),
                self.edges == old(self).edges,
                edges == self.edges@,
                nonneg_edges(edges),
                self.destinations_list == old(self).destinations_list,
                queue.wf(),
                forall|kk: (Node, Node)|
                    #[trigger] queue@.contains_key(kk) ==> has_pair(edges, kk.0, kk.1) && queue@[kk]
                        >= 0,
                forall|n: Node|
                    #[trigger] old(self).sources_list@.contains_key(n)
                        ==> self.sources_list@.contains_key(n)
                        && self.sources_list@[n].minimal_cost
                        <= old(self).sources_list@[n].minimal_cost,
                found ==> self.sources_list@.contains_key(goal),
                old(self).sources_list@ == Map::<Node, RoutingInfo>::empty()
                    && self.sources_list@.contains_key(goal) ==> found,
                has_pair(edges, start, goal) ==> found || queue@.contains_key((start, goal)),
                forall|j: int|
                    0 <= j < edges.len() ==> edge_ok(self.sources_list@, queue@, #[trigger] edges[j]),
                forall|j: int|
                    0 <= j < edges.len() ==> seed_ok(
                        self.sources_list@,
                        queue@,
                        #[trigger] edges[j],
                        start,
                    ),
                forall|kk: (Node, Node)|
                    #[trigger] queue@.contains_key(kk) ==> task_ok(
                        self.sources_list@,
                        edges,
                        kk,
                        queue@[kk],
                        start,
                    ),
                old(self).sources_list@ == Map::<Node, RoutingInfo>::empty() ==> forall|n: Node|
                    #[trigger] link_ok(self.sources_list@, edges, n, start),
                old(self).sources_list@ == Map::<Node, RoutingInfo>::empty() ==> (forall|n: Node|
                    #[trigger] self.sources_list@.contains_key(n) ==> ordm[n] < ctr) && lex_links(
                    self.sources_list@,
                    ordm,
                    start,
                ),
            ensures
                self.wf(),
                self.edges == old(self).edges,
                self.destinations_list == old(self).destinations_list,
                forall|n: Node|
                    #[trigger] old(self).sources_list@.contains_key(n)
                        ==> self.sources_list@.contains_key(n)
                        && self.sources_list@[n].minimal_cost
                        <= old(self).sources_list@[n].minimal_cost,
                found ==> self.sources_list@.contains_key(goal),
                old(self).sources_list@ == Map::<Node, RoutingInfo>::empty()
                    && self.sources_list@.contains_key(goal) ==> found,
                has_pair(edges, start, goal) ==> found,
                queue@ == Map::<(Node, Node), Cost>::empty(),
                forall|j: int|
                    0 <= j < edges.len() ==> edge_ok(self.sources_list@, queue@, #[trigger] edges[j]),
                forall|j: int|
                    0 <= j < edges.len() ==> seed_ok(
                        self.sources_list@,
                        queue@,
                        #[trigger] edges[j],
                        start,
                    ),
                old(self).sources_list@ == Map::<Node, RoutingInfo>::empty() ==> forall|n: Node|
                    #[trigger] link_ok(self.sources_list@, edges, n, start),
                old(self).sources_list@ == Map::<Node, RoutingInfo>::empty() ==> lex_links(
                    self.sources_list@,
                    ordm,
                    start,
                ),
            decreases queue.pot() + (edges.len() + 1) * 0x8000_0001 * relax_pot(
                self.sources_list@,
                edges,
            ),
        {
            let ghost g0 = *self;
            let ghost qpot0 = queue.pot();
            let ghost q_top = queue@;
            let popped = queue.pop_task();
            let (from, to, new_cost) = match popped {
                Some(t) => t,
                None => { break ; },
            };
            if to == goal {
                found = true;
            }
            let ghost src0 = self.sources_list@;
            let update: bool;
            match self.sources_list.remove(&to) {
                None => {
                    let route = RoutingInfo::new(from, new_cost);
                    self.sources_list.insert(to, route);
                    update = true;
                },
                Some(mut route) => {
                    update = route.update_path(from, to, new_cost);
                    self.sources_list.insert(to, route);
                },
            }
            proof {
                if !update {
                    assert(self.sources_list@ =~= src0);
                }
                // the routing table changed at key `to` alone
                assert(forall|n: Node|
                    n != to ==> (#[trigger] self.sources_list@.contains_key(n)
                        <==> src0.contains_key(n)) && (src0.contains_key(n)
                        ==> self.sources_list@[n] == src0[n]));
                assert(self.sources_list@.contains_key(to));
                // well-formedness of every entry
                assert forall|n: Node| #[trigger] self.sources_list@.contains_key(n) implies
                    self.entry_ok(n) by {
                    if n == to && update {
                        let r = self.sources_list@[to];
                        assert forall|p: Node| #[trigger] r.paths@.contains_key(p) implies
                            r.paths@[p] >= 0 && has_pair(edges, p, to) by {
                            if p == from {
                                assert(new_cost >= 0);
                            } else {
                                assert(src0.contains_key(to));
                                assert(src0[to].paths@.contains_key(p));
                                assert(g0.entry_ok(to));
                            }
                        }
                    } else {
                        assert(g0.entry_ok(n));
                    }
                }
                assert(self.wf());
                // monotonicity against the state before the call
                assert forall|n: Node| #[trigger] old(self).sources_list@.contains_key(n) implies
                    self.sources_list@.contains_key(n)
                    && self.sources_list@[n].minimal_cost
                    <= old(self).sources_list@[n].minimal_cost by {
                    if n == to && update {
                        if src0.contains_key(to) {
                            assert(self.sources_list@[to].minimal_cost <= src0[to].minimal_cost);
                        }
                    }
                }
            }
            let ghost qpot1 = queue.pot();
            let ghost src1 = self.sources_list@;
            let ghost changed = !src0.contains_key(to) || src1[to].minimal_cost
                < src0[to].minimal_cost;
            proof {
                assert(src1[to].minimal_cost <= new_cost) by {
                    if src0.contains_key(to) {
                        assert(g0.entry_ok(to));
                    }
                }
                assert(changed ==> update && src1[to].minimal_cost == new_cost) by {
                    if !update {
                        assert(src1 == src0);
                    }
                }
                assert(!changed ==> src0.contains_key(to) && src1[to].minimal_cost
                    == src0[to].minimal_cost);
                assert(forall|n: Node|
                    #[trigger] src0.contains_key(n) ==> src1.contains_key(n)
                        && src1[n].minimal_cost <= src0[n].minimal_cost);
                assert(queue@ == q_top.remove((from, to)));
                // every seed stays accounted for across the pop
                assert forall|j: int| 0 <= j < edges.len() implies seed_ok(
                    src1,
                    queue@,
                    #[trigger] edges[j],
                    start,
                ) by {
                    let e = edges[j];
                    if e.0 == start {
                        assert(seed_ok(src0, q_top, e, start));
                        if q_top.contains_key((start, e.1)) && q_top[(start, e.1)] <= e.2 && (
                        start,
                        e.1,
                        ) == (from, to) {
                            assert(src1[to].minimal_cost <= new_cost);
                            assert(new_cost == q_top[(from, to)]);
                        }
                    }
                }
                // every edge stays relaxed or queued, except the improved
                // node's own out-edges, which the propagation pass handles
                assert forall|j: int| 0 <= j < edges.len() implies (edge_ok(
                    src1,
                    queue@,
                    #[trigger] edges[j],
                ) || (changed && edges[j].0 == to && exists|m: int|
                    0 <= m < edges_from(edges, to).len() && edges_from(edges, to)[m] == (
                    edges[j].1,
                    edges[j].2,
                    ))) by {
                    let e = edges[j];
                    if changed && e.0 == to {
                        lemma_edge_in_edges_from(edges, j);
                    } else if src1.contains_key(e.0) && src1[e.0].minimal_cost + e.2 <= i32::MAX {
                        assert(src0.contains_key(e.0) && src1[e.0].minimal_cost
                            == src0[e.0].minimal_cost);
                        assert(edge_ok(src0, q_top, e));
                        if q_top.contains_key((e.0, e.1)) && q_top[(e.0, e.1)]
                            <= src0[e.0].minimal_cost + e.2 && (e.0, e.1) == (from, to) {
                            assert(src1[to].minimal_cost <= new_cost);
                            assert(new_cost == q_top[(from, to)]);
                        }
                    }
                }
                // task certificates survive the pop and the update
                assert forall|kk: (Node, Node)| #[trigger] queue@.contains_key(kk) implies task_ok(
                    src1,
                    edges,
                    kk,
                    queue@[kk],
                    start,
                ) by {
                    assert(q_top.contains_key(kk) && q_top[kk] == queue@[kk]);
                    assert(task_ok(src0, edges, kk, q_top[kk], start));
                    let ix = choose|ix: int|
                        0 <= ix < edges.len() && (#[trigger] edges[ix]).0 == kk.0 && edges[ix].1
                            == kk.1 && q_top[kk] >= edges[ix].2 && (kk.0 != start
                            ==> src0.contains_key(kk.0) && q_top[kk] >= src0[kk.0].minimal_cost
                            + edges[ix].2);
                    assert(kk.0 != start ==> src1.contains_key(kk.0) && queue@[kk]
                        >= src1[kk.0].minimal_cost + edges[ix].2);
                }
                // predecessor links stay certified on a fresh routing table
                if old(self).sources_list@ == Map::<Node, RoutingInfo>::empty() {
                    assert forall|n: Node| #[trigger] link_ok(src1, edges, n, start) by {
                        if src1.contains_key(n) {
                            if n == to && changed {
                                assert(q_top.contains_key((from, to)));
                                assert(task_ok(src0, edges, (from, to), new_cost, start));
                                let ix = choose|ix: int|
                                    0 <= ix < edges.len() && (#[trigger] edges[ix]).0 == from
                                        && edges[ix].1 == to && new_cost >= edges[ix].2 && (from
                                        != start ==> src0.contains_key(from) && new_cost
                                        >= src0[from].minimal_cost + edges[ix].2);
                                assert(src1[to].minimal_from == from);
                                assert(src1[to].minimal_cost == new_cost);
                                assert(from != start ==> src1.contains_key(from)
                                    && src1[from].minimal_cost <= src0[from].minimal_cost);
                            } else {
                                assert(link_ok(src0, edges, n, start));
                                assert(src1[n].minimal_from == src0[n].minimal_from
                                    && src1[n].minimal_cost == src0[n].minimal_cost);
                                let p = src0[n].minimal_from;
                                let ix = choose|ix: int|
                                    0 <= ix < edges.len() && (#[trigger] edges[ix]).0 == p
                                        && edges[ix].1 == n && src0[n].minimal_cost
                                        >= edges[ix].2 && (p != start ==> src0.contains_key(p)
                                        && src0[n].minimal_cost >= src0[p].minimal_cost
                                        + edges[ix].2);
                                assert(p != start ==> src1.contains_key(p)
                                    && src1[p].minimal_cost <= src0[p].minimal_cost);
                            }
                        }
                    }
                }
                // stamp the order in which links are set, and show the links
                // stay well founded on a fresh routing table
                let ord0 = ordm;
                let ctr0 = ctr;
                if changed {
                    ordm = ordm.insert(to, ctr);
                    ctr = ctr + 1;
                }
                if old(self).sources_list@ == Map::<Node, RoutingInfo>::empty() {
                    assert forall|n: Node| #[trigger] src1.contains_key(n) implies ordm[n]
                        < ctr by {
                        if !(n == to && changed) {
                            assert(src0.contains_key(n));
                            assert(ord0[n] < ctr0);
                        }
                    }
                    assert forall|n: Node| #[trigger] src1.contains_key(n) implies ({
                        let p = src1[n].minimal_from;
                        p == start || (src1.contains_key(p) && lex_before(src1, ordm, p, n))
                    }) by {
                        let p = src1[n].minimal_from;
                        if n == to && changed {
                            assert(p == from);
                            assert(src1[to].minimal_cost == new_cost);
                            if from != start {
                                assert(task_ok(src0, edges, (from, to), new_cost, start));
                                let ix = choose|ix: int|
                                    0 <= ix < edges.len() && (#[trigger] edges[ix]).0 == from
                                        && edges[ix].1 == to && new_cost >= edges[ix].2 && (from
                                        != start ==> src0.contains_key(from) && new_cost
                                        >= src0[from].minimal_cost + edges[ix].2);
                                assert(edges[ix].2 >= 0);
                                assert(src0[from].minimal_cost <= new_cost);
                                assert(from != to);
                                assert(src1[from].minimal_cost <= src1[to].minimal_cost);
                                if src1[from].minimal_cost == src1[to].minimal_cost {
                                    assert(ord0[from] < ctr0);
                                    assert(ordm[from] == ord0[from] && ordm[to] == ctr0);
                                }
                            }
                        } else {
                            assert(src0.contains_key(n));
                            assert(src1[n].minimal_from == src0[n].minimal_from
                                && src1[n].minimal_cost == src0[n].minimal_cost);
                            if p != start {
                                assert(src0.contains_key(p) && lex_before(src0, ord0, p, n));
                                if p == to && changed {
                                    assert(src1[p].minimal_cost < src0[p].minimal_cost);
                                } else {
                                    assert(src1[p].minimal_cost == src0[p].minimal_cost);
                                    assert(ordm[p] == ord0[p] && ordm[n] == ord0[n]);
                                }
                            }
                        }
                    }
                    assert(lex_links(src1, ordm, start));
                }
            }
            if update {
                let new_from = to;
                match self.destinations_list.get(&new_from) {
                    Some(edges_vec) => {
                        let ghost outs2 = edges_from(edges, new_from);
                        let mut i2: usize = 0;
                        while i2 < edges_vec.len()
                            invariant
                                edges_vec@ == outs2,
                                i2 <= outs2.len(),
                                queue.wf(),
                                queue.pot() <= qpot1 + i2 * 0x8000_0001,
                                forall|kk: (Node, Node)|
                                    #[trigger] queue@.contains_key(kk) ==> has_pair(
                                        edges,
                                        kk.0,
                                        kk.1,
                                    ) && queue@[kk] >= 0,
                                has_pair(edges, start, goal) ==> found || queue@.contains_key(
                                    (start, goal),
                                ),
                                changed ==> src1.contains_key(new_from)
                                    && src1[new_from].minimal_cost == new_cost,
                                src1.contains_key(new_from) && src1[new_from].minimal_cost
                                    <= new_cost,
                                self.sources_list@ == src1,
                                forall|kk: (Node, Node)|
                                    #[trigger] queue@.contains_key(kk) ==> task_ok(
                                        src1,
                                        edges,
                                        kk,
                                        queue@[kk],
                                        start,
                                    ),
                                forall|j: int|
                                    0 <= j < edges.len() ==> (edge_ok(
                                        src1,
                                        queue@,
                                        #[trigger] edges[j],
                                    ) || (changed && edges[j].0 == new_from && exists|m: int|
                                        i2 <= m < outs2.len() && outs2[m] == (
                                        edges[j].1,
                                        edges[j].2,
                                        ))),
                                forall|j: int|
                                    0 <= j < edges.len() ==> seed_ok(
                                        src1,
                                        queue@,
                                        #[trigger] edges[j],
                                        start,
                                    ),
                            decreases outs2.len() - i2,
                        {
                            let (new_to, cost) = edges_vec[i2];
                            proof {
                                lemma_out_edge_facts(edges, new_from, i2 as int);
                            }
                            let ghost q_it = queue@;
                            proof {
                                lemma_edges_from_member(edges, new_from, i2 as int);
                            }
                            if cost <= i32::MAX - new_cost {
                                let candidate = cost + new_cost;
                                let push: bool;
                                match self.sources_list.get(&new_to) {
                                    Some(content) => {
                                        push = content.minimal_cost > candidate;
                                    },
                                    None => {
                                        push = true;
                                    },
                                }
                                if push {
                                    queue.push_task(new_from, new_to, candidate);
                                }
                                proof {
                                    assert(forall|k: (Node, Node)|
                                        #[trigger] q_it.contains_key(k) ==> queue@.contains_key(k)
                                            && queue@[k] <= q_it[k]);
                                    assert forall|kk: (Node, Node)|
                                        #[trigger] queue@.contains_key(kk) implies task_ok(
                                        src1,
                                        edges,
                                        kk,
                                        queue@[kk],
                                        start,
                                    ) by {
                                        if push && kk == (new_from, new_to) && !(
                                        q_it.contains_key(kk) && q_it[kk] <= candidate) {
                                            let ix = choose|ix: int|
                                                0 <= ix < edges.len() && #[trigger] edges[ix] == (
                                                new_from,
                                                outs2[i2 as int].0,
                                                outs2[i2 as int].1,
                                                );
                                            assert(queue@[kk] == candidate);
                                            assert(edges[ix].0 == kk.0 && edges[ix].1 == kk.1
                                                && candidate >= edges[ix].2 && candidate
                                                >= src1[new_from].minimal_cost + edges[ix].2);
                                        } else {
                                            assert(task_ok(src1, edges, kk, q_it[kk], start));
                                        }
                                    }
                                    assert(!push ==> src1.contains_key(new_to)
                                        && src1[new_to].minimal_cost <= candidate);
                                    assert(push ==> queue@.contains_key((new_from, new_to))
                                        && queue@[(new_from, new_to)] <= candidate);
                                    assert forall|j: int| 0 <= j < edges.len() implies (edge_ok(
                                        src1,
                                        queue@,
                                        #[trigger] edges[j],
                                    ) || (changed && edges[j].0 == new_from && exists|m: int|
                                        i2 + 1 <= m < outs2.len() && outs2[m] == (
                                        edges[j].1,
                                        edges[j].2,
                                        ))) by {
                                        let e = edges[j];
                                        if !edge_ok(src1, q_it, e) {
                                            let m = choose|m: int|
                                                i2 <= m < outs2.len() && outs2[m] == (e.1, e.2);
                                            if m == i2 {
                                                assert(e.1 == new_to && e.2 == cost);
                                                assert(src1[new_from].minimal_cost == new_cost);
                                            }
                                        }
                                    }
                                    assert forall|j: int| 0 <= j < edges.len() implies seed_ok(
                                        src1,
                                        queue@,
                                        #[trigger] edges[j],
                                        start,
                                    ) by {
                                        assert(seed_ok(src1, q_it, edges[j], start));
                                    }
                                }
                            } else {
                                proof {
                                    assert forall|j: int| 0 <= j < edges.len() implies (edge_ok(
                                        src1,
                                        queue@,
                                        #[trigger] edges[j],
                                    ) || (changed && edges[j].0 == new_from && exists|m: int|
                                        i2 + 1 <= m < outs2.len() && outs2[m] == (
                                        edges[j].1,
                                        edges[j].2,
                                        ))) by {
                                        let e = edges[j];
                                        if !edge_ok(src1, q_it, e) {
                                            let m = choose|m: int|
                                                i2 <= m < outs2.len() && outs2[m] == (e.1, e.2);
                                            if m == i2 {
                                                assert(e.1 == new_to && e.2 == cost);
                                                assert(src1[new_from].minimal_cost == new_cost);
                                                assert(src1[new_from].minimal_cost + e.2
                                                    > i32::MAX);
                                            }
                                        }
                                    }
                                }
                            }
                            i2 = i2 + 1;
                        }
                        proof {
                            lemma_edges_from_len(edges, new_from);
                            assert(i2 * 0x8000_0001 <= edges.len() * 0x8000_0001)
                                by (nonlinear_arith)
                                requires
                                    i2 <= edges.len(),
                            ;
                        }
                    },
                    None => {
                        proof {
                            assert(edges_from(edges, new_from).len() == 0);
                        }
                    },
                }
                proof {
                    assert(queue.pot() <= qpot1 + edges.len() * 0x8000_0001);
                    // the improved pair's potential strictly dropped
                    assert(pair_pot(src1, from, to) < pair_pot(src0, from, to)) by {
                        assert(src1[to].paths@[from] == new_cost);
                        if src0.contains_key(to) && src0[to].paths@.contains_key(from) {
                            assert(g0.entry_ok(to));
                            assert(src0[to].paths@[from] > new_cost);
                        }
                    }
                    assert forall|f: Node, t: Node| (f, t) != (from, to) implies #[trigger]
                        pair_pot(src0, f, t) == pair_pot(src1, f, t) by {
                        if t == to {
                            if src0.contains_key(to) {
                                assert(src1[to].paths@ =~= src0[to].paths@.insert(from, new_cost));
                            }
                        }
                    }
                    lemma_relax_pot_update(src0, src1, from, to, edges);
                    lemma_drain_pot_dec(
                        qpot0,
                        queue.pot(),
                        relax_pot(src0, edges),
                        relax_pot(src1, edges),
                        edges.len(),
                        cost_pot(new_cost),
                    );
                }
            }
        }
        proof {
            // the queue has drained, so every edge is settled outright
            assert forall|j: int| 0 <= j < edges.len() implies edge_ok(
                self.sources_list@,
                Map::empty(),
                #[trigger] edges[j],
            ) by {
                assert(edge_ok(self.sources_list@, queue@, edges[j]));
            }
            assert forall|j: int| 0 <= j < edges.len() implies seed_ok(
                self.sources_list@,
                Map::empty(),
                #[trigger] edges[j],
                start,
            ) by {
                assert(seed_ok(self.sources_list@, queue@, edges[j], start));
            }
        }
        found
    }

    /// Query the cheapest route from `start` to `goal`: run the relaxation
    /// worklist, then walk the predecessor links backward from `goal`. The
    /// result, when there is one, is a genuine edge path of the graph from
    /// `start` to `goal` following the recorded predecessor links, together
    /// with the cost the routing table records for `goal` — by
    /// `lemma_no_cheaper_walk` no route beats that cost, and on a fresh
    /// graph `lemma_reported_cost_is_path_cost` shows the returned path
    /// realizes it exactly. On a fresh graph the query succeeds whenever the
    /// worklist reaches the goal. On a routing table retained from earlier
    /// queries, a predecessor walk that fails to arrive at `start` (a
    /// missing entry, or a walk longer than the table, which must have
    /// revisited a node) is reported as `None`, as a lookup with no routing
    /// entry is never a fault. Note that `start == goal` with no self-loop
    /// or cycle back to `start` is reported unreachable: the queue is seeded
    /// from `start`'s outgoing edges only, so the trivial empty path is
    /// never considered.
    #[verifier::loop_isolation(false)]
    pub fn shortest_path(&mut self, start: Node, goal: Node) -> (r: Option<(Vec<Node>, Cost)>)
        requires
            old(self).wf(),
            old(self).settled(),
            nonneg_edges(old(self).edges@),
        ensures
            final(self).wf(),
            final(self).settled(),
            final(self).seeded(start),
            final(self).edges == old(self).edges,
            final(self).destinations_list == old(self).destinations_list,
            forall|n: Node|
                #[trigger] old(self).sources_list@.contains_key(n)
                    ==> final(self).sources_list@.contains_key(n)
                    && final(self).sources_list@[n].minimal_cost
                    <= old(self).sources_list@[n].minimal_cost,
            match r {
                Some(pc) => {
                    &&& final(self).sources_list@.contains_key(goal)
                    &&& pc.1 == final(self).sources_list@[goal].minimal_cost
                    &&& pc.0.len() >= 1
                    &&& pc.0[0] == start
                    &&& pc.0[pc.0.len() - 1] == goal
                    &&& forall|i: int|
                        0 <= i < pc.0.len() - 1 ==> has_pair(
                            final(self).edges@,
                            #[trigger] pc.0[i],
                            pc.0[i + 1],
                        )
                    &&& forall|i: int|
                        1 <= i < pc.0.len() ==> final(self).sources_list@.contains_key(
                            #[trigger] pc.0[i],
                        ) && pc.0[i - 1] == final(self).sources_list@[pc.0[i]].minimal_from
                        && pc.0[i] != start
                },
                None => true,
            },
            !final(self).sources_list@.contains_key(goal) ==> r is None,
            old(self).sources_list@ == Map::<Node, RoutingInfo>::empty() ==> forall|n: Node|
                #[trigger] link_ok(final(self).sources_list@, final(self).edges@, n, start),
            old(self).sources_list@ == Map::<Node, RoutingInfo>::empty()
                && final(self).sources_list@.contains_key(goal) ==> r is Some,
            old(self).sources_list@ == Map::<Node, RoutingInfo>::empty() && has_pair(
                old(self).edges@,
                start,
                goal,
            ) ==> r is Some,
    {
        let ghost fresh = old(self).sources_list@ == Map::<Node, RoutingInfo>::empty();
        let found = self.populate_sources_list(start, goal);
        if !found {
            return None;
        }
        let ghost ordm = choose|o: Map<Node, nat>| lex_links(self.sources_list@, o, start);
        proof {
            if fresh {
                assert(lex_links(self.sources_list@, ordm, start));
            }
        }
        let limit = self.sources_list.len();
        let mut rev: Vec<Node> = Vec::new();
        let mut current = goal;
        let mut steps: usize = 0;
        loop
            invariant
                steps <= limit,
                rev@.len() == steps,
                steps == 0 ==> current == goal,
                steps > 0 ==> rev@[0] == goal,
                forall|i: int| 0 <= i < steps ==> self.sources_list@.contains_key(#[trigger] rev@[i]),
                forall|i: int|
                    0 <= i < steps - 1 ==> rev@[i + 1] == self.sources_list@[#[trigger] rev@[i]].minimal_from,
                steps > 0 ==> current == self.sources_list@[rev@[steps - 1]].minimal_from,
                forall|i: int| 0 <= i < steps ==> #[trigger] rev@[i] != start,
                fresh && current != start ==> self.sources_list@.contains_key(current),
                fresh && current != start ==> forall|a: int|
                    0 <= a < steps ==> lex_before(self.sources_list@, ordm, current, #[trigger] rev@[a]),
                fresh ==> forall|a: int, b: int|
                    0 <= a < b < steps ==> lex_before(
                        self.sources_list@,
                        ordm,
                        #[trigger] rev@[b],
                        #[trigger] rev@[a],
                    ),
            decreases limit - steps,
        {
            rev.push(current);
            if current == start {
                let cost: Cost;
                match self.sources_list.get(&goal) {
                    Some(info) => {
                        cost = info.minimal_cost;
                    },
                    None => {
                        return None;
                    },
                }
                let ghost walk = rev@;
                let mut path: Vec<Node> = Vec::new();
                let mut j: usize = rev.len();
                while j > 0
                    invariant
                        j <= walk.len(),
                        path@.len() == walk.len() - j,
                        forall|m: int|
                            0 <= m < path@.len() ==> #[trigger] path@[m] == walk[walk.len() - 1
                                - m],
                    decreases j,
                {
                    j = j - 1;
                    path.push(rev[j]);
                }
                proof {
                    assert forall|i: int|
                        0 <= i < path@.len() - 1 implies has_pair(
                        self.edges@,
                        #[trigger] path@[i],
                        path@[i + 1],
                    ) by {
                        let w = walk.len() - 2 - i;
                        assert(path@[i + 1] == walk[w]);
                        assert(self.sources_list@.contains_key(walk[w]));
                        assert(self.entry_ok(walk[w]));
                        assert(path@[i] == self.sources_list@[walk[w]].minimal_from);
                    }
                }
                return Some((path, cost));
            }
            if steps == limit {
                proof {
                    if fresh {
                        // the walk has now visited more distinct nodes than
                        // the routing table holds: impossible
                        assert(rev@.no_duplicates()) by {
                            assert(forall|a: int, b: int|
                                0 <= a < b < steps ==> #[trigger] rev@[b] != #[trigger] rev@[a]);
                            assert(forall|a: int| 0 <= a < steps ==> #[trigger] rev@[a] != current);
                            assert(rev@[steps as int] == current);
                        }
                        rev@.unique_seq_to_set();
                        assert(rev@.to_set().subset_of(self.sources_list@.dom())) by {
                            assert forall|x: Node| rev@.to_set().contains(x) implies
                                self.sources_list@.dom().contains(x) by {
                                let a = choose|a: int| 0 <= a < rev@.len() && rev@[a] == x;
                                if a < steps {
                                    assert(self.sources_list@.contains_key(rev@[a]));
                                } else {
                                    assert(x == current);
                                }
                            }
                        }
                        vstd::set_lib::lemma_len_subset(rev@.to_set(), self.sources_list@.dom());
                        assert(false);
                    }
                }
                return None;
            }
            let next: Node;
            match self.sources_list.get(&current) {
                Some(info) => {
                    next = info.minimal_from;
                },
                None => {
                    proof {
                        if fresh {
                            assert(self.sources_list@.contains_key(current));
                            assert(false);
                        }
                    }
                    return None;
                },
            }
            proof {
                if fresh && next != start {
                    // the link strictly descends, so the walk stays ahead of
                    // everything it has visited
                    assert(self.sources_list@.contains_key(current));
                    assert(lex_before(self.sources_list@, ordm, next, current));
                    assert forall|a: int| 0 <= a < steps + 1 implies lex_before(
                        self.sources_list@,
                        ordm,
                        next,
                        #[trigger] rev@[a],
                    ) by {
                        if a < steps {
                            assert(lex_before(self.sources_list@, ordm, current, rev@[a]));
                        } else {
                            assert(rev@[a] == current);
                        }
                    }
                }
            }
            current = next;
            steps = steps + 1;
        }
    }
}

/// On a routing table built by a single query from `start` against a fresh
/// graph, the cost recorded for the last node of a predecessor-link path —
/// the cost `shortest_path` reports for its result — is realized exactly by
/// that path: a walk through those very nodes has edge costs summing to it.
pub proof fn lemma_reported_cost_is_path_cost(g: &Graph, start: Node, path: Seq<Node>)
    requires
        g.settled(),
        g.seeded(start),
        forall|n: Node| #[trigger] link_ok(g.sources_list@, g.edges@, n, start),
        path.len() >= 2,
        path[0] == start,
        forall|i: int|
            1 <= i < path.len() ==> g.sources_list@.contains_key(#[trigger] path[i]) && path[i - 1]
                == g.sources_list@[path[i]].minimal_from && path[i] != start,
    ensures
        exists|idxs: Seq<int>|
            is_walk(g.edges@, start, idxs) && idxs.len() == path.len() - 1 && (forall|m: int|
                0 <= m < idxs.len() ==> g.edges@[#[trigger] idxs[m]].1 == path[m + 1])
                && walk_cost(g.edges@, idxs) == g.sources_list@[path.last()].minimal_cost,
    decreases path.len(),
{
    let edges = g.edges@;
    let src = g.sources_list@;
    let n = path.last();
    let p = path[path.len() - 2];
    assert(link_ok(src, edges, n, start));
    assert(src[n].minimal_from == p);
    let ix = choose|ix: int|
        0 <= ix < edges.len() && (#[trigger] edges[ix]).0 == p && edges[ix].1 == n
            && src[n].minimal_cost >= edges[ix].2 && (p != start ==> src.contains_key(p)
            && src[n].minimal_cost >= src[p].minimal_cost + edges[ix].2);
    if path.len() == 2 {
        assert(p == start);
        assert(seed_ok(src, Map::empty(), edges[ix], start));
        assert(src[n].minimal_cost == edges[ix].2);
        let idxs = seq![ix];
        assert(is_walk(edges, start, idxs));
        assert(walk_cost(edges, idxs) == edges[ix].2) by {
            assert(idxs.drop_last() =~= Seq::<int>::empty());
            assert(walk_cost(edges, idxs.drop_last()) == 0);
        }
        assert(forall|m: int| 0 <= m < idxs.len() ==> edges[#[trigger] idxs[m]].1 == path[m + 1]);
    } else {
        assert(p != start);
        assert(src[n].minimal_cost <= i32::MAX);
        assert(edge_ok(src, Map::empty(), edges[ix]));
        assert(src[n].minimal_cost == src[p].minimal_cost + edges[ix].2);
        let prefix = path.drop_last();
        assert(forall|i: int| 0 <= i < prefix.len() ==> prefix[i] == path[i]);
        assert(prefix.last() == p);
        lemma_reported_cost_is_path_cost(g, start, prefix);
        let idxs0 = choose|idxs: Seq<int>|
            is_walk(edges, start, idxs) && idxs.len() == prefix.len() - 1 && (forall|m: int|
                0 <= m < idxs.len() ==> edges[#[trigger] idxs[m]].1 == prefix[m + 1])
                && walk_cost(edges, idxs) == src[prefix.last()].minimal_cost;
        let idxs = idxs0.push(ix);
        assert(edges[idxs0.last()].1 == prefix[idxs0.len() - 1 + 1]);
        assert(is_walk(edges, start, idxs)) by {
            assert(forall|m: int| 0 <= m < idxs0.len() ==> idxs[m] == idxs0[m]);
            assert(idxs[idxs.len() - 1] == ix);
        }
        assert(walk_cost(edges, idxs) == walk_cost(edges, idxs0) + edges[ix].2) by {
            assert(idxs.drop_last() =~= idxs0);
        }
        assert(forall|m: int| 0 <= m < idxs.len() ==> edges[#[trigger] idxs[m]].1 == path[m + 1]);
    }
}

/// Every cost the routing table records after a single query from `start`
/// on a fresh graph is realized by an actual walk from `start`: following
/// the well-founded predecessor links backward constructs it.
pub proof fn lemma_recorded_cost_is_realized(
    g: &Graph,
    start: Node,
    ord: Map<Node, nat>,
    n: Node,
)
    requires
        g.wf(),
        g.settled(),
        g.seeded(start),
        forall|m: Node| #[trigger] link_ok(g.sources_list@, g.edges@, m, start),
        lex_links(g.sources_list@, ord, start),
        g.sources_list@.contains_key(n),
    ensures
        exists|idxs: Seq<int>|
            is_walk(g.edges@, start, idxs) && g.edges@[idxs.last()].1 == n && walk_cost(
                g.edges@,
                idxs,
            ) == g.sources_list@[n].minimal_cost,
    decreases g.sources_list@[n].minimal_cost, ord[n],
{
    let edges = g.edges@;
    let src = g.sources_list@;
    let p = src[n].minimal_from;
    assert(g.entry_ok(n));
    assert(src[n].minimal_cost >= 0);
    assert(link_ok(src, edges, n, start));
    let ix = choose|ix: int|
        0 <= ix < edges.len() && (#[trigger] edges[ix]).0 == p && edges[ix].1 == n
            && src[n].minimal_cost >= edges[ix].2 && (p != start ==> src.contains_key(p)
            && src[n].minimal_cost >= src[p].minimal_cost + edges[ix].2);
    if p == start {
        assert(seed_ok(src, Map::empty(), edges[ix], start));
        assert(src[n].minimal_cost == edges[ix].2);
        let idxs = seq![ix];
        assert(is_walk(edges, start, idxs));
        assert(walk_cost(edges, idxs) == edges[ix].2) by {
            assert(idxs.drop_last() =~= Seq::<int>::empty());
            assert(walk_cost(edges, idxs.drop_last()) == 0);
        }
    } else {
        assert(src[n].minimal_cost <= i32::MAX);
        assert(edge_ok(src, Map::empty(), edges[ix]));
        assert(src[n].minimal_cost == src[p].minimal_cost + edges[ix].2);
        assert(lex_before(src, ord, p, n));
        assert(g.entry_ok(p));
        assert(src[p].minimal_cost >= 0);
        lemma_recorded_cost_is_realized(g, start, ord, p);
        let idxs0 = choose|idxs: Seq<int>|
            is_walk(edges, start, idxs) && edges[idxs.last()].1 == p && walk_cost(edges, idxs)
                == src[p].minimal_cost;
        let idxs = idxs0.push(ix);
        assert(is_walk(edges, start, idxs)) by {
            assert(forall|m: int| 0 <= m < idxs0.len() ==> idxs[m] == idxs0[m]);
            assert(idxs[idxs.len() - 1] == ix);
        }
        assert(walk_cost(edges, idxs) == walk_cost(edges, idxs0) + edges[ix].2) by {
            assert(idxs.drop_last() =~= idxs0);
        }
        assert(edges[idxs.last()].1 == n);
    }
}

/// The cost a fresh single query reports depends on the edge list, the
/// start and the goal alone: two graphs over the same edges, each settled by
/// a query from `start` with well-founded links, record the same minimum for
/// every node the first one reached. Repeating a query on an identically
/// built graph therefore reports the same cost.
pub proof fn lemma_same_cost_on_equal_graphs(
    g1: &Graph,
    g2: &Graph,
    start: Node,
    goal: Node,
    ord1: Map<Node, nat>,
    ord2: Map<Node, nat>,
)
    requires
        g1.edges@ == g2.edges@,
        nonneg_edges(g1.edges@),
        g1.wf(),
        g1.settled(),
        g1.seeded(start),
        forall|m: Node| #[trigger] link_ok(g1.sources_list@, g1.edges@, m, start),
        lex_links(g1.sources_list@, ord1, start),
        g2.wf(),
        g2.settled(),
        g2.seeded(start),
        forall|m: Node| #[trigger] link_ok(g2.sources_list@, g2.edges@, m, start),
        lex_links(g2.sources_list@, ord2, start),
        g1.sources_list@.contains_key(goal),
    ensures
        g2.sources_list@.contains_key(goal),
        g2.sources_list@[goal].minimal_cost == g1.sources_list@[goal].minimal_cost,
{
    let edges = g1.edges@;
    lemma_recorded_cost_is_realized(g1, start, ord1, goal);
    let w1 = choose|idxs: Seq<int>|
        is_walk(edges, start, idxs) && edges[idxs.last()].1 == goal && walk_cost(edges, idxs)
            == g1.sources_list@[goal].minimal_cost;
    lemma_no_cheaper_walk(g2, start, w1);
    lemma_recorded_cost_is_realized(g2, start, ord2, goal);
    let w2 = choose|idxs: Seq<int>|
        is_walk(edges, start, idxs) && edges[idxs.last()].1 == goal && walk_cost(edges, idxs)
            == g2.sources_list@[goal].minimal_cost;
    lemma_no_cheaper_walk(g1, start, w2);
}

/// No route is cheaper than the routing table records: after a query from
/// `start` (which leaves the graph settled and seeded), every walk from
/// `start` whose total cost fits in 32 bits ends at a node with a routing
/// entry of at most the walk's cost. In particular, the cost that
/// `shortest_path` reports for a goal — the goal's `minimal_cost` — is a
/// lower bound on the cost of every path from `start` to that goal.
pub proof fn lemma_no_cheaper_walk(g: &Graph, start: Node, idxs: Seq<int>)
    requires
        g.settled(),
        g.seeded(start),
        nonneg_edges(g.edges@),
        is_walk(g.edges@, start, idxs),
        walk_cost(g.edges@, idxs) <= i32::MAX,
    ensures
        g.sources_list@.contains_key(g.edges@[idxs.last()].1),
        g.sources_list@[g.edges@[idxs.last()].1].minimal_cost <= walk_cost(g.edges@, idxs),
    decreases idxs.len(),
{
    let edges = g.edges@;
    let e = edges[idxs.last()];
    if idxs.len() == 1 {
        assert(seed_ok(g.sources_list@, Map::empty(), e, start));
        assert(walk_cost(edges, idxs) == e.2) by {
            assert(idxs.drop_last().len() == 0);
            assert(walk_cost(edges, idxs.drop_last()) == 0);
        }
    } else {
        let prefix = idxs.drop_last();
        assert(is_walk(edges, start, prefix)) by {
            assert(forall|m: int| 0 <= m < prefix.len() ==> prefix[m] == idxs[m]);
        }
        assert(e.2 >= 0);
        lemma_no_cheaper_walk(g, start, prefix);
        let u = edges[prefix.last()].1;
        assert(u == e.0);
        assert(g.sources_list@[u].minimal_cost + e.2 <= i32::MAX);
        assert(edge_ok(g.sources_list@, Map::empty(), e));
    }
}

} // verus!
