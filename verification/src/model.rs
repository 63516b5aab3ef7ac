//! Mathematical model of the edge list: which edges a graph holds, and what
//! the outgoing edges of a node are.

use vstd::prelude::*;

use crate::Cost;
use crate::Edge;
use crate::Node;

verus! {

/// The outgoing `(destination, cost)` pairs of node `n`, in the order the
/// edges appear in `edges`. This is what the adjacency index stores per node.
pub open spec fn edges_from(edges: Seq<Edge>, n: Node) -> Seq<(Node, Cost)>
    decreases edges.len(),
{
    if edges.len() == 0 {
        Seq::empty()
    } else {
        let rest = edges_from(edges.drop_last(), n);
        let e = edges.last();
        if e.0 == n {
            rest.push((e.1, e.2))
        } else {
            rest
        }
    }
}

/// Some edge from `f` to `t` (of whatever cost) is in the edge list.
pub open spec fn has_pair(edges: Seq<Edge>, f: Node, t: Node) -> bool {
    exists|i: int| 0 <= i < edges.len() && (#[trigger] edges[i]).0 == f && edges[i].1 == t
}

/// Every edge cost is non-negative. The algorithm's termination and
/// optimality argument rests on this; it is a caller obligation.
pub open spec fn nonneg_edges(edges: Seq<Edge>) -> bool {
    forall|i: int| 0 <= i < edges.len() ==> (#[trigger] edges[i]).2 >= 0
}

/// A non-empty walk through the graph, given as a sequence of edge indices:
/// the first edge leaves `start`, and each further edge leaves the node the
/// previous one entered. Nodes and edges may repeat.
pub open spec fn is_walk(edges: Seq<Edge>, start: Node, idxs: Seq<int>) -> bool {
    &&& idxs.len() >= 1
    &&& forall|m: int| 0 <= m < idxs.len() ==> 0 <= #[trigger] idxs[m] < edges.len()
    &&& edges[idxs[0]].0 == start
    &&& forall|m: int| 0 < m < idxs.len() ==> edges[#[trigger] idxs[m]].0 == edges[idxs[m - 1]].1
}

/// The total cost of a walk: the sum of its edges' costs.
pub open spec fn walk_cost(edges: Seq<Edge>, idxs: Seq<int>) -> int
    decreases idxs.len(),
{
    if idxs.len() == 0 {
        0
    } else {
        walk_cost(edges, idxs.drop_last()) + edges[idxs.last()].2
    }
}

/// There are no more outgoing edges of `n` than edges in total.
pub proof fn lemma_edges_from_len(edges: Seq<Edge>, n: Node)
    ensures
        edges_from(edges, n).len() <= edges.len(),
    decreases edges.len(),
{
    if edges.len() > 0 {
        lemma_edges_from_len(edges.drop_last(), n);
    }
}

/// Every outgoing pair of `n` comes from an actual edge of the list.
pub proof fn lemma_edges_from_member(edges: Seq<Edge>, n: Node, j: int)
    requires
        0 <= j < edges_from(edges, n).len(),
    ensures
        exists|i: int|
            0 <= i < edges.len() && #[trigger] edges[i] == (
            n,
            edges_from(edges, n)[j].0,
            edges_from(edges, n)[j].1,
            ),
    decreases edges.len(),
{
    let out = edges_from(edges, n);
    let rest = edges_from(edges.drop_last(), n);
    if edges.last().0 == n && j == out.len() - 1 {
        assert(edges[edges.len() - 1] == (n, out[j].0, out[j].1));
    } else {
        lemma_edges_from_member(edges.drop_last(), n, j);
        let i = choose|i: int|
            0 <= i < edges.drop_last().len() && #[trigger] edges.drop_last()[i] == (
            n,
            rest[j].0,
            rest[j].1,
            );
        assert(edges[i] == (n, out[j].0, out[j].1));
    }
}

/// An outgoing pair of `n` names a real edge pair of the graph, and its cost
/// is non-negative whenever all edge costs are.
pub proof fn lemma_out_edge_facts(edges: Seq<Edge>, n: Node, j: int)
    requires
        0 <= j < edges_from(edges, n).len(),
    ensures
        has_pair(edges, n, edges_from(edges, n)[j].0),
        nonneg_edges(edges) ==> edges_from(edges, n)[j].1 >= 0,
{
    lemma_edges_from_member(edges, n, j);
    let out = edges_from(edges, n);
    let i = choose|i: int|
        0 <= i < edges.len() && #[trigger] edges[i] == (n, out[j].0, out[j].1);
    assert(edges[i].0 == n && edges[i].1 == out[j].0);
}

/// Conversely, every edge out of `n` shows up among `n`'s outgoing pairs.
pub proof fn lemma_edge_in_edges_from(edges: Seq<Edge>, i: int)
    requires
        0 <= i < edges.len(),
    ensures
        exists|j: int|
            0 <= j < edges_from(edges, edges[i].0).len() && edges_from(edges, edges[i].0)[j] == (
            edges[i].1,
            edges[i].2,
            ),
    decreases edges.len(),
{
    let n = edges[i].0;
    let out = edges_from(edges, n);
    let rest = edges_from(edges.drop_last(), n);
    if i == edges.len() - 1 {
        assert(out[out.len() - 1] == (edges[i].1, edges[i].2));
    } else {
        assert(edges.drop_last()[i] == edges[i]);
        lemma_edge_in_edges_from(edges.drop_last(), i);
        let j = choose|j: int| 0 <= j < rest.len() && rest[j] == (edges[i].1, edges[i].2);
        assert(out[j] == (edges[i].1, edges[i].2));
    }
}

} // verus!
