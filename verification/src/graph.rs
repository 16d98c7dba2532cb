//! Directed graphs as lists of edges: what it means for a node to be initial
//! or terminal, and for one node to reach another.

use vstd::prelude::*;

verus! {

/// The graph has an edge from `a` to `b`.
pub open spec fn has_edge(graph: Seq<[usize; 2]>, a: usize, b: usize) -> bool {
    exists|k: int| 0 <= k < graph.len() && (#[trigger] graph[k])[0] == a && graph[k][1] == b
}

/// Some edge of the graph starts at `v`.
pub open spec fn leaves(graph: Seq<[usize; 2]>, v: usize) -> bool {
    exists|k: int| 0 <= k < graph.len() && (#[trigger] graph[k])[0] == v
}

/// Some edge of the graph ends at `v`.
pub open spec fn enters(graph: Seq<[usize; 2]>, v: usize) -> bool {
    exists|k: int| 0 <= k < graph.len() && (#[trigger] graph[k])[1] == v
}

/// No edge ends at `v`.
pub open spec fn is_initial(graph: Seq<[usize; 2]>, v: usize) -> bool {
    !enters(graph, v)
}

/// No edge starts at `v`.
pub open spec fn is_terminal(graph: Seq<[usize; 2]>, v: usize) -> bool {
    !leaves(graph, v)
}

/// There is a walk of exactly `n` edges from `a` to `b`.
pub open spec fn walk(graph: Seq<[usize; 2]>, a: usize, b: usize, n: nat) -> bool
    decreases n,
{
    if n == 0 {
        a == b
    } else {
        exists|m: usize| #[trigger] has_edge(graph, a, m) && walk(graph, m, b, (n - 1) as nat)
    }
}

/// `b` can be reached from `a` along one edge or more.
pub open spec fn reaches(graph: Seq<[usize; 2]>, a: usize, b: usize) -> bool {
    exists|n: nat| n >= 1 && #[trigger] walk(graph, a, b, n)
}

/// The pair `e` leads from an initial node of the graph to a terminal node
/// that can be reached from it.
pub open spec fn end_to_end(graph: Seq<[usize; 2]>, e: [usize; 2]) -> bool {
    is_initial(graph, e[0]) && is_terminal(graph, e[1]) && reaches(graph, e[0], e[1])
}

/// A walk followed by a walk is a walk.
pub proof fn lemma_walk_join(graph: Seq<[usize; 2]>, a: usize, b: usize, c: usize, n: nat, k: nat)
    requires
        walk(graph, a, b, n),
        walk(graph, b, c, k),
    ensures
        walk(graph, a, c, n + k),
    decreases n,
{
    if n > 0 {
        let m = choose|m: usize| #[trigger] has_edge(graph, a, m) && walk(graph, m, b, (n - 1) as nat);
        lemma_walk_join(graph, m, b, c, (n - 1) as nat, k);
        assert(has_edge(graph, a, m) && walk(graph, m, c, (n + k - 1) as nat));
    }
}

/// Reaching is transitive.
pub proof fn lemma_reaches_trans(graph: Seq<[usize; 2]>, a: usize, b: usize, c: usize)
    requires
        reaches(graph, a, b),
        reaches(graph, b, c),
    ensures
        reaches(graph, a, c),
{
    let n = choose|n: nat| n >= 1 && #[trigger] walk(graph, a, b, n);
    let k = choose|k: nat| k >= 1 && #[trigger] walk(graph, b, c, k);
    lemma_walk_join(graph, a, b, c, n, k);
    assert(walk(graph, a, c, n + k));
}

/// An edge is a walk of one edge.
pub proof fn lemma_edge_reaches(graph: Seq<[usize; 2]>, k: int)
    requires
        0 <= k < graph.len(),
    ensures
        reaches(graph, graph[k][0], graph[k][1]),
{
    let a = graph[k][0];
    let b = graph[k][1];
    assert(has_edge(graph, a, b));
    assert(walk(graph, b, b, 0));
    assert(walk(graph, a, b, 1));
}

/// Whoever reaches a node starts an edge, and the node ends one.
pub proof fn lemma_reaches_ends(graph: Seq<[usize; 2]>, a: usize, b: usize)
    requires
        reaches(graph, a, b),
    ensures
        leaves(graph, a),
        enters(graph, b),
{
    let n = choose|n: nat| n >= 1 && #[trigger] walk(graph, a, b, n);
    lemma_walk_ends(graph, a, b, n);
}

/// A walk of one edge or more starts with an edge and ends with one.
pub proof fn lemma_walk_ends(graph: Seq<[usize; 2]>, a: usize, b: usize, n: nat)
    requires
        n >= 1,
        walk(graph, a, b, n),
    ensures
        leaves(graph, a),
        enters(graph, b),
    decreases n,
{
    let m = choose|m: usize| #[trigger] has_edge(graph, a, m) && walk(graph, m, b, (n - 1) as nat);
    let k = choose|k: int| 0 <= k < graph.len() && (#[trigger] graph[k])[0] == a && graph[k][1] == m;
    assert(leaves(graph, a));
    if n == 1 {
        assert(m == b);
        assert(enters(graph, b));
    } else {
        lemma_walk_ends(graph, m, b, (n - 1) as nat);
    }
}

} // verus!
