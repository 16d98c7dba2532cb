//! The inference step that the solver is run with: which edge to add to the
//! facts, and which facts to remove once nothing can be added.

use linear_solver::Inference;
use std::collections::HashSet;
use vstd::prelude::*;

use crate::graph::{end_to_end, enters, has_edge, leaves, reaches, walk};
use crate::graph::lemma_reaches_ends;

verus! {

/// `linear_solver::Inference`: what an inference step tells the solver to do
/// with its facts.
///
/// The variants are read from the crate as they are defined there; nothing
/// is claimed of them here. The step below builds `Propagate`, which names a
/// fact to be added, and `ManyTrue`, which names facts to be removed.
#[verifier::external_type_specification]
#[verifier::reject_recursive_types(T)]
pub struct ExInference<T>(Inference<T>);

/// The edge from where `x` starts to where `y` ends.
pub open spec fn composed(x: [usize; 2], y: [usize; 2]) -> [usize; 2] {
    [x[0], y[1]]
}

/// Fact `j` starts where fact `i` ends, and the edge composed of the two is
/// not in the cache.
pub open spec fn composable(cache: Set<[usize; 2]>, facts: Seq<[usize; 2]>, i: int, j: int) -> bool {
    &&& 0 <= i < facts.len()
    &&& 0 <= j < facts.len()
    &&& facts[i][1] == facts[j][0]
    &&& !cache.contains(composed(facts[i], facts[j]))
}

/// The pair `(i, j)` is the first composable one, going through the pairs
/// with `i` ascending and, for one `i`, with `j` ascending.
pub open spec fn first_composable(
    cache: Set<[usize; 2]>,
    facts: Seq<[usize; 2]>,
    i: int,
    j: int,
) -> bool {
    &&& composable(cache, facts, i, j)
    &&& forall|k: int, l: int| k < i || (k == i && l < j) ==> !composable(cache, facts, k, l)
}

/// The edge `p` is composed of the first composable pair of facts.
pub open spec fn propagates(cache: Set<[usize; 2]>, facts: Seq<[usize; 2]>, p: [usize; 2]) -> bool {
    exists|i: int, j: int| #[trigger]
        first_composable(cache, facts, i, j) && p == composed(facts[i], facts[j])
}

/// No two facts compose to an edge that the cache lacks.
pub open spec fn saturated(cache: Set<[usize; 2]>, facts: Seq<[usize; 2]>) -> bool {
    forall|i: int, j: int| !composable(cache, facts, i, j)
}

/// The fact `x` does not lead from an initial node to a terminal one, as `y`
/// shows: `y` starts where `x` ends, or ends where `x` starts.
pub open spec fn beside(x: [usize; 2], y: [usize; 2]) -> bool {
    y[0] == x[1] || x[0] == y[1]
}

/// Fact `i`, once for each of the first `n` facts that it stands beside.
pub open spec fn marks_of(facts: Seq<[usize; 2]>, i: int, n: nat) -> Seq<[usize; 2]>
    decreases n,
{
    if n == 0 {
        Seq::empty()
    } else if beside(facts[i], facts[n - 1]) {
        marks_of(facts, i, (n - 1) as nat).push(facts[i])
    } else {
        marks_of(facts, i, (n - 1) as nat)
    }
}

/// The marks of the first `n` facts, one fact after the other.
pub open spec fn marks(facts: Seq<[usize; 2]>, n: nat) -> Seq<[usize; 2]>
    decreases n,
{
    if n == 0 {
        Seq::empty()
    } else {
        marks(facts, (n - 1) as nat) + marks_of(facts, n - 1, facts.len())
    }
}

/// What an inference step on `facts` with `cache` gives: the edge composed of
/// the first composable pair of facts, to be added; or, where no pair is
/// composable, the facts to be removed, each as often as it has a fact
/// beside it.
pub open spec fn inferred(
    cache: Set<[usize; 2]>,
    facts: Seq<[usize; 2]>,
    step: Option<Inference<[usize; 2]>>,
) -> bool {
    match step {
        Some(Inference::Propagate(p)) => propagates(cache, facts, p),
        Some(Inference::ManyTrue { from }) => saturated(cache, facts) && from@ == marks(
            facts,
            facts.len(),
        ),
        _ => false,
    }
}

/// `HashSet::contains` of the standard library: whether the set holds `p`.
#[verifier::external_body]
fn cached(cache: &HashSet<[usize; 2]>, p: &[usize; 2]) -> (found: bool)
    ensures
        found == cache@.contains(*p),
{
    cache.contains(p)
}

/// Appends to `from` the fact `i`, once for each fact that it stands beside.
fn mark(facts: &[[usize; 2]], i: usize, from: &mut Vec<[usize; 2]>)
    requires
        i < facts.len(),
    ensures
        final(from)@ == old(from)@ + marks_of(facts@, i as int, facts@.len()),
{
    let ea: [usize; 2] = facts[i];
    let mut j: usize = 0;
    while j < facts.len()
        invariant
            j <= facts.len(),
            i < facts.len(),
            ea == facts[i as int],
            from@ == old(from)@ + marks_of(facts@, i as int, j as nat),
        decreases facts.len() - j,
    {
        let eb: [usize; 2] = facts[j];
        if eb[0] == ea[1] || ea[0] == eb[1] {
            from.push(ea);
        }
        j += 1;
        assert(from@ =~= old(from)@ + marks_of(facts@, i as int, j as nat));
    }
}

/// The inference step of the solver.
///
/// Two facts of which the second starts where the first ends compose to an
/// edge; the first such edge that the cache lacks is to be added. Once there
/// is none, every fact that has another beside it is to be removed: what
/// stays leads from an initial node to a terminal one.
pub fn infer(cache: &HashSet<[usize; 2]>, facts: &[[usize; 2]]) -> (step: Option<Inference<[usize; 2]>>)
    ensures
        inferred(cache@, facts@, step),
{
    let mut i: usize = 0;
    while i < facts.len()
        invariant
            i <= facts.len(),
            forall|k: int, l: int| k < i ==> !composable(cache@, facts@, k, l),
        decreases facts.len() - i,
    {
        let ea: [usize; 2] = facts[i];
        let mut j: usize = 0;
        while j < facts.len()
            invariant
                i < facts.len(),
                j <= facts.len(),
                ea == facts[i as int],
                forall|k: int, l: int|
                    k < i || (k == i && l < j) ==> !composable(cache@, facts@, k, l),
            decreases facts.len() - j,
        {
            let eb: [usize; 2] = facts[j];
            if ea[1] == eb[0] {
                let p: [usize; 2] = [ea[0], eb[1]];
                assert(p == composed(facts@[i as int], facts@[j as int]));
                if !cached(cache, &p) {
                    assert(first_composable(cache@, facts@, i as int, j as int));
                    return Some(Inference::Propagate(p));
                }
            }
            j += 1;
        }
        i += 1;
    }
    let mut from: Vec<[usize; 2]> = Vec::new();
    let mut i: usize = 0;
    while i < facts.len()
        invariant
            i <= facts.len(),
            from@ == marks(facts@, i as nat),
        decreases facts.len() - i,
    {
        mark(facts, i, &mut from);
        i += 1;
    }
    Some(Inference::ManyTrue { from })
}

/// A fact is among the marks exactly if it has a fact beside it.
pub proof fn lemma_marks(facts: Seq<[usize; 2]>, e: [usize; 2])
    ensures
        marks(facts, facts.len()).contains(e) <==> exists|i: int, j: int|
            0 <= i < facts.len() && 0 <= j < facts.len() && facts[i] == e && #[trigger] beside(
                facts[i],
                facts[j],
            ),
{
    lemma_marks_upto(facts, facts.len(), e);
}

/// A fact is among the marks of the first `n` facts exactly if it is one of
/// them and has a fact beside it.
proof fn lemma_marks_upto(facts: Seq<[usize; 2]>, n: nat, e: [usize; 2])
    requires
        n <= facts.len(),
    ensures
        marks(facts, n).contains(e) <==> exists|i: int, j: int|
            0 <= i < n && 0 <= j < facts.len() && facts[i] == e && #[trigger] beside(
                facts[i],
                facts[j],
            ),
    decreases n,
{
    if n > 0 {
        let before = marks(facts, (n - 1) as nat);
        let row = marks_of(facts, n - 1, facts.len());
        lemma_marks_upto(facts, (n - 1) as nat, e);
        lemma_marks_of(facts, n - 1, facts.len(), e);
        if (before + row).contains(e) {
            let k = choose|k: int| 0 <= k < (before + row).len() && (before + row)[k] == e;
            if k < before.len() {
                assert(before[k] == e);
                assert(before.contains(e));
                let (i, j) = choose|i: int, j: int|
                    0 <= i < n - 1 && 0 <= j < facts.len() && facts[i] == e && #[trigger] beside(
                        facts[i],
                        facts[j],
                    );
                assert(0 <= i < n && beside(facts[i], facts[j]));
            } else {
                assert(row[k - before.len()] == e);
                assert(row.contains(e));
                let j = choose|j: int| 0 <= j < facts.len() && #[trigger] beside(facts[n - 1], facts[j]);
                assert(0 <= n - 1 < n && beside(facts[n - 1], facts[j]));
            }
        }
        if exists|i: int, j: int|
            0 <= i < n && 0 <= j < facts.len() && facts[i] == e && #[trigger] beside(
                facts[i],
                facts[j],
            ) {
            let (i, j) = choose|i: int, j: int|
                0 <= i < n && 0 <= j < facts.len() && facts[i] == e && #[trigger] beside(
                    facts[i],
                    facts[j],
                );
            if i < n - 1 {
                assert(beside(facts[i], facts[j]));
                assert(before.contains(e));
                let k = choose|k: int| 0 <= k < before.len() && before[k] == e;
                assert((before + row)[k] == e);
            } else {
                assert(beside(facts[n - 1], facts[j]));
                assert(row.contains(e));
                let k = choose|k: int| 0 <= k < row.len() && row[k] == e;
                assert((before + row)[before.len() + k] == e);
            }
        }
    }
}

/// Fact `i` is among its own marks exactly if one of the first `n` facts
/// stands beside it, and nothing else is among them.
proof fn lemma_marks_of(facts: Seq<[usize; 2]>, i: int, n: nat, e: [usize; 2])
    requires
        0 <= i < facts.len(),
        n <= facts.len(),
    ensures
        marks_of(facts, i, n).contains(e) <==> facts[i] == e && exists|j: int|
            0 <= j < n && #[trigger] beside(facts[i], facts[j]),
    decreases n,
{
    if n > 0 {
        let before = marks_of(facts, i, (n - 1) as nat);
        let now = marks_of(facts, i, n);
        lemma_marks_of(facts, i, (n - 1) as nat, e);
        if now.contains(e) {
            let k = choose|k: int| 0 <= k < now.len() && now[k] == e;
            if k < before.len() {
                assert(before[k] == e);
                assert(before.contains(e));
                let j = choose|j: int| 0 <= j < n - 1 && #[trigger] beside(facts[i], facts[j]);
                assert(0 <= j < n && beside(facts[i], facts[j]));
            } else {
                assert(beside(facts[i], facts[n - 1]));
            }
        }
        if facts[i] == e && exists|j: int| 0 <= j < n && #[trigger] beside(facts[i], facts[j]) {
            let j = choose|j: int| 0 <= j < n && #[trigger] beside(facts[i], facts[j]);
            if j < n - 1 {
                assert(beside(facts[i], facts[j]));
                assert(before.contains(e));
                let k = choose|k: int| 0 <= k < before.len() && before[k] == e;
                assert(now[k] == e);
            } else {
                assert(now[now.len() - 1] == e);
            }
        }
    }
}

/// Facts of which none has another beside it get no marks.
pub proof fn lemma_no_marks(facts: Seq<[usize; 2]>, n: nat)
    requires
        n <= facts.len(),
        forall|i: int, j: int|
            0 <= i < facts.len() && 0 <= j < facts.len() ==> !beside(facts[i], facts[j]),
    ensures
        marks(facts, n) == Seq::<[usize; 2]>::empty(),
    decreases n,
{
    if n > 0 {
        lemma_no_marks(facts, (n - 1) as nat);
        lemma_no_marks_of(facts, n - 1, facts.len());
        assert(marks(facts, n) =~= Seq::<[usize; 2]>::empty());
    }
}

/// A fact that has none of the first `n` facts beside it gets no mark from
/// them.
proof fn lemma_no_marks_of(facts: Seq<[usize; 2]>, i: int, n: nat)
    requires
        0 <= i < facts.len(),
        n <= facts.len(),
        forall|j: int| 0 <= j < facts.len() ==> !beside(facts[i], facts[j]),
    ensures
        marks_of(facts, i, n) == Seq::<[usize; 2]>::empty(),
    decreases n,
{
    if n > 0 {
        lemma_no_marks_of(facts, i, (n - 1) as nat);
    }
}

/// The facts hold every edge of the graph, and only pairs of a node and a
/// node that can be reached from it.
pub open spec fn extends(graph: Seq<[usize; 2]>, facts: Seq<[usize; 2]>) -> bool {
    &&& forall|e: [usize; 2]| graph.contains(e) ==> facts.contains(e)
    &&& forall|k: int| 0 <= k < facts.len() ==> reaches(graph, (#[trigger] facts[k])[0], facts[k][1])
}

/// Facts that extend a graph and among which the inference step finds
/// nothing to compose, with the facts themselves as the cache, hold every
/// pair of a node and a node that a walk of `n` edges leads to.
proof fn lemma_saturated_holds_walk(
    graph: Seq<[usize; 2]>,
    facts: Seq<[usize; 2]>,
    a: usize,
    b: usize,
    n: nat,
)
    requires
        extends(graph, facts),
        saturated(facts.to_set(), facts),
        n >= 1,
        walk(graph, a, b, n),
    ensures
        facts.contains([a, b]),
    decreases n,
{
    let m = choose|m: usize| #[trigger] has_edge(graph, a, m) && walk(graph, m, b, (n - 1) as nat);
    let k = choose|k: int| 0 <= k < graph.len() && (#[trigger] graph[k])[0] == a && graph[k][1] == m;
    assert(graph.contains(graph[k]));
    let i = choose|i: int| 0 <= i < facts.len() && facts[i] == graph[k];
    if n == 1 {
        assert(facts[i] =~= [a, b]);
    } else {
        lemma_saturated_holds_walk(graph, facts, m, b, (n - 1) as nat);
        let j = choose|j: int| 0 <= j < facts.len() && facts[j] == [m, b];
        assert(!composable(facts.to_set(), facts, i, j));
        assert(composed(facts[i], facts[j]) =~= [a, b]);
    }
}

/// Composing until nothing new comes of it gives the whole of what can be
/// reached: facts that extend a graph and among which the inference step
/// finds nothing to compose, with the facts themselves as the cache, hold
/// every pair of a node and a node that can be reached from it.
pub proof fn lemma_saturated_is_closure(graph: Seq<[usize; 2]>, facts: Seq<[usize; 2]>)
    requires
        extends(graph, facts),
        saturated(facts.to_set(), facts),
    ensures
        forall|a: usize, b: usize| #[trigger] reaches(graph, a, b) <==> facts.contains([a, b]),
{
    assert forall|a: usize, b: usize| #[trigger] reaches(graph, a, b) <==> facts.contains(
        [a, b],
    ) by {
        if reaches(graph, a, b) {
            let n = choose|n: nat| n >= 1 && #[trigger] walk(graph, a, b, n);
            lemma_saturated_holds_walk(graph, facts, a, b, n);
        }
        if facts.contains([a, b]) {
            let k = choose|k: int| 0 <= k < facts.len() && facts[k] == [a, b];
            assert(reaches(graph, facts[k][0], facts[k][1]));
        }
    }
}

/// The facts that the inference step then leaves are the answer: among
/// facts as above, those without another fact beside them are exactly the
/// pairs that lead from an initial node of the graph to a terminal node that
/// can be reached from it, and every such pair is among them.
pub proof fn lemma_unmarked_are_end_to_end(graph: Seq<[usize; 2]>, facts: Seq<[usize; 2]>)
    requires
        extends(graph, facts),
        saturated(facts.to_set(), facts),
    ensures
        forall|i: int|
            0 <= i < facts.len() ==> (end_to_end(graph, #[trigger] facts[i]) <==> forall|j: int|
                0 <= j < facts.len() ==> !beside(facts[i], facts[j])),
        forall|e: [usize; 2]| end_to_end(graph, e) ==> facts.contains(e),
{
    lemma_saturated_is_closure(graph, facts);
    assert forall|e: [usize; 2]| end_to_end(graph, e) implies facts.contains(e) by {
        assert(facts.contains([e[0], e[1]]));
        assert(e =~= [e[0], e[1]]);
    }
    assert forall|i: int| 0 <= i < facts.len() implies (end_to_end(graph, #[trigger] facts[i])
        <==> forall|j: int| 0 <= j < facts.len() ==> !beside(facts[i], facts[j])) by {
        let a = facts[i][0];
        let b = facts[i][1];
        assert(reaches(graph, a, b));
        if end_to_end(graph, facts[i]) {
            assert forall|j: int| 0 <= j < facts.len() implies !beside(facts[i], facts[j]) by {
                assert(reaches(graph, facts[j][0], facts[j][1]));
                lemma_reaches_ends(graph, facts[j][0], facts[j][1]);
            }
        }
        if forall|j: int| 0 <= j < facts.len() ==> !beside(facts[i], facts[j]) {
            if enters(graph, a) {
                let k = choose|k: int| 0 <= k < graph.len() && (#[trigger] graph[k])[1] == a;
                assert(graph.contains(graph[k]));
                let j = choose|j: int| 0 <= j < facts.len() && facts[j] == graph[k];
                assert(beside(facts[i], facts[j]));
            }
            if leaves(graph, b) {
                let k = choose|k: int| 0 <= k < graph.len() && (#[trigger] graph[k])[0] == b;
                assert(graph.contains(graph[k]));
                let j = choose|j: int| 0 <= j < facts.len() && facts[j] == graph[k];
                assert(beside(facts[i], facts[j]));
            }
        }
    }
}

} // verus!
