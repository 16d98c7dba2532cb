//! Reachability in directed graphs given as lists of edges, and maps that
//! draw such graphs on a grid.
//!
//! An edge is a pair of node numbers, `[from, to]`. A node is initial if no
//! edge ends at it and terminal if no edge starts at it. [`solve`] reduces a
//! graph to pairs that lead from an initial node to a terminal node that can
//! be reached from it.
//!
//! - [`graph`] says what initial, terminal and reachable mean.
//! - [`inference`] holds the step that the solver is run with, and shows
//!   why composing edges and then dropping what has a neighbour gives the
//!   answer.
//! - [`etch`] wears a graph down layer by layer and counts the layers.
//! - [`shapes`] makes lines and rectangles.
//! - [`map`] draws a graph on a grid of cells and shows the cells as text.
//!
//! Graphs are meant to be small: [`solve`] takes graphs of at most
//! [`MAX_EDGES`] edges, which [`can_solve`] tests.
//!
//! Everything here is proved but for three calls, whose contracts are taken
//! on trust and say what is claimed: the run of the solver of
//! `linear_solver`, behind [`solve`], and `HashSet::contains` and
//! `String::push` of the standard library.

use vstd::prelude::*;

pub mod etch;
pub mod graph;
pub mod inference;
pub mod map;
pub mod shapes;

use crate::graph::{end_to_end, enters, has_edge, is_initial, is_terminal, leaves, reaches, walk};
use crate::graph::{lemma_edge_reaches, lemma_reaches_ends, lemma_reaches_trans};
use crate::inference::{beside, composable, composed, first_composable, infer, marks, propagates, saturated};
use crate::inference::{lemma_marks, lemma_no_marks};

verus! {

/// The fact `e` is had from `input` in at most `rounds` rounds: it is a fact
/// of `input`, or the inference step proposes to add it to a list of facts,
/// with some cache, each of which is had in fewer rounds.
pub open spec fn obtained(input: Seq<[usize; 2]>, e: [usize; 2], rounds: nat) -> bool
    decreases rounds,
{
    input.contains(e) || (rounds > 0 && exists|cache: Set<[usize; 2]>, facts: Seq<[usize; 2]>| #[trigger]
        propagates(cache, facts, e) && forall|k: int|
            0 <= k < facts.len() ==> obtained(input, #[trigger] facts[k], (rounds - 1) as nat))
}

/// Every one of the facts is had from `input`, in some number of rounds.
pub open spec fn all_obtained(input: Seq<[usize; 2]>, facts: Seq<[usize; 2]>) -> bool {
    forall|k: int| 0 <= k < facts.len() ==> exists|n: nat| obtained(input, #[trigger] facts[k], n)
}

/// On `facts`, the inference step names the fact `e` among those to be
/// removed.
pub open spec fn removes(facts: Seq<[usize; 2]>, e: [usize; 2]) -> bool {
    marks(facts, facts.len()).contains(e)
}

/// The inference step names the fact `e` for removal on some list of facts
/// that were all had from `input`.
pub open spec fn discarded(input: Seq<[usize; 2]>, e: [usize; 2]) -> bool {
    exists|facts: Seq<[usize; 2]>| #[trigger] removes(facts, e) && all_obtained(input, facts)
}

/// The most edges that a graph may have to be solved.
pub const MAX_EDGES: usize = 512;

/// The graph is small enough to be solved: it has at most [`MAX_EDGES`]
/// edges.
///
/// The solver takes one round for each fact that it adds and a few more,
/// and in each round it puts one entry into a filter that has room for
/// `2^22` entries and cannot take more. The facts that can be added lead
/// from where an edge starts to where an edge ends, as
/// [`lemma_obtained_within`] shows, so a graph of `n` edges takes at most
/// `n * n + 3` rounds. With this bound that is about a sixteenth of the
/// filter's room.
pub open spec fn solvable(edges: Seq<[usize; 2]>) -> bool {
    edges.len() <= MAX_EDGES
}

/// Whether the graph is small enough to be solved, which is what [`solve`]
/// and [`etch::cardinality`] ask for.
pub fn can_solve(edges: &[[usize; 2]]) -> (ok: bool)
    ensures
        ok == solvable(edges@),
{
    edges.len() <= MAX_EDGES
}

/// `linear_solver::solve_minimum`, started on `edges` with [`infer`] as its
/// inference step.
///
/// The solver keeps a list of facts, which at first is `edges`. It calls the
/// inference step on that list again and again, adds the fact or removes the
/// facts that the step names, and in the end hands back the list as it stood
/// at one of these moments.
///
/// Stated here, of the list that is handed back:
/// - a fact in it is a fact of `edges`, or one that the step proposed on a
///   list of facts that were had in this same way: the solver puts no other
///   fact into its list;
/// - a fact of `edges` is in it, unless the step named that fact for removal
///   on such a list: the solver takes no other fact out of its list.
///
/// Not stated: at which moment the list is handed back. The solver tells a
/// list that it has seen before by a filter that can take one list for
/// another, so it may stop before the step has nothing left to propose.
///
/// Asked of the graph: that it is small enough, see [`solvable`]. The solver
/// panics when its filter finds no place for an entry, which the bound keeps
/// out of reach by keeping the filter nearly empty.
#[verifier::external_body]
fn run_solver(edges: &Vec<[usize; 2]>) -> (found: Vec<[usize; 2]>)
    requires
        solvable(edges@),
    ensures
        all_obtained(edges@, found@),
        forall|k: int|
            0 <= k < edges.len() ==> found@.contains(#[trigger] edges[k]) || discarded(
                edges@,
                edges[k],
            ),
{
    linear_solver::solve_minimum(edges.clone(), infer)
}

/// A fact had from a graph by inference leads from a node to a node that can
/// be reached from it.
pub proof fn lemma_obtained_reaches(input: Seq<[usize; 2]>, e: [usize; 2], rounds: nat)
    requires
        obtained(input, e, rounds),
    ensures
        reaches(input, e[0], e[1]),
    decreases rounds,
{
    if input.contains(e) {
        let k = choose|k: int| 0 <= k < input.len() && input[k] == e;
        lemma_edge_reaches(input, k);
    } else {
        let (cache, facts) = choose|cache: Set<[usize; 2]>, facts: Seq<[usize; 2]>| #[trigger]
            propagates(cache, facts, e) && forall|k: int|
                0 <= k < facts.len() ==> obtained(input, #[trigger] facts[k], (rounds - 1) as nat);
        let (i, j) = choose|i: int, j: int| #[trigger]
            first_composable(cache, facts, i, j) && e == composed(facts[i], facts[j]);
        lemma_obtained_reaches(input, facts[i], (rounds - 1) as nat);
        lemma_obtained_reaches(input, facts[j], (rounds - 1) as nat);
        lemma_reaches_trans(input, facts[i][0], facts[i][1], facts[j][1]);
    }
}

/// A fact had from a graph by inference starts where an edge of the graph
/// starts and ends where an edge of the graph ends: a graph of `n` edges
/// gives at most `n * n` facts.
pub proof fn lemma_obtained_within(input: Seq<[usize; 2]>, e: [usize; 2], rounds: nat)
    requires
        obtained(input, e, rounds),
    ensures
        leaves(input, e[0]),
        enters(input, e[1]),
{
    lemma_obtained_reaches(input, e, rounds);
    lemma_reaches_ends(input, e[0], e[1]);
}

/// A pair that leads from an initial node of a graph to a terminal one is
/// never named for removal.
pub proof fn lemma_kept(input: Seq<[usize; 2]>, e: [usize; 2])
    requires
        is_initial(input, e[0]),
        is_terminal(input, e[1]),
    ensures
        !discarded(input, e),
{
    if discarded(input, e) {
        let facts = choose|facts: Seq<[usize; 2]>| #[trigger]
            removes(facts, e) && all_obtained(input, facts);
        lemma_marks(facts, e);
        let (i, j) = choose|i: int, j: int|
            0 <= i < facts.len() && 0 <= j < facts.len() && facts[i] == e && #[trigger] beside(
                facts[i],
                facts[j],
            );
        let n = choose|n: nat| obtained(input, facts[j], n);
        lemma_obtained_reaches(input, facts[j], n);
        lemma_reaches_ends(input, facts[j][0], facts[j][1]);
    }
}

/// What is kept of `found`: the pairs that lead from an initial node of
/// `graph` to a terminal one, each where it first occurs.
pub open spec fn pruned(graph: Seq<[usize; 2]>, found: Seq<[usize; 2]>) -> Seq<[usize; 2]>
    decreases found.len(),
{
    if found.len() == 0 {
        Seq::empty()
    } else {
        let before = pruned(graph, found.drop_last());
        let e = found.last();
        if is_initial(graph, e[0]) && is_terminal(graph, e[1]) && !before.contains(e) {
            before.push(e)
        } else {
            before
        }
    }
}

/// What is kept holds a pair exactly if the pair was found and leads from an
/// initial node to a terminal one, and holds no pair twice.
pub proof fn lemma_pruned(graph: Seq<[usize; 2]>, found: Seq<[usize; 2]>)
    ensures
        forall|e: [usize; 2]| #[trigger]
            pruned(graph, found).contains(e) <==> found.contains(e) && is_initial(graph, e[0])
                && is_terminal(graph, e[1]),
        pruned(graph, found).no_duplicates(),
    decreases found.len(),
{
    if found.len() > 0 {
        let shorter = found.drop_last();
        let before = pruned(graph, shorter);
        let last = found.last();
        let kept = pruned(graph, found);
        lemma_pruned(graph, shorter);
        assert forall|e: [usize; 2]| #[trigger]
            kept.contains(e) <==> found.contains(e) && is_initial(graph, e[0]) && is_terminal(
                graph,
                e[1],
            ) by {
            if kept.contains(e) {
                let k = choose|k: int| 0 <= k < kept.len() && kept[k] == e;
                if k < before.len() {
                    assert(before[k] == e);
                    assert(before.contains(e));
                    assert(shorter.contains(e));
                    let l = choose|l: int| 0 <= l < shorter.len() && shorter[l] == e;
                    assert(found[l] == e);
                } else {
                    assert(e == last);
                    assert(found[found.len() - 1] == e);
                }
            }
            if found.contains(e) && is_initial(graph, e[0]) && is_terminal(graph, e[1]) {
                let l = choose|l: int| 0 <= l < found.len() && found[l] == e;
                if l < shorter.len() {
                    assert(shorter[l] == e);
                    assert(shorter.contains(e));
                    assert(before.contains(e));
                    let k = choose|k: int| 0 <= k < before.len() && before[k] == e;
                    assert(kept[k] == e);
                } else if before.contains(e) {
                    let k = choose|k: int| 0 <= k < before.len() && before[k] == e;
                    assert(kept[k] == e);
                } else {
                    assert(kept[kept.len() - 1] == e);
                }
            }
        }
    }
}

/// Whether some edge of the graph starts at `v`.
fn starts_edge(graph: &[[usize; 2]], v: usize) -> (found: bool)
    ensures
        found == leaves(graph@, v),
{
    let mut k: usize = 0;
    while k < graph.len()
        invariant
            k <= graph.len(),
            forall|l: int| 0 <= l < k ==> (#[trigger] graph@[l])[0] != v,
        decreases graph.len() - k,
    {
        if graph[k][0] == v {
            return true;
        }
        k += 1;
    }
    false
}

/// Whether some edge of the graph ends at `v`.
fn ends_edge(graph: &[[usize; 2]], v: usize) -> (found: bool)
    ensures
        found == enters(graph@, v),
{
    let mut k: usize = 0;
    while k < graph.len()
        invariant
            k <= graph.len(),
            forall|l: int| 0 <= l < k ==> (#[trigger] graph@[l])[1] != v,
        decreases graph.len() - k,
    {
        if graph[k][1] == v {
            return true;
        }
        k += 1;
    }
    false
}

/// Whether the list holds the pair `e`.
fn holds(list: &Vec<[usize; 2]>, e: [usize; 2]) -> (found: bool)
    ensures
        found == list@.contains(e),
{
    let mut k: usize = 0;
    while k < list.len()
        invariant
            k <= list.len(),
            forall|l: int| 0 <= l < k ==> list@[l] != e,
        decreases list.len() - k,
    {
        if list[k][0] == e[0] && list[k][1] == e[1] {
            assert(list@[k as int] =~= e);
            return true;
        }
        k += 1;
    }
    false
}

/// Keeps, of the pairs in `found`, those that lead from an initial node of
/// `graph` to a terminal node of it, each once, where it first occurs.
pub fn prune(graph: &[[usize; 2]], found: &[[usize; 2]]) -> (kept: Vec<[usize; 2]>)
    ensures
        kept@ == pruned(graph@, found@),
{
    let mut kept: Vec<[usize; 2]> = Vec::new();
    let mut k: usize = 0;
    assert(found@.take(0) =~= Seq::empty());
    while k < found.len()
        invariant
            k <= found.len(),
            kept@ == pruned(graph@, found@.take(k as int)),
        decreases found.len() - k,
    {
        let e: [usize; 2] = found[k];
        assert(found@.take(k + 1).drop_last() =~= found@.take(k as int));
        if !ends_edge(graph, e[0]) && !starts_edge(graph, e[1]) && !holds(&kept, e) {
            kept.push(e);
        }
        k += 1;
    }
    assert(found@.take(k as int) =~= found@);
    kept
}

/// The pairs in `solved` lead each from an initial node of `graph` to a
/// terminal node that can be reached from it, and none occurs twice.
pub open spec fn solves(graph: Seq<[usize; 2]>, solved: Seq<[usize; 2]>) -> bool {
    &&& forall|k: int| 0 <= k < solved.len() ==> end_to_end(graph, #[trigger] solved[k])
    &&& solved.no_duplicates()
}

/// Every edge of `graph` that leads from an initial node to a terminal one
/// is in `solved`.
pub open spec fn keeps_ends(graph: Seq<[usize; 2]>, solved: Seq<[usize; 2]>) -> bool {
    forall|k: int|
        0 <= k < graph.len() && is_initial(graph, (#[trigger] graph[k])[0]) && is_terminal(
            graph,
            graph[k][1],
        ) ==> solved.contains(graph[k])
}

/// Reduces a graph to pairs of an initial node and a terminal node that can
/// be reached from it.
///
/// The search is left to the solver of `linear_solver`, which composes edges
/// until nothing new comes of it. Of what the solver hands back, the pairs
/// that lead from an initial node of `edges` to a terminal one are kept,
/// each once, in the order in which the solver gave them.
///
/// Every pair of the result is such a pair, and every edge of the graph that
/// is such a pair is in the result. That the pairs that take more than one
/// edge are all in the result rests on the solver and is not part of the
/// contract.
///
/// The graph must be small enough for the solver: at most [`MAX_EDGES`]
/// edges, which [`can_solve`] tests.
pub fn solve(edges: Vec<[usize; 2]>) -> (solved: Vec<[usize; 2]>)
    requires
        solvable(edges@),
    ensures
        solves(edges@, solved@),
        keeps_ends(edges@, solved@),
        edges.len() == 0 ==> solved.len() == 0,
{
    let found = run_solver(&edges);
    let solved = prune(edges.as_slice(), found.as_slice());
    proof {
        lemma_pruned(edges@, found@);
        assert forall|k: int| 0 <= k < solved.len() implies end_to_end(
            edges@,
            #[trigger] solved@[k],
        ) by {
            let e = solved@[k];
            assert(solved@.contains(e));
            assert(found@.contains(e));
            let l = choose|l: int| 0 <= l < found.len() && found@[l] == e;
            let n = choose|n: nat| obtained(edges@, found@[l], n);
            lemma_obtained_reaches(edges@, e, n);
        }
        if edges.len() == 0 && solved.len() > 0 {
            lemma_reaches_ends(edges@, solved@[0][0], solved@[0][1]);
        }
        assert forall|k: int|
            0 <= k < edges.len() && is_initial(edges@, (#[trigger] edges@[k])[0]) && is_terminal(
                edges@,
                edges@[k][1],
            ) implies solved@.contains(edges@[k]) by {
            lemma_kept(edges@, edges@[k]);
        }
    }
    solved
}

/// Solving what [`solve`] gave gives the same pairs again.
pub proof fn lemma_solved_again(graph: Seq<[usize; 2]>, once: Seq<[usize; 2]>, again: Seq<[usize; 2]>)
    requires
        solves(graph, once),
        solves(once, again),
        keeps_ends(once, again),
    ensures
        forall|e: [usize; 2]| again.contains(e) <==> once.contains(e),
{
    lemma_solved_is_settled(graph, once, Set::empty());
    assert forall|e: [usize; 2]| again.contains(e) <==> once.contains(e) by {
        if again.contains(e) {
            let k = choose|k: int| 0 <= k < again.len() && again[k] == e;
            assert(end_to_end(once, again[k]));
            let n = choose|n: nat| n >= 1 && #[trigger] walk(once, e[0], e[1], n);
            lemma_settled_walk(once, e[0], e[1], n);
            let l = choose|l: int|
                0 <= l < once.len() && (#[trigger] once[l])[0] == e[0] && once[l][1] == e[1];
            assert(once[l] =~= e);
        }
        if once.contains(e) {
            let k = choose|k: int| 0 <= k < once.len() && once[k] == e;
            if enters(once, e[0]) {
                let l = choose|l: int| 0 <= l < once.len() && (#[trigger] once[l])[1] == e[0];
                assert(beside(once[k], once[l]));
            }
            if leaves(once, e[1]) {
                let l = choose|l: int| 0 <= l < once.len() && (#[trigger] once[l])[0] == e[1];
                assert(beside(once[k], once[l]));
            }
            assert(again.contains(once[k]));
        }
    }
}

/// Where no pair has another beside it, a walk is one edge long.
proof fn lemma_settled_walk(pairs: Seq<[usize; 2]>, a: usize, b: usize, n: nat)
    requires
        forall|i: int, j: int|
            0 <= i < pairs.len() && 0 <= j < pairs.len() ==> !beside(pairs[i], pairs[j]),
        n >= 1,
        walk(pairs, a, b, n),
    ensures
        has_edge(pairs, a, b),
{
    let m = choose|m: usize| #[trigger] has_edge(pairs, a, m) && walk(pairs, m, b, (n - 1) as nat);
    if n > 1 {
        let i = choose|i: int| 0 <= i < pairs.len() && (#[trigger] pairs[i])[0] == a && pairs[i][1] == m;
        let m2 = choose|m2: usize| #[trigger]
            has_edge(pairs, m, m2) && walk(pairs, m2, b, (n - 2) as nat);
        let j = choose|j: int| 0 <= j < pairs.len() && (#[trigger] pairs[j])[0] == m && pairs[j][1] == m2;
        assert(beside(pairs[i], pairs[j]));
    }
}

/// On what [`solve`] gives, the inference step finds nothing to do: no two
/// of its pairs compose, whatever the cache holds, and none has another
/// beside it. Solving it again would start from a list that is complete.
pub proof fn lemma_solved_is_settled(graph: Seq<[usize; 2]>, solved: Seq<[usize; 2]>, cache: Set<[usize; 2]>)
    requires
        solves(graph, solved),
    ensures
        forall|i: int, j: int|
            0 <= i < solved.len() && 0 <= j < solved.len() ==> !beside(solved[i], solved[j]),
        saturated(cache, solved),
        marks(solved, solved.len()) == Seq::<[usize; 2]>::empty(),
{
    assert forall|i: int, j: int| 0 <= i < solved.len() && 0 <= j < solved.len() implies !beside(
        solved[i],
        solved[j],
    ) by {
        lemma_reaches_ends(graph, solved[i][0], solved[i][1]);
        lemma_reaches_ends(graph, solved[j][0], solved[j][1]);
    }
    assert forall|i: int, j: int| !composable(cache, solved, i, j) by {
        if 0 <= i < solved.len() && 0 <= j < solved.len() {
            assert(!beside(solved[i], solved[j]));
        }
    }
    lemma_no_marks(solved, solved.len());
}

} // verus!
