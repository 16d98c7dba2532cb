//! Etching: wearing a graph down by removing, again and again, the edges at
//! its initial nodes or at its terminal nodes.

use vstd::prelude::*;

use crate::graph::{enters, is_initial, is_terminal, leaves, lemma_reaches_ends};
use crate::shapes::line;
use crate::{keeps_ends, solvable, solve, solves};

verus! {

/// How often the list holds the edge `e`.
pub open spec fn count(list: Seq<[usize; 2]>, e: [usize; 2]) -> nat {
    list.to_multiset().count(e)
}

/// `after` holds the edges of `before` that start at no node at which a pair
/// of `solved` starts, each as often as `before` holds it, and nothing else.
pub open spec fn etched_initial(
    solved: Seq<[usize; 2]>,
    before: Seq<[usize; 2]>,
    after: Seq<[usize; 2]>,
) -> bool {
    forall|e: [usize; 2]| #[trigger]
        count(after, e) == if leaves(solved, e[0]) {
            0
        } else {
            count(before, e)
        }
}

/// `after` holds the edges of `before` that end at no node at which a pair
/// of `solved` ends, each as often as `before` holds it, and nothing else.
pub open spec fn etched_terminal(
    solved: Seq<[usize; 2]>,
    before: Seq<[usize; 2]>,
    after: Seq<[usize; 2]>,
) -> bool {
    forall|e: [usize; 2]| #[trigger]
        count(after, e) == if enters(solved, e[1]) {
            0
        } else {
            count(before, e)
        }
}

/// Putting the last element in the place of element `j` and dropping the
/// last place takes one occurrence of element `j` out of the list.
proof fn lemma_swap_remove(list: Seq<[usize; 2]>, j: int)
    requires
        0 <= j < list.len(),
    ensures
        forall|e: [usize; 2]| #[trigger]
            count(list.update(j, list.last()).drop_last(), e) == if e == list[j] {
                (count(list, e) - 1) as nat
            } else {
                count(list, e)
            },
        count(list, list[j]) > 0,
{
    broadcast use vstd::multiset::group_multiset_axioms;

    let moved = list.update(j, list.last());
    let last = moved.len() - 1;
    vstd::seq_lib::to_multiset_update(list, j, list.last());
    vstd::seq_lib::to_multiset_remove(moved, last);
    assert(moved.remove(last) =~= moved.drop_last());
    vstd::seq_lib::to_multiset_contains(list, list[j]);
    vstd::seq_lib::to_multiset_contains(list, list.last());
    assert(list.contains(list[j]));
    assert(list.contains(list.last()));
}

/// Removes every edge whose node on the given side, 0 for the start and 1
/// for the end, is `v`.
fn strip(b: &mut Vec<[usize; 2]>, side: usize, v: usize)
    requires
        side < 2,
    ensures
        forall|e: [usize; 2]| #[trigger]
            count(final(b)@, e) == if e[side as int] == v {
                0
            } else {
                count(old(b)@, e)
            },
        final(b).len() <= old(b).len(),
{
    let mut j: usize = b.len();
    while j > 0
        invariant
            side < 2,
            j <= b.len(),
            b.len() <= old(b).len(),
            forall|k: int| j <= k < b.len() ==> (#[trigger] b@[k])[side as int] != v,
            forall|e: [usize; 2]| e[side as int] != v ==> #[trigger] count(b@, e) == count(old(b)@, e),
        decreases j,
    {
        j -= 1;
        if b[j][side] == v {
            proof {
                lemma_swap_remove(b@, j as int);
            }
            b.swap_remove(j);
        }
    }
    assert forall|e: [usize; 2]| #[trigger]
        count(b@, e) == if e[side as int] == v {
            0
        } else {
            count(old(b)@, e)
        } by {
        if e[side as int] == v {
            vstd::seq_lib::to_multiset_contains(b@, e);
            if b@.contains(e) {
                let k = choose|k: int| 0 <= k < b@.len() && b@[k] == e;
                assert(b@[k][side as int] != v);
            }
        }
    }
}

/// Etches away initial nodes: removes from `b` every edge that starts where
/// a pair of `a` starts.
///
/// `a` is meant to be the solved graph and `b` the graph itself. The edges
/// that stay may change places.
pub fn initial(a: &[[usize; 2]], b: &mut Vec<[usize; 2]>)
    ensures
        etched_initial(a@, old(b)@, final(b)@),
        final(b).len() <= old(b).len(),
{
    let mut i: usize = 0;
    while i < a.len()
        invariant
            i <= a.len(),
            b.len() <= old(b).len(),
            etched_initial(a@.take(i as int), old(b)@, b@),
        decreases a.len() - i,
    {
        let ghost done = a@.take(i as int);
        let ghost next = a@.take(i + 1);
        let ghost mid = b@;
        strip(b, 0, a[i][0]);
        proof {
            assert forall|e: [usize; 2]| #[trigger]
                count(b@, e) == if leaves(next, e[0]) {
                    0
                } else {
                    count(old(b)@, e)
                } by {
                assert(count(mid, e) == if leaves(done, e[0]) {
                    0
                } else {
                    count(old(b)@, e)
                });
                if leaves(done, e[0]) {
                    let k = choose|k: int| 0 <= k < done.len() && (#[trigger] done[k])[0] == e[0];
                    assert(next[k][0] == e[0]);
                }
                if e[0] == a@[i as int][0] {
                    assert(next[i as int][0] == e[0]);
                }
                if leaves(next, e[0]) {
                    let k = choose|k: int| 0 <= k < next.len() && (#[trigger] next[k])[0] == e[0];
                    if k < i {
                        assert(done[k][0] == e[0]);
                    }
                }
            }
        }
        i += 1;
    }
    assert(a@.take(i as int) =~= a@);
}

/// Etches away terminal nodes: removes from `b` every edge that ends where
/// a pair of `a` ends.
///
/// `a` is meant to be the solved graph and `b` the graph itself. The edges
/// that stay may change places.
pub fn terminal(a: &[[usize; 2]], b: &mut Vec<[usize; 2]>)
    ensures
        etched_terminal(a@, old(b)@, final(b)@),
        final(b).len() <= old(b).len(),
{
    let mut i: usize = 0;
    while i < a.len()
        invariant
            i <= a.len(),
            b.len() <= old(b).len(),
            etched_terminal(a@.take(i as int), old(b)@, b@),
        decreases a.len() - i,
    {
        let ghost done = a@.take(i as int);
        let ghost next = a@.take(i + 1);
        let ghost mid = b@;
        strip(b, 1, a[i][1]);
        proof {
            assert forall|e: [usize; 2]| #[trigger]
                count(b@, e) == if enters(next, e[1]) {
                    0
                } else {
                    count(old(b)@, e)
                } by {
                assert(count(mid, e) == if enters(done, e[1]) {
                    0
                } else {
                    count(old(b)@, e)
                });
                if enters(done, e[1]) {
                    let k = choose|k: int| 0 <= k < done.len() && (#[trigger] done[k])[1] == e[1];
                    assert(next[k][1] == e[1]);
                }
                if e[1] == a@[i as int][1] {
                    assert(next[i as int][1] == e[1]);
                }
                if enters(next, e[1]) {
                    let k = choose|k: int| 0 <= k < next.len() && (#[trigger] next[k])[1] == e[1];
                    if k < i {
                        assert(done[k][1] == e[1]);
                    }
                }
            }
        }
        i += 1;
    }
    assert(a@.take(i as int) =~= a@);
}

/// A record of etching a graph by its initial nodes, round after round:
/// `left[0]` is the graph, `rounds[k]` what round `k` found when it solved
/// `left[k]`, which is at least one pair, and `left[k + 1]` what it left of
/// `left[k]`.
pub open spec fn etching(
    graph: Seq<[usize; 2]>,
    rounds: Seq<Seq<[usize; 2]>>,
    left: Seq<Seq<[usize; 2]>>,
) -> bool {
    &&& left.len() == rounds.len() + 1
    &&& left[0] == graph
    &&& forall|k: int|
        0 <= k < rounds.len() ==> solves(#[trigger] left[k], rounds[k]) && keeps_ends(
            left[k],
            rounds[k],
        ) && rounds[k].len() > 0 && etched_initial(rounds[k], left[k], left[k + 1])
}

/// No edge of the graph leads from an initial node to a terminal one.
pub open spec fn no_ends(graph: Seq<[usize; 2]>) -> bool {
    forall|k: int|
        0 <= k < graph.len() ==> !(is_initial(graph, (#[trigger] graph[k])[0]) && is_terminal(
            graph,
            graph[k][1],
        ))
}

/// A list that holds every edge at most as often as another list, and one
/// edge less often, is shorter.
proof fn lemma_fewer(more: Seq<[usize; 2]>, less: Seq<[usize; 2]>, lost: [usize; 2])
    requires
        forall|e: [usize; 2]| count(less, e) <= count(more, e),
        count(less, lost) < count(more, lost),
    ensures
        less.len() < more.len(),
{
    broadcast use vstd::multiset::group_multiset_axioms;

    let big = more.to_multiset();
    let small = less.to_multiset();
    let rest = big.sub(small);
    assert forall|e: [usize; 2]| big.count(e) == small.add(rest).count(e) by {
        assert(count(less, e) <= count(more, e));
    }
    assert(big =~= small.add(rest));
    assert(rest.count(lost) > 0);
    assert(rest.len() > 0);
    vstd::seq_lib::to_multiset_len(more);
    vstd::seq_lib::to_multiset_len(less);
}

/// Where solving a graph has found a pair, etching removes an edge.
pub proof fn lemma_etching_removes(
    graph: Seq<[usize; 2]>,
    solved: Seq<[usize; 2]>,
    after: Seq<[usize; 2]>,
)
    requires
        solves(graph, solved),
        solved.len() > 0,
        etched_initial(solved, graph, after),
    ensures
        after.len() < graph.len(),
{
    let first = solved[0];
    lemma_reaches_ends(graph, first[0], first[1]);
    let k = choose|k: int| 0 <= k < graph.len() && (#[trigger] graph[k])[0] == first[0];
    let lost = graph[k];
    assert(leaves(solved, lost[0]));
    vstd::seq_lib::to_multiset_contains(graph, lost);
    assert(graph.contains(lost));
    assert forall|e: [usize; 2]| count(after, e) <= count(graph, e) by {
        assert(count(after, e) == if leaves(solved, e[0]) {
            0
        } else {
            count(graph, e)
        });
    }
    assert(count(after, lost) == 0);
    lemma_fewer(graph, after, lost);
}

/// Where solving a graph has found a pair, etching by terminal nodes removes
/// an edge too.
pub proof fn lemma_etching_terminal_removes(
    graph: Seq<[usize; 2]>,
    solved: Seq<[usize; 2]>,
    after: Seq<[usize; 2]>,
)
    requires
        solves(graph, solved),
        solved.len() > 0,
        etched_terminal(solved, graph, after),
    ensures
        after.len() < graph.len(),
{
    let first = solved[0];
    lemma_reaches_ends(graph, first[0], first[1]);
    let k = choose|k: int| 0 <= k < graph.len() && (#[trigger] graph[k])[1] == first[1];
    let lost = graph[k];
    assert(enters(solved, lost[1]));
    vstd::seq_lib::to_multiset_contains(graph, lost);
    assert(graph.contains(lost));
    assert forall|e: [usize; 2]| count(after, e) <= count(graph, e) by {
        assert(count(after, e) == if enters(solved, e[1]) {
            0
        } else {
            count(graph, e)
        });
    }
    assert(count(after, lost) == 0);
    lemma_fewer(graph, after, lost);
}

/// How often the directed line of `n` nodes holds the edge `e` from node `k`
/// on: once if `e` leads from a node `i` to the node `i + 1`, with `i` not
/// less than `k`, and never else.
spec fn line_count(n: nat, k: nat, e: [usize; 2]) -> nat {
    if k <= e[0] && e[0] + 1 < n && e[1] == e[0] + 1 {
        1
    } else {
        0
    }
}

/// The directed line holds each of its edges once.
proof fn lemma_line_counts(n: nat)
    requires
        n <= usize::MAX,
    ensures
        forall|e: [usize; 2]| count(line(n), e) == line_count(n, 0, e),
    decreases n,
{
    broadcast use vstd::multiset::group_multiset_axioms;

    if n <= 1 {
        assert forall|e: [usize; 2]| count(line(n), e) == 0 by {
            vstd::seq_lib::to_multiset_contains(line(n), e);
        }
    } else {
        let shorter = line((n - 1) as nat);
        let last: [usize; 2] = [(n - 2) as usize, (n - 1) as usize];
        lemma_line_counts((n - 1) as nat);
        assert(line(n) =~= shorter.push(last));
        vstd::seq_lib::to_multiset_build(shorter, last);
        assert forall|e: [usize; 2]| count(line(n), e) == line_count(n, 0, e) by {
            assert(count(shorter, e) == line_count((n - 1) as nat, 0, e));
            assert(e == last <==> e[0] == n - 2 && e[1] == n - 1) by {
                if e[0] == n - 2 && e[1] == n - 1 {
                    assert(e =~= last);
                }
            }
        }
    }
}

/// On what is left of a directed line from node `k` on, solving finds only
/// pairs that start at `k`.
proof fn lemma_line_sources(n: nat, k: nat, graph: Seq<[usize; 2]>, solved: Seq<[usize; 2]>, i: int)
    requires
        n <= usize::MAX,
        forall|e: [usize; 2]| count(graph, e) == line_count(n, k, e),
        solves(graph, solved),
        0 <= i < solved.len(),
    ensures
        solved[i][0] == k,
        k + 1 < n,
{
    let s = solved[i][0];
    lemma_reaches_ends(graph, s, solved[i][1]);
    let j = choose|j: int| 0 <= j < graph.len() && (#[trigger] graph[j])[0] == s;
    let out = graph[j];
    assert(graph.contains(out));
    vstd::seq_lib::to_multiset_contains(graph, out);
    assert(count(graph, out) == line_count(n, k, out));
    if s > k {
        let into: [usize; 2] = [(s - 1) as usize, s];
        assert(count(graph, into) == line_count(n, k, into));
        vstd::seq_lib::to_multiset_contains(graph, into);
        let l = choose|l: int| 0 <= l < graph.len() && graph[l] == into;
        assert(graph[l][1] == s);
        assert(enters(graph, s));
    }
}

/// After `k` rounds of etching a directed line of `n` nodes, what is left is
/// the line from node `k` on.
proof fn lemma_line_left(n: nat, rounds: Seq<Seq<[usize; 2]>>, left: Seq<Seq<[usize; 2]>>, k: nat)
    requires
        n <= usize::MAX,
        etching(line(n), rounds, left),
        k <= rounds.len(),
    ensures
        k == 0 || k + 1 <= n,
        forall|e: [usize; 2]| count(left[k as int], e) == line_count(n, k, e),
    decreases k,
{
    if k == 0 {
        lemma_line_counts(n);
    } else {
        let before = left[k - 1];
        let solved = rounds[k - 1];
        let after = left[k as int];
        lemma_line_left(n, rounds, left, (k - 1) as nat);
        assert(solves(before, solved) && solved.len() > 0 && etched_initial(solved, before, after));
        lemma_line_sources(n, (k - 1) as nat, before, solved, 0);
        assert forall|v: usize| leaves(solved, v) <==> v == k - 1 by {
            if leaves(solved, v) {
                let i = choose|i: int| 0 <= i < solved.len() && (#[trigger] solved[i])[0] == v;
                lemma_line_sources(n, (k - 1) as nat, before, solved, i);
            }
            if v == k - 1 {
                assert(solved[0][0] == v);
            }
        }
        assert forall|e: [usize; 2]| count(after, e) == line_count(n, k, e) by {
            assert(count(after, e) == if leaves(solved, e[0]) {
                0
            } else {
                count(before, e)
            });
            assert(count(before, e) == line_count(n, (k - 1) as nat, e));
        }
    }
}

/// Etching a directed line of two nodes or more to nothing takes one round
/// for each edge, so the count that [`cardinality`] gives for it, rounds
/// plus one, is the number of its nodes.
pub proof fn lemma_line_depth(n: nat, rounds: Seq<Seq<[usize; 2]>>, left: Seq<Seq<[usize; 2]>>)
    requires
        2 <= n <= usize::MAX,
        etching(line(n), rounds, left),
        left.last().len() == 0,
    ensures
        rounds.len() + 1 == n,
{
    let r = rounds.len();
    lemma_line_left(n, rounds, left, r);
    let last = left[r as int];
    if r + 1 < n {
        let e: [usize; 2] = [r as usize, (r + 1) as usize];
        assert(count(last, e) == line_count(n, r, e));
        vstd::seq_lib::to_multiset_contains(last, e);
        assert(last.contains(e));
    }
}

/// A copy of the list.
fn copy(x: &[[usize; 2]]) -> (v: Vec<[usize; 2]>)
    ensures
        v@ == x@,
{
    let mut v: Vec<[usize; 2]> = Vec::new();
    let mut k: usize = 0;
    while k < x.len()
        invariant
            k <= x.len(),
            v@ == x@.take(k as int),
        decreases x.len() - k,
    {
        v.push(x[k]);
        k += 1;
        assert(v@ =~= x@.take(k as int));
    }
    assert(x@.take(k as int) =~= x@);
    v
}

/// Measures a graph by etching: solves it, removes the edges at the initial
/// nodes that were found, and so on until no edge is left. The result is the
/// number of rounds plus one, and `0` for a graph without edges.
///
/// A round that finds no pair ends the count: the result is then `None`.
/// What is left of the graph then has edges, but none that leads from an
/// initial node to a terminal one. This is what becomes of a cycle.
///
/// The graph must be small enough to be solved: at most
/// [`crate::MAX_EDGES`] edges, which [`crate::can_solve`] tests.
pub fn cardinality(x: &[[usize; 2]]) -> (depth: Option<usize>)
    requires
        solvable(x@),
    ensures
        x.len() == 0 ==> depth == Some(0usize),
        x.len() > 0 ==> exists|rounds: Seq<Seq<[usize; 2]>>, left: Seq<Seq<[usize; 2]>>| #[trigger]
            etching(x@, rounds, left) && match depth {
                Some(n) => left.last().len() == 0 && n == rounds.len() + 1,
                None => left.last().len() > 0 && no_ends(left.last()),
            },
        x.len() > 0 ==> match depth {
            Some(n) => 2 <= n <= x.len() + 1,
            None => true,
        },
{
    if x.len() == 0 {
        return Some(0);
    }
    let mut b: Vec<[usize; 2]> = copy(x);
    let mut n: usize = 1;
    let ghost mut rounds: Seq<Seq<[usize; 2]>> = Seq::empty();
    let ghost mut left: Seq<Seq<[usize; 2]>> = seq![x@];
    while b.len() > 0
        invariant
            solvable(x@),
            etching(x@, rounds, left),
            left.last() == b@,
            n == rounds.len() + 1,
            n + b.len() <= x.len() + 1,
            x.len() > 0,
            n >= 2 || b.len() > 0,
        decreases b.len(),
    {
        let a = solve(copy(b.as_slice()));
        if a.len() == 0 {
            assert forall|k: int| 0 <= k < b@.len() implies !(is_initial(
                b@,
                (#[trigger] b@[k])[0],
            ) && is_terminal(b@, b@[k][1])) by {
                assert(!a@.contains(b@[k]));
            }
            return None;
        }
        let ghost before = b@;
        initial(a.as_slice(), &mut b);
        proof {
            lemma_etching_removes(before, a@, b@);
            let more = rounds.push(a@);
            let next = left.push(b@);
            assert forall|k: int| 0 <= k < more.len() implies solves(#[trigger] next[k], more[k])
                && keeps_ends(next[k], more[k]) && more[k].len() > 0 && etched_initial(
                more[k],
                next[k],
                next[k + 1],
            ) by {
                if k < rounds.len() {
                    assert(next[k] == left[k] && next[k + 1] == left[k + 1] && more[k]
                        == rounds[k]);
                    assert(solves(left[k], rounds[k]));
                }
            }
            rounds = more;
            left = next;
        }
        n += 1;
    }
    Some(n)
}

} // verus!
