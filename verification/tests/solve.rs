use reachability_solver::{can_solve, prune, solve, MAX_EDGES};

fn sorted(mut v: Vec<[usize; 2]>) -> Vec<[usize; 2]> {
    v.sort();
    v
}

#[test]
fn solve_empty_graph_is_empty() {
    assert_eq!(solve(vec![]), Vec::<[usize; 2]>::new());
}

#[test]
fn solve_chain_collapses_to_its_ends() {
    assert_eq!(solve(vec![[1, 2], [2, 3]]), vec![[1, 3]]);
}

#[test]
fn solve_two_sources_meet_at_one_goal() {
    let solved = solve(vec![[1, 4], [2, 3], [3, 4], [4, 5]]);
    assert_eq!(sorted(solved), vec![[1, 5], [2, 5]]);
}

#[test]
fn solve_without_meeting_keeps_the_dead_end() {
    let solved = solve(vec![[1, 4], [2, 3], [4, 5]]);
    assert_eq!(sorted(solved), vec![[1, 5], [2, 3]]);
}

#[test]
fn solve_exclusive_pairs_no_initial_nodes() {
    let solved = solve(vec![
        [1, 4],
        [3, 6],
        [5, 6],
        [6, 9],
        [9, 12],
        [12, 11],
        [11, 10],
        [10, 7],
        [7, 4],
        [4, 5],
    ]);
    for e in &solved {
        assert!(!(e[0] == 1 && e[1] == 3));
        assert!(!(e[0] == 3 && e[1] == 1));
        assert!(e[1] != 1 && e[1] != 3);
    }
    assert_eq!(solved, Vec::<[usize; 2]>::new());
}

#[test]
fn solve_bidirection_reaches_every_exit() {
    let solved = solve(vec![
        [1, 5],
        [5, 3],
        [5, 6],
        [6, 9],
        [9, 12],
        [12, 11],
        [11, 10],
        [10, 7],
        [7, 4],
        [4, 5],
        [13, 11],
        [11, 15],
    ]);
    assert_eq!(sorted(solved), vec![[1, 3], [1, 15], [13, 3], [13, 15]]);
}

#[test]
fn solve_cross_pairs_each_source_with_each_goal() {
    let solved = solve(vec![[2, 5], [4, 5], [5, 6], [5, 8]]);
    assert_eq!(sorted(solved), vec![[2, 6], [2, 8], [4, 6], [4, 8]]);
}

#[test]
fn solve_meet_has_one_pair() {
    let solved = solve(vec![[1, 2], [2, 3], [1, 4], [3, 6], [4, 7], [6, 9], [7, 8], [8, 9]]);
    assert_eq!(solved, vec![[1, 9]]);
}

#[test]
fn solve_without_initial_node_finds_nothing() {
    let solved = solve(vec![[1, 2], [2, 3], [3, 6], [6, 9], [9, 8], [8, 7], [7, 4], [4, 1], [8, 10]]);
    assert_eq!(solved, Vec::<[usize; 2]>::new());
}

#[test]
fn solve_without_terminal_node_finds_nothing() {
    let solved = solve(vec![[2, 5], [5, 6], [6, 9], [9, 12], [12, 11], [11, 10], [10, 7], [7, 4], [4, 5]]);
    assert_eq!(solved, Vec::<[usize; 2]>::new());
}

#[test]
fn solve_drops_a_loop_at_one_node() {
    assert_eq!(solve(vec![[1, 1]]), Vec::<[usize; 2]>::new());
}

#[test]
fn solve_gives_a_repeated_edge_once() {
    assert_eq!(solve(vec![[1, 2], [1, 2]]), vec![[1, 2]]);
    assert_eq!(solve(vec![[1, 2], [2, 3], [1, 2]]), vec![[1, 3]]);
}

#[test]
fn solve_single_edge_stays() {
    assert_eq!(solve(vec![[7, 9]]), vec![[7, 9]]);
}

#[test]
fn solve_again_changes_nothing() {
    let graphs: Vec<Vec<[usize; 2]>> = vec![
        vec![],
        vec![[1, 2], [2, 3]],
        vec![[1, 4], [2, 3], [3, 4], [4, 5]],
        vec![[1, 4], [2, 3], [4, 5]],
        vec![[2, 5], [4, 5], [5, 6], [5, 8]],
        vec![[1, 2], [2, 1]],
    ];
    for g in graphs {
        let once = solve(g);
        let twice = solve(once.clone());
        assert_eq!(sorted(twice), sorted(once.clone()));
        for a in &once {
            for b in &once {
                assert!(a[1] != b[0]);
            }
        }
    }
}

#[test]
fn solve_pairs_lead_from_initial_to_terminal() {
    let graph = vec![[1, 2], [2, 3], [1, 4], [3, 6], [4, 7], [6, 9], [7, 8], [8, 9], [10, 2]];
    let solved = solve(graph.clone());
    assert_eq!(sorted(solved.clone()), vec![[1, 9], [10, 9]]);
    for e in &solved {
        assert!(graph.iter().all(|g| g[1] != e[0]));
        assert!(graph.iter().all(|g| g[0] != e[1]));
    }
}

#[test]
fn prune_keeps_first_of_each_end_to_end_pair() {
    let graph = [[1, 2], [2, 3], [4, 3]];
    let found = [[1, 3], [1, 2], [2, 3], [4, 3], [1, 3], [4, 3], [9, 9]];
    assert_eq!(prune(&graph, &found), vec![[1, 3], [4, 3], [9, 9]]);
}

#[test]
fn prune_of_nothing_is_nothing() {
    assert_eq!(prune(&[[1, 2]], &[]), Vec::<[usize; 2]>::new());
    assert_eq!(prune(&[], &[[1, 2], [1, 2]]), vec![[1, 2]]);
}

#[test]
fn prune_drops_pairs_that_start_or_end_inside() {
    let graph = [[1, 2], [2, 3]];
    assert_eq!(prune(&graph, &[[2, 3]]), Vec::<[usize; 2]>::new());
    assert_eq!(prune(&graph, &[[1, 2]]), Vec::<[usize; 2]>::new());
    assert_eq!(prune(&graph, &[[2, 2]]), Vec::<[usize; 2]>::new());
    assert_eq!(prune(&graph, &[[1, 3]]), vec![[1, 3]]);
}

#[test]
fn solve_keeps_edges_that_lead_from_start_to_goal() {
    let graph = vec![[1, 2], [3, 4], [3, 5], [5, 6], [7, 8], [8, 7]];
    let solved = solve(graph);
    assert!(solved.contains(&[1, 2]));
    assert!(solved.contains(&[3, 4]));
    assert_eq!(sorted(solved), vec![[1, 2], [3, 4], [3, 6]]);
}

/// A small reproducible source of numbers.
struct Numbers(u64);

impl Numbers {
    fn next(&mut self, below: usize) -> usize {
        self.0 = self.0.wrapping_mul(6364136223846793005).wrapping_add(1442695040888963407);
        ((self.0 >> 33) as usize) % below
    }
}

fn graph_of(numbers: &mut Numbers, nodes: usize, edges: usize) -> Vec<[usize; 2]> {
    let mut g = vec![];
    for _ in 0..edges {
        let a = numbers.next(nodes);
        let b = numbers.next(nodes);
        g.push([a, b]);
    }
    g
}

/// The pairs of an initial node and a terminal node that can be reached from
/// it, found by following every edge from every initial node.
fn end_to_end(graph: &[[usize; 2]], nodes: usize) -> Vec<[usize; 2]> {
    let mut pairs = vec![];
    for a in 0..nodes {
        if graph.iter().any(|e| e[1] == a) || !graph.iter().any(|e| e[0] == a) {
            continue;
        }
        let mut seen = vec![false; nodes];
        let mut todo = vec![a];
        while let Some(v) = todo.pop() {
            for e in graph {
                if e[0] == v && !seen[e[1]] {
                    seen[e[1]] = true;
                    todo.push(e[1]);
                }
            }
        }
        for b in 0..nodes {
            if seen[b] && !graph.iter().any(|e| e[0] == b) {
                pairs.push([a, b]);
            }
        }
    }
    pairs.sort();
    pairs
}

#[test]
fn solve_finds_what_following_the_edges_finds() {
    let mut numbers = Numbers(7);
    for round in 0..200 {
        let nodes = 2 + round % 7;
        let edges = round % 11;
        let graph = graph_of(&mut numbers, nodes, edges);
        let solved = solve(graph.clone());
        assert_eq!(sorted(solved), end_to_end(&graph, nodes), "graph {:?}", graph);
    }
}

#[test]
fn solve_chain_of_fifty_edges() {
    let graph: Vec<[usize; 2]> = (0..50).map(|i| [i, i + 1]).collect();
    assert_eq!(solve(graph), vec![[0, 50]]);
}

#[test]
fn can_solve_tells_small_graphs_from_large_ones() {
    assert_eq!(MAX_EDGES, 512);
    assert!(can_solve(&[]));
    assert!(can_solve(&[[1, 2]]));
    let most: Vec<[usize; 2]> = (0..MAX_EDGES).map(|i| [i, i + 1]).collect();
    assert!(can_solve(&most));
    let more: Vec<[usize; 2]> = (0..MAX_EDGES + 1).map(|i| [i, i + 1]).collect();
    assert!(!can_solve(&more));
}

#[test]
fn solve_graph_of_as_many_edges_as_may_be() {
    let stars: Vec<[usize; 2]> = (0..MAX_EDGES).map(|i| [2 * i, 2 * i + 1]).collect();
    assert!(can_solve(&stars));
    assert_eq!(sorted(solve(stars.clone())), stars);
}
