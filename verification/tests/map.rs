use reachability_solver::map::{can_map, is_rectangular, map2, visualize, Cell};
use reachability_solver::shapes::{diag_rect, dir_line};

const ARROWS: [Cell; 8] = [
    Cell::Right,
    Cell::Left,
    Cell::Up,
    Cell::Down,
    Cell::RightUp,
    Cell::RightDown,
    Cell::LeftUp,
    Cell::LeftDown,
];

const ALL: [Cell; 23] = [
    Cell::Node,
    Cell::Empty,
    Cell::Right,
    Cell::Left,
    Cell::Up,
    Cell::Down,
    Cell::RightLeft,
    Cell::UpDown,
    Cell::RightUp,
    Cell::RightDown,
    Cell::LeftUp,
    Cell::LeftDown,
    Cell::DiagRise,
    Cell::DiagFall,
    Cell::Cross,
    Cell::CrossRight,
    Cell::CrossLeft,
    Cell::CrossUp,
    Cell::CrossDown,
    Cell::CrossLeftUp,
    Cell::CrossLeftDown,
    Cell::CrossRightUp,
    Cell::CrossRightDown,
];

fn joined(mut cell: Cell, other: Cell) -> Cell {
    cell.join(other);
    cell
}

fn fold(start: Cell, others: &[Cell]) -> Cell {
    let mut cell = start;
    for o in others {
        cell.join(*o);
    }
    cell
}

fn line_of(c: Cell) -> u8 {
    match c {
        Cell::Right | Cell::Left => 1,
        Cell::Up | Cell::Down => 2,
        Cell::RightUp | Cell::RightDown | Cell::LeftUp | Cell::LeftDown => 3,
        _ => 0,
    }
}

#[test]
fn join_into_empty_takes_the_other() {
    for c in ALL {
        assert_eq!(joined(Cell::Empty, c), c);
    }
}

#[test]
fn join_opposite_axis_arrows() {
    assert_eq!(joined(Cell::Left, Cell::Right), Cell::RightLeft);
    assert_eq!(joined(Cell::Right, Cell::Left), Cell::RightLeft);
    assert_eq!(joined(Cell::Up, Cell::Down), Cell::UpDown);
    assert_eq!(joined(Cell::Down, Cell::Up), Cell::UpDown);
}

#[test]
fn join_axis_arrow_with_anything_else_changes_nothing() {
    assert_eq!(joined(Cell::Right, Cell::Right), Cell::Right);
    assert_eq!(joined(Cell::Right, Cell::Up), Cell::Right);
    assert_eq!(joined(Cell::Up, Cell::Right), Cell::Up);
    assert_eq!(joined(Cell::Left, Cell::RightUp), Cell::Left);
    assert_eq!(joined(Cell::RightUp, Cell::Left), Cell::RightUp);
    assert_eq!(joined(Cell::Down, Cell::LeftDown), Cell::Down);
    assert_eq!(joined(Cell::RightLeft, Cell::Up), Cell::RightLeft);
    assert_eq!(joined(Cell::RightLeft, Cell::Left), Cell::RightLeft);
    assert_eq!(joined(Cell::UpDown, Cell::Down), Cell::UpDown);
    assert_eq!(joined(Cell::UpDown, Cell::Right), Cell::UpDown);
    assert_eq!(joined(Cell::Cross, Cell::Down), Cell::Cross);
}

#[test]
fn join_two_diagonal_arrows() {
    assert_eq!(joined(Cell::LeftUp, Cell::RightDown), Cell::DiagFall);
    assert_eq!(joined(Cell::RightDown, Cell::LeftUp), Cell::DiagFall);
    assert_eq!(joined(Cell::LeftDown, Cell::RightUp), Cell::DiagRise);
    assert_eq!(joined(Cell::RightUp, Cell::LeftDown), Cell::DiagRise);
    assert_eq!(joined(Cell::RightUp, Cell::RightDown), Cell::CrossRight);
    assert_eq!(joined(Cell::RightDown, Cell::RightUp), Cell::CrossRight);
    assert_eq!(joined(Cell::LeftUp, Cell::LeftDown), Cell::CrossLeft);
    assert_eq!(joined(Cell::LeftDown, Cell::LeftUp), Cell::CrossLeft);
    assert_eq!(joined(Cell::RightUp, Cell::LeftUp), Cell::CrossUp);
    assert_eq!(joined(Cell::LeftUp, Cell::RightUp), Cell::CrossUp);
    assert_eq!(joined(Cell::LeftDown, Cell::RightDown), Cell::CrossDown);
    assert_eq!(joined(Cell::RightDown, Cell::LeftDown), Cell::CrossDown);
    assert_eq!(joined(Cell::RightUp, Cell::RightUp), Cell::RightUp);
}

#[test]
fn join_third_diagonal_arrow() {
    assert_eq!(joined(Cell::DiagRise, Cell::RightDown), Cell::CrossRightDown);
    assert_eq!(joined(Cell::DiagRise, Cell::LeftUp), Cell::CrossLeftUp);
    assert_eq!(joined(Cell::DiagRise, Cell::LeftDown), Cell::DiagRise);
    assert_eq!(joined(Cell::DiagFall, Cell::LeftDown), Cell::CrossLeftDown);
    assert_eq!(joined(Cell::DiagFall, Cell::RightUp), Cell::CrossRightUp);
    assert_eq!(joined(Cell::DiagFall, Cell::RightDown), Cell::DiagFall);
    assert_eq!(joined(Cell::CrossRight, Cell::LeftDown), Cell::CrossRightDown);
    assert_eq!(joined(Cell::CrossRight, Cell::LeftUp), Cell::CrossRightUp);
    assert_eq!(joined(Cell::CrossLeft, Cell::RightUp), Cell::CrossLeftUp);
    assert_eq!(joined(Cell::CrossLeft, Cell::RightDown), Cell::CrossLeftDown);
    assert_eq!(joined(Cell::CrossUp, Cell::RightDown), Cell::CrossRightUp);
    assert_eq!(joined(Cell::CrossUp, Cell::LeftDown), Cell::CrossLeftUp);
    assert_eq!(joined(Cell::CrossDown, Cell::LeftUp), Cell::CrossLeftDown);
    assert_eq!(joined(Cell::CrossDown, Cell::RightUp), Cell::CrossRightDown);
    assert_eq!(joined(Cell::CrossDown, Cell::RightDown), Cell::CrossDown);
}

#[test]
fn join_fourth_diagonal_arrow() {
    assert_eq!(joined(Cell::CrossRightUp, Cell::LeftDown), Cell::Cross);
    assert_eq!(joined(Cell::CrossRightDown, Cell::LeftUp), Cell::Cross);
    assert_eq!(joined(Cell::CrossLeftUp, Cell::RightDown), Cell::Cross);
    assert_eq!(joined(Cell::CrossLeftDown, Cell::RightUp), Cell::Cross);
    assert_eq!(joined(Cell::CrossRightUp, Cell::RightUp), Cell::CrossRightUp);
    assert_eq!(joined(Cell::Cross, Cell::RightUp), Cell::Cross);
}

#[test]
fn join_leaves_a_node_as_it_is() {
    for c in ALL {
        assert_eq!(joined(Cell::Node, c), Cell::Node);
    }
}

const CROSSINGS: [Cell; 4] = [Cell::CrossRight, Cell::CrossLeft, Cell::CrossUp, Cell::CrossDown];

fn opposite(c: Cell) -> Cell {
    match c {
        Cell::CrossRight => Cell::CrossLeft,
        Cell::CrossLeft => Cell::CrossRight,
        Cell::CrossUp => Cell::CrossDown,
        Cell::CrossDown => Cell::CrossUp,
        other => other,
    }
}

#[test]
fn join_two_crossings_without_a_common_arrow() {
    assert_eq!(joined(Cell::CrossRight, Cell::CrossLeft), Cell::Cross);
    assert_eq!(joined(Cell::CrossLeft, Cell::CrossRight), Cell::Cross);
    assert_eq!(joined(Cell::CrossUp, Cell::CrossDown), Cell::Cross);
    assert_eq!(joined(Cell::CrossDown, Cell::CrossUp), Cell::Cross);
}

#[test]
fn join_two_crossings_with_a_common_arrow_changes_nothing() {
    for a in CROSSINGS {
        for b in CROSSINGS {
            if b != opposite(a) {
                assert_eq!(joined(a, b), a);
            }
        }
    }
    assert_eq!(joined(Cell::DiagRise, Cell::DiagFall), Cell::DiagRise);
    assert_eq!(joined(Cell::DiagFall, Cell::DiagRise), Cell::DiagFall);
}

#[test]
fn join_with_more_than_one_arrow_changes_an_empty_cell_or_a_crossing() {
    for s in ALL {
        for o in ALL {
            if s != Cell::Empty && !ARROWS.contains(&o) {
                if CROSSINGS.contains(&s) && o == opposite(s) {
                    assert_eq!(joined(s, o), Cell::Cross);
                } else {
                    assert_eq!(joined(s, o), s);
                }
            }
        }
    }
}

#[test]
fn join_same_arrow_twice_is_as_once() {
    for s in ALL {
        for o in ALL {
            let once = joined(s, o);
            assert_eq!(joined(once, o), once);
        }
    }
}

#[test]
fn join_two_arrows_of_one_line_in_either_order() {
    for a in ARROWS {
        for b in ARROWS {
            let same = fold(Cell::Empty, &[a, b]) == fold(Cell::Empty, &[b, a]);
            assert_eq!(same, line_of(a) == line_of(b));
        }
    }
    assert_eq!(fold(Cell::Empty, &[Cell::Right, Cell::Up]), Cell::Right);
    assert_eq!(fold(Cell::Empty, &[Cell::Up, Cell::Right]), Cell::Up);
}

#[test]
fn join_arrows_of_one_line_in_any_order() {
    let d = [Cell::RightUp, Cell::RightDown, Cell::LeftUp, Cell::LeftDown];
    for a in d {
        for b in d {
            for c in d {
                for start in ALL {
                    let abc = fold(start, &[a, b, c]);
                    assert_eq!(fold(start, &[a, c, b]), abc);
                    assert_eq!(fold(start, &[b, a, c]), abc);
                    assert_eq!(fold(start, &[c, b, a]), abc);
                }
            }
        }
    }
    assert_eq!(
        fold(Cell::Empty, &[Cell::LeftDown, Cell::RightUp, Cell::LeftUp, Cell::RightDown]),
        Cell::Cross
    );
}

#[test]
fn points_along_falling_diagonal() {
    let yes = [
        Cell::RightDown,
        Cell::LeftUp,
        Cell::DiagFall,
        Cell::Cross,
        Cell::CrossRight,
        Cell::CrossLeft,
        Cell::CrossUp,
        Cell::CrossDown,
        Cell::CrossRightUp,
        Cell::CrossRightDown,
        Cell::CrossLeftDown,
        Cell::CrossLeftUp,
    ];
    for c in ALL {
        assert_eq!(c.points_along_diag([1, 1]), yes.contains(&c));
        assert_eq!(c.points_along_diag([-1, -1]), yes.contains(&c));
    }
}

#[test]
fn points_along_rising_diagonal() {
    let yes = [
        Cell::LeftDown,
        Cell::RightUp,
        Cell::DiagRise,
        Cell::Cross,
        Cell::CrossRight,
        Cell::CrossLeft,
        Cell::CrossDown,
        Cell::CrossLeftDown,
        Cell::CrossRightDown,
        Cell::CrossUp,
        Cell::CrossLeftUp,
        Cell::CrossRightUp,
    ];
    for c in ALL {
        assert_eq!(c.points_along_diag([-1, 1]), yes.contains(&c));
        assert_eq!(c.points_along_diag([1, -1]), yes.contains(&c));
    }
}

#[test]
fn points_along_no_diagonal() {
    for c in ALL {
        for dir in [[0, 0], [1, 0], [0, 1], [-1, 0], [0, -1], [2, 2], [1, 2], [-2, 2], [127, 127], [-128, -128]] {
            assert!(!c.points_along_diag(dir));
        }
    }
}

#[test]
fn map2_rectangle() {
    let n = Cell::Node;
    let r = Cell::Right;
    let d = Cell::Down;
    let e = Cell::Empty;
    assert_eq!(
        map2([3, 3], &diag_rect([3, 3])),
        vec![
            vec![n, r, n, r, n],
            vec![d, e, d, e, d],
            vec![n, r, n, r, n],
            vec![d, e, d, e, d],
            vec![n, r, n, r, n],
        ]
    );
}

#[test]
fn map2_crossing_diagonals() {
    let n = Cell::Node;
    let e = Cell::Empty;
    assert_eq!(
        map2([3, 3], &[[0, 4], [3, 1]]),
        vec![
            vec![n, e, n, e, e],
            vec![e, Cell::CrossRight, e, e, e],
            vec![n, e, n, e, e],
            vec![e, e, e, e, e],
            vec![e, e, e, e, e],
        ]
    );
    assert_eq!(
        map2([3, 3], &[[0, 4], [4, 0], [3, 1]]),
        vec![
            vec![n, e, n, e, e],
            vec![e, Cell::CrossRightUp, e, e, e],
            vec![n, e, n, e, e],
            vec![e, e, e, e, e],
            vec![e, e, e, e, e],
        ]
    );
    assert_eq!(
        map2([2, 2], &[[0, 3], [3, 0], [1, 2], [2, 1]]),
        vec![vec![n, e, n], vec![e, Cell::Cross, e], vec![n, e, n]]
    );
}

#[test]
fn map2_single_diagonal_marks_the_four_nodes_around_it() {
    let n = Cell::Node;
    let e = Cell::Empty;
    assert_eq!(
        map2([2, 2], &[[0, 3]]),
        vec![vec![n, e, n], vec![e, Cell::RightDown, e], vec![n, e, n]]
    );
    assert_eq!(
        map2([2, 2], &[[1, 2]]),
        vec![vec![n, e, n], vec![e, Cell::LeftDown, e], vec![n, e, n]]
    );
    assert_eq!(
        map2([2, 2], &[[3, 0]]),
        vec![vec![n, e, n], vec![e, Cell::LeftUp, e], vec![n, e, n]]
    );
    assert_eq!(
        map2([3, 2], &[[1, 5]]),
        vec![
            vec![e, e, n, e, n],
            vec![e, e, e, Cell::RightDown, e],
            vec![e, e, n, e, n],
        ]
    );
}

#[test]
fn map2_marks_every_node_next_to_a_cell_that_is_not_empty() {
    let n = Cell::Node;
    let e = Cell::Empty;
    assert_eq!(
        map2([3, 3], &[[0, 4], [4, 0], [3, 1], [1, 3], [0, 1], [1, 0], [4, 8], [5, 8]]),
        vec![
            vec![n, Cell::RightLeft, n, e, e],
            vec![e, Cell::Cross, e, e, e],
            vec![n, e, n, e, n],
            vec![e, e, e, Cell::RightDown, Cell::Down],
            vec![e, e, n, e, n],
        ]
    );
    assert_eq!(
        map2([3, 3], &[[4, 5]]),
        vec![
            vec![e, e, e, e, e],
            vec![e, e, e, e, e],
            vec![e, e, n, Cell::Right, n],
            vec![e, e, e, e, e],
            vec![e, e, e, e, e],
        ]
    );
}

#[test]
fn map2_two_way_edges() {
    assert_eq!(map2([2, 1], &[[0, 1], [1, 0]]), vec![vec![Cell::Node, Cell::RightLeft, Cell::Node]]);
    assert_eq!(
        map2([1, 2], &[[0, 1], [1, 0]]),
        vec![vec![Cell::Node], vec![Cell::UpDown], vec![Cell::Node]]
    );
    assert_eq!(map2([2, 1], &[[1, 0]]), vec![vec![Cell::Node, Cell::Left, Cell::Node]]);
    assert_eq!(map2([1, 2], &[[1, 0]]), vec![vec![Cell::Node], vec![Cell::Up], vec![Cell::Node]]);
}

#[test]
fn map2_ignores_edges_between_nodes_that_are_not_neighbours() {
    let row = vec![Cell::Empty; 5];
    assert_eq!(map2([3, 3], &[[0, 2], [0, 8], [4, 4], [2, 3]]), vec![row; 5]);
}

#[test]
fn map2_without_edges() {
    assert_eq!(map2([1, 1], &[]), vec![vec![Cell::Empty]]);
    assert_eq!(map2([2, 1], &[]), vec![vec![Cell::Empty; 3]]);
}

#[test]
fn map2_does_not_depend_on_the_order_of_edges() {
    let edges = [[0, 4], [4, 0], [3, 1], [1, 3], [0, 1], [1, 0], [4, 8], [5, 8]];
    let mut back = edges;
    back.reverse();
    assert_eq!(map2([3, 3], &edges), map2([3, 3], &back));
}

#[test]
fn visualize_rectangle() {
    let map = map2([3, 3], &diag_rect([3, 3]));
    assert_eq!(visualize(&map), "■ → ■ → ■\n↓   ↓   ↓\n■ → ■ → ■\n↓   ↓   ↓\n■ → ■ → ■");
}

#[test]
fn visualize_line() {
    let map = map2([4, 1], &dir_line(4));
    assert_eq!(visualize(&map), "■ → ■ → ■ → ■");
}

#[test]
fn visualize_crossing() {
    let map = map2([3, 3], &[[0, 4], [4, 0], [3, 1]]);
    assert_eq!(visualize(&map), "■   ■    \n  ⤯      \n■   ■    \n         \n         ");
    let map = map2([2, 2], &[[0, 3], [3, 0], [1, 2], [2, 1]]);
    assert_eq!(visualize(&map), "■   ■\n  ╳  \n■   ■");
}

#[test]
fn visualize_single_diagonal_arrow() {
    let map = map2([2, 2], &[[1, 2]]);
    assert_eq!(visualize(&map), "■   ■\n  \u{2199}\u{fe0e}  \n■   ■");
    assert_eq!(visualize(&vec![vec![Cell::RightDown]]), "\u{2198}\u{fe0e}");
    assert_eq!(
        visualize(&vec![vec![Cell::RightUp, Cell::LeftUp]]),
        "\u{2197}\u{fe0e} \u{2196}\u{fe0e}"
    );
    assert_eq!(
        visualize(&vec![vec![Cell::LeftDown, Cell::Node, Cell::LeftUp]]),
        "\u{2199}\u{fe0e} ■ \u{2196}\u{fe0e}"
    );
}

#[test]
fn visualize_puts_nothing_after_the_last_sign_of_a_row() {
    let text = visualize(&vec![vec![Cell::Node, Cell::RightDown]]);
    assert_eq!(text, "■ \u{2198}\u{fe0e}");
    assert!(text.starts_with("■ "));
    assert!(!text.ends_with(' '));
    for last in ALL {
        if last != Cell::Empty {
            let text = visualize(&vec![vec![Cell::Node, last], vec![last, last]]);
            assert!(!text.ends_with(' '));
            assert!(!text.contains(" \n"));
        }
    }
}

#[test]
fn visualize_every_sign() {
    let signs = [
        (Cell::Right, '→'),
        (Cell::Left, '←'),
        (Cell::Down, '↓'),
        (Cell::Up, '↑'),
        (Cell::RightLeft, '-'),
        (Cell::UpDown, '|'),
        (Cell::DiagRise, '⟋'),
        (Cell::DiagFall, '⟍'),
        (Cell::Cross, '╳'),
        (Cell::CrossRightUp, '⤯'),
        (Cell::CrossRightDown, '⤰'),
        (Cell::CrossRight, '⤭'),
        (Cell::CrossUp, '⤲'),
        (Cell::CrossLeft, '⤪'),
        (Cell::CrossDown, '⤩'),
        (Cell::CrossLeftUp, '⬁'),
        (Cell::CrossLeftDown, '⬃'),
        (Cell::Node, '■'),
        (Cell::Empty, ' '),
    ];
    for (cell, sign) in signs {
        assert_eq!(visualize(&vec![vec![cell]]), sign.to_string());
        assert_eq!(visualize(&vec![vec![cell, cell]]), format!("{} {}", sign, sign));
    }
}

#[test]
fn visualize_rows_without_cells() {
    let none: Vec<Cell> = vec![];
    assert_eq!(visualize(&vec![none.clone()]), "");
    assert_eq!(visualize(&vec![none.clone(), none.clone(), none]), "\n\n");
}

#[test]
fn visualize_same_input_same_text() {
    let edges = diag_rect([4, 3]);
    let first = visualize(&map2([4, 3], &edges));
    let second = visualize(&map2([4, 3], &edges));
    assert_eq!(first.as_bytes(), second.as_bytes());
}

#[test]
fn can_map_tells_when_a_graph_fits() {
    assert!(can_map([3, 3], &diag_rect([3, 3])));
    assert!(can_map([1, 1], &[]));
    assert!(can_map([1, 1], &[[0, 0]]));
    assert!(can_map([2, 3], &[[5, 0]]));
    assert!(!can_map([2, 3], &[[6, 0]]));
    assert!(!can_map([2, 3], &[[0, 6]]));
    assert!(!can_map([0, 3], &[]));
    assert!(!can_map([3, 0], &[]));
    assert!(!can_map([usize::MAX / 2 + 1, 1], &[]));
    assert!(!can_map([1, usize::MAX / 2 + 1], &[]));
    assert!(can_map([usize::MAX / 2, 1], &[[usize::MAX / 2 - 1, 0]]));
    assert!(!can_map([usize::MAX / 2, 1], &[[usize::MAX / 2, 0]]));
    assert!(can_map([usize::MAX / 2, usize::MAX / 2], &[[usize::MAX, 0]]));
}

#[test]
fn is_rectangular_tells_maps_from_other_lists() {
    let none: Vec<Vec<Cell>> = vec![];
    assert!(!is_rectangular(&none));
    assert!(is_rectangular(&vec![vec![]]));
    assert!(is_rectangular(&vec![vec![Cell::Node], vec![Cell::Empty]]));
    assert!(!is_rectangular(&vec![vec![Cell::Node], vec![]]));
    assert!(!is_rectangular(&vec![vec![Cell::Node], vec![Cell::Node], vec![Cell::Node, Cell::Node]]));
    assert!(is_rectangular(&map2([3, 2], &[[0, 1]])));
}
