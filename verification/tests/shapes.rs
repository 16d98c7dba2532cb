use reachability_solver::shapes::{diag_rect, dir_line};

#[test]
fn dir_line_of_four_nodes() {
    assert_eq!(dir_line(4), vec![[0, 1], [1, 2], [2, 3]]);
}

#[test]
fn dir_line_without_edges() {
    assert_eq!(dir_line(0), Vec::<[usize; 2]>::new());
    assert_eq!(dir_line(1), Vec::<[usize; 2]>::new());
}

#[test]
fn dir_line_of_two_nodes() {
    assert_eq!(dir_line(2), vec![[0, 1]]);
}

#[test]
fn diag_rect_three_by_three() {
    assert_eq!(
        diag_rect([3, 3]),
        vec![
            [0, 1],
            [0, 3],
            [1, 2],
            [1, 4],
            [2, 5],
            [3, 4],
            [3, 6],
            [4, 5],
            [4, 7],
            [5, 8],
            [6, 7],
            [7, 8]
        ]
    );
}

#[test]
fn diag_rect_of_one_row_is_a_line() {
    assert_eq!(diag_rect([4, 1]), dir_line(4));
}

#[test]
fn diag_rect_of_one_column() {
    assert_eq!(diag_rect([1, 3]), vec![[0, 1], [1, 2]]);
}

#[test]
fn diag_rect_two_by_three() {
    assert_eq!(diag_rect([2, 3]), vec![[0, 1], [0, 2], [1, 3], [2, 3], [2, 4], [3, 5], [4, 5]]);
}

#[test]
fn diag_rect_without_nodes() {
    assert_eq!(diag_rect([0, 0]), Vec::<[usize; 2]>::new());
    assert_eq!(diag_rect([0, 5]), Vec::<[usize; 2]>::new());
    assert_eq!(diag_rect([5, 0]), Vec::<[usize; 2]>::new());
    assert_eq!(diag_rect([1, 1]), Vec::<[usize; 2]>::new());
}
