//! Graphs of simple shapes.

use vstd::prelude::*;

verus! {

/// The directed line of `n` nodes: the edges from `0` to `1`, from `1` to
/// `2`, and so on up to `n - 1`. Without nodes, and with one node, it has no
/// edge.
pub open spec fn line(n: nat) -> Seq<[usize; 2]> {
    if n == 0 {
        Seq::empty()
    } else {
        Seq::new((n - 1) as nat, |i: int| [i as usize, (i + 1) as usize])
    }
}

/// Creates the directed line of `n` nodes, starting at node `0`.
pub fn dir_line(n: usize) -> (r: Vec<[usize; 2]>)
    ensures
        r@ == line(n as nat),
{
    let mut r: Vec<[usize; 2]> = Vec::new();
    if n == 0 {
        return r;
    }
    assert(r@ =~= line(1));
    let mut i: usize = 0;
    while i < n - 1
        invariant
            n > 0,
            i <= n - 1,
            r@ == line((i + 1) as nat),
        decreases n - 1 - i,
    {
        r.push([i, i + 1]);
        i += 1;
        assert(r@ =~= line((i + 1) as nat));
    }
    r
}

/// The edges that leave the node in column `i` of row `j`, on a grid of
/// `n[0]` columns and `n[1]` rows numbered row by row: one to the right
/// neighbour, unless the column is the last, then one to the neighbour below,
/// unless the row is the last.
pub open spec fn node_edges(n: [usize; 2], i: int, j: int) -> Seq<[usize; 2]> {
    let x = j * n[0] + i;
    let right = if i + 1 != n[0] {
        seq![[x as usize, (x + 1) as usize]]
    } else {
        Seq::empty()
    };
    let down = if j + 1 != n[1] {
        seq![[x as usize, (x + n[0]) as usize]]
    } else {
        Seq::empty()
    };
    right + down
}

/// The edges that leave the first `i` nodes of row `j`.
pub open spec fn row_edges(n: [usize; 2], j: int, i: nat) -> Seq<[usize; 2]>
    decreases i,
{
    if i == 0 {
        Seq::empty()
    } else {
        row_edges(n, j, (i - 1) as nat) + node_edges(n, i - 1, j)
    }
}

/// The edges that leave the nodes of the first `j` rows.
pub open spec fn rect(n: [usize; 2], j: nat) -> Seq<[usize; 2]>
    decreases j,
{
    if j == 0 {
        Seq::empty()
    } else {
        rect(n, (j - 1) as nat) + row_edges(n, j - 1, n[0] as nat)
    }
}

/// Creates a rectangle of `n[0]` by `n[1]` nodes, numbered row by row, in
/// which every node has an edge to its right neighbour and one to the
/// neighbour below it.
///
/// The number of nodes, `n[0] * n[1]`, must fit a `usize`.
pub fn diag_rect(n: [usize; 2]) -> (r: Vec<[usize; 2]>)
    requires
        n[0] * n[1] <= usize::MAX,
    ensures
        r@ == rect(n, n[1] as nat),
{
    let mut r: Vec<[usize; 2]> = Vec::new();
    let mut j: usize = 0;
    while j < n[1]
        invariant
            j <= n[1],
            n[0] * n[1] <= usize::MAX,
            r@ == rect(n, j as nat),
        decreases n[1] - j,
    {
        let ghost above = r@;
        let mut i: usize = 0;
        while i < n[0]
            invariant
                i <= n[0],
                j < n[1],
                n[0] * n[1] <= usize::MAX,
                r@ == above + row_edges(n, j as int, i as nat),
            decreases n[0] - i,
        {
            let ghost so_far = r@;
            proof {
                assert((j + 1) * n[0] <= n[1] * n[0]) by (nonlinear_arith)
                    requires
                        j + 1 <= n[1],
                ;
                assert((j + 1) * n[0] == j * n[0] + n[0]) by (nonlinear_arith);
                assert(n[1] * n[0] == n[0] * n[1]) by (nonlinear_arith);
                assert(0 <= j * n[0]) by (nonlinear_arith);
                if j + 1 != n[1] {
                    assert((j + 2) * n[0] <= n[1] * n[0]) by (nonlinear_arith)
                        requires
                            j + 2 <= n[1],
                    ;
                    assert((j + 2) * n[0] == j * n[0] + n[0] + n[0]) by (nonlinear_arith);
                }
            }
            let x: usize = j * n[0] + i;
            if i + 1 != n[0] {
                r.push([x, x + 1]);
            }
            if j + 1 != n[1] {
                r.push([x, x + n[0]]);
            }
            assert(r@ =~= so_far + node_edges(n, i as int, j as int));
            i += 1;
            assert(r@ =~= above + row_edges(n, j as int, i as nat));
        }
        j += 1;
    }
    r
}

/// The edge `e` leaves the node in column `i` of row `j`, for its right
/// neighbour or for the neighbour below.
pub open spec fn leaves_node(n: [usize; 2], i: int, j: int, e: [usize; 2]) -> bool {
    &&& 0 <= i < n[0]
    &&& 0 <= j < n[1]
    &&& e[0] == j * n[0] + i
    &&& (i + 1 < n[0] && e[1] == e[0] + 1) || (j + 1 < n[1] && e[1] == e[0] + n[0])
}

/// The rectangle holds an edge exactly if the edge leads from one of its
/// nodes to the right neighbour or to the neighbour below.
pub proof fn lemma_rect_edges(n: [usize; 2], e: [usize; 2])
    requires
        n[0] * n[1] <= usize::MAX,
    ensures
        rect(n, n[1] as nat).contains(e) <==> exists|i: int, j: int| leaves_node(n, i, j, e),
{
    lemma_rect_upto(n, n[1] as nat, e);
    if exists|i: int, j: int| leaves_node(n, i, j, e) {
        let (i, j) = choose|i: int, j: int| leaves_node(n, i, j, e);
        assert(j < n[1] && leaves_node(n, i, j, e));
    }
}

/// The first `rows` rows hold an edge exactly if the edge leaves one of
/// their nodes.
proof fn lemma_rect_upto(n: [usize; 2], rows: nat, e: [usize; 2])
    requires
        n[0] * n[1] <= usize::MAX,
        rows <= n[1],
    ensures
        rect(n, rows).contains(e) <==> exists|i: int, j: int| j < rows && #[trigger] leaves_node(
            n,
            i,
            j,
            e,
        ),
    decreases rows,
{
    if rows > 0 {
        let above = rect(n, (rows - 1) as nat);
        let row = row_edges(n, rows - 1, n[0] as nat);
        lemma_rect_upto(n, (rows - 1) as nat, e);
        lemma_row_upto(n, rows - 1, n[0] as nat, e);
        if (above + row).contains(e) {
            let k = choose|k: int| 0 <= k < (above + row).len() && (above + row)[k] == e;
            if k < above.len() {
                assert(above[k] == e);
                assert(above.contains(e));
                let (i, j) = choose|i: int, j: int| j < rows - 1 && #[trigger] leaves_node(n, i, j, e);
                assert(j < rows && leaves_node(n, i, j, e));
            } else {
                assert(row[k - above.len()] == e);
                assert(row.contains(e));
                let i = choose|i: int| i < n[0] && #[trigger] leaves_node(n, i, rows - 1, e);
                assert(rows - 1 < rows && leaves_node(n, i, rows - 1, e));
            }
        }
        if exists|i: int, j: int| j < rows && #[trigger] leaves_node(n, i, j, e) {
            let (i, j) = choose|i: int, j: int| j < rows && #[trigger] leaves_node(n, i, j, e);
            if j < rows - 1 {
                assert(above.contains(e));
                let k = choose|k: int| 0 <= k < above.len() && above[k] == e;
                assert((above + row)[k] == e);
            } else {
                assert(i < n[0] && leaves_node(n, i, rows - 1, e));
                assert(row.contains(e));
                let k = choose|k: int| 0 <= k < row.len() && row[k] == e;
                assert((above + row)[above.len() + k] == e);
            }
        }
    }
}

/// The first `cols` nodes of row `j` are left by an edge exactly if it
/// leaves one of them.
proof fn lemma_row_upto(n: [usize; 2], j: int, cols: nat, e: [usize; 2])
    requires
        n[0] * n[1] <= usize::MAX,
        0 <= j < n[1],
        cols <= n[0],
    ensures
        row_edges(n, j, cols).contains(e) <==> exists|i: int| i < cols && #[trigger] leaves_node(
            n,
            i,
            j,
            e,
        ),
    decreases cols,
{
    if cols > 0 {
        let before = row_edges(n, j, (cols - 1) as nat);
        let node = node_edges(n, cols - 1, j);
        lemma_row_upto(n, j, (cols - 1) as nat, e);
        lemma_node_edges(n, cols - 1, j, e);
        if (before + node).contains(e) {
            let k = choose|k: int| 0 <= k < (before + node).len() && (before + node)[k] == e;
            if k < before.len() {
                assert(before[k] == e);
                assert(before.contains(e));
                let i = choose|i: int| i < cols - 1 && #[trigger] leaves_node(n, i, j, e);
                assert(i < cols && leaves_node(n, i, j, e));
            } else {
                assert(node[k - before.len()] == e);
                assert(node.contains(e));
                assert(cols - 1 < cols && leaves_node(n, cols - 1, j, e));
            }
        }
        if exists|i: int| i < cols && #[trigger] leaves_node(n, i, j, e) {
            let i = choose|i: int| i < cols && #[trigger] leaves_node(n, i, j, e);
            if i < cols - 1 {
                assert(before.contains(e));
                let k = choose|k: int| 0 <= k < before.len() && before[k] == e;
                assert((before + node)[k] == e);
            } else {
                assert(node.contains(e));
                let k = choose|k: int| 0 <= k < node.len() && node[k] == e;
                assert((before + node)[before.len() + k] == e);
            }
        }
    }
}

/// The edges of one node are those that leave it.
proof fn lemma_node_edges(n: [usize; 2], i: int, j: int, e: [usize; 2])
    requires
        n[0] * n[1] <= usize::MAX,
        0 <= i < n[0],
        0 <= j < n[1],
    ensures
        node_edges(n, i, j).contains(e) <==> leaves_node(n, i, j, e),
{
    let x = j * n[0] + i;
    assert((j + 1) * n[0] <= n[1] * n[0]) by (nonlinear_arith)
        requires
            j + 1 <= n[1],
    ;
    assert((j + 1) * n[0] == j * n[0] + n[0]) by (nonlinear_arith);
    assert(n[1] * n[0] == n[0] * n[1]) by (nonlinear_arith);
    assert(0 <= j * n[0]) by (nonlinear_arith)
        requires
            0 <= j,
    ;
    if j + 1 < n[1] {
        assert((j + 2) * n[0] <= n[1] * n[0]) by (nonlinear_arith)
            requires
                j + 2 <= n[1],
        ;
        assert((j + 2) * n[0] == j * n[0] + n[0] + n[0]) by (nonlinear_arith);
    }
    let right: [usize; 2] = [x as usize, (x + 1) as usize];
    let down: [usize; 2] = [x as usize, (x + n[0]) as usize];
    let edges = node_edges(n, i, j);
    if edges.contains(e) {
        let k = choose|k: int| 0 <= k < edges.len() && edges[k] == e;
        assert(e == right || e == down);
    }
    if leaves_node(n, i, j, e) {
        if i + 1 < n[0] && e[1] == e[0] + 1 {
            assert(e =~= right);
            assert(edges[0] == e);
        } else {
            assert(e =~= down);
            assert(edges[edges.len() - 1] == e);
        }
    }
}

} // verus!
