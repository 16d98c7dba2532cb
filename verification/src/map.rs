//! Drawing a graph on a grid: the cells, how arrows merge in a cell,
//! the projection of a graph into cells, and the text that shows the cells.

use vstd::prelude::*;

verus! {

/// What one cell of the map shows.
#[derive(Clone, Copy, PartialEq, Eq, Debug, Hash, Structural)]
pub enum Cell {
    /// A node next to which, diagonally too, a cell is not empty.
    Node,
    /// Nothing.
    Empty,
    /// An edge pointing right.
    Right,
    /// An edge pointing left.
    Left,
    /// An edge pointing up.
    Up,
    /// An edge pointing down.
    Down,
    /// Edges pointing right and left.
    RightLeft,
    /// Edges pointing up and down.
    UpDown,
    /// An edge pointing right and up.
    RightUp,
    /// An edge pointing right and down.
    RightDown,
    /// An edge pointing left and up.
    LeftUp,
    /// An edge pointing left and down.
    LeftDown,
    /// Both edges of the rising diagonal: left down and right up.
    DiagRise,
    /// Both edges of the falling diagonal: left up and right down.
    DiagFall,
    /// All four diagonal edges.
    Cross,
    /// The two diagonal edges pointing right.
    CrossRight,
    /// The two diagonal edges pointing left.
    CrossLeft,
    /// The two diagonal edges pointing up.
    CrossUp,
    /// The two diagonal edges pointing down.
    CrossDown,
    /// The rising diagonal crossed by an edge pointing left and up.
    CrossLeftUp,
    /// The falling diagonal crossed by an edge pointing left and down.
    CrossLeftDown,
    /// The falling diagonal crossed by an edge pointing right and up.
    CrossRightUp,
    /// The rising diagonal crossed by an edge pointing right and down.
    CrossRightDown,
}

/// The set of arrows in a cell, one flag for each of the eight directions.
pub struct Arrows {
    pub right: bool,
    pub left: bool,
    pub up: bool,
    pub down: bool,
    pub right_up: bool,
    pub right_down: bool,
    pub left_up: bool,
    pub left_down: bool,
}

impl Arrows {
    /// No arrow at all.
    pub open spec fn none() -> Arrows {
        Arrows {
            right: false,
            left: false,
            up: false,
            down: false,
            right_up: false,
            right_down: false,
            left_up: false,
            left_down: false,
        }
    }

    /// The arrows of `self` together with those of `other`.
    pub open spec fn union(self, other: Arrows) -> Arrows {
        Arrows {
            right: self.right || other.right,
            left: self.left || other.left,
            up: self.up || other.up,
            down: self.down || other.down,
            right_up: self.right_up || other.right_up,
            right_down: self.right_down || other.right_down,
            left_up: self.left_up || other.left_up,
            left_down: self.left_down || other.left_down,
        }
    }

    /// Some arrow, and none but right and left.
    pub open spec fn horizontal(self) -> bool {
        (self.right || self.left) && !self.up && !self.down && !self.right_up && !self.right_down
            && !self.left_up && !self.left_down
    }

    /// Some arrow, and none but up and down.
    pub open spec fn vertical(self) -> bool {
        (self.up || self.down) && !self.right && !self.left && !self.right_up && !self.right_down
            && !self.left_up && !self.left_down
    }

    /// Some arrow, and none but the four diagonal ones.
    pub open spec fn diagonal(self) -> bool {
        (self.right_up || self.right_down || self.left_up || self.left_down) && !self.right
            && !self.left && !self.up && !self.down
    }

    /// Both sets lie on one kind of line: both horizontal, both vertical or
    /// both diagonal.
    pub open spec fn same_line(self, other: Arrows) -> bool {
        ||| self.horizontal() && other.horizontal()
        ||| self.vertical() && other.vertical()
        ||| self.diagonal() && other.diagonal()
    }

    /// No arrow is in both sets.
    pub open spec fn apart(self, other: Arrows) -> bool {
        &&& !(self.right && other.right)
        &&& !(self.left && other.left)
        &&& !(self.up && other.up)
        &&& !(self.down && other.down)
        &&& !(self.right_up && other.right_up)
        &&& !(self.right_down && other.right_down)
        &&& !(self.left_up && other.left_up)
        &&& !(self.left_down && other.left_down)
    }

    /// An arrow along the falling diagonal: left up or right down.
    pub open spec fn falls(self) -> bool {
        self.left_up || self.right_down
    }

    /// An arrow along the rising diagonal: left down or right up.
    pub open spec fn rises(self) -> bool {
        self.left_down || self.right_up
    }
}

/// `dir` is one of the two unit steps along the falling diagonal:
/// `[1, 1]` or `[-1, -1]`.
pub open spec fn along_fall(dir: [i8; 2]) -> bool {
    (dir[0] == 1 && dir[1] == 1) || (dir[0] == -1 && dir[1] == -1)
}

/// `dir` is one of the two unit steps along the rising diagonal:
/// `[-1, 1]` or `[1, -1]`.
pub open spec fn along_rise(dir: [i8; 2]) -> bool {
    (dir[0] == -1 && dir[1] == 1) || (dir[0] == 1 && dir[1] == -1)
}

impl Cell {
    /// The arrows that the cell shows. A node and an empty cell show none.
    pub open spec fn arrows(self) -> Arrows {
        let o = Arrows::none();
        match self {
            Cell::Node => o,
            Cell::Empty => o,
            Cell::Right => Arrows { right: true, ..o },
            Cell::Left => Arrows { left: true, ..o },
            Cell::Up => Arrows { up: true, ..o },
            Cell::Down => Arrows { down: true, ..o },
            Cell::RightLeft => Arrows { right: true, left: true, ..o },
            Cell::UpDown => Arrows { up: true, down: true, ..o },
            Cell::RightUp => Arrows { right_up: true, ..o },
            Cell::RightDown => Arrows { right_down: true, ..o },
            Cell::LeftUp => Arrows { left_up: true, ..o },
            Cell::LeftDown => Arrows { left_down: true, ..o },
            Cell::DiagRise => Arrows { left_down: true, right_up: true, ..o },
            Cell::DiagFall => Arrows { left_up: true, right_down: true, ..o },
            Cell::Cross => Arrows {
                right_up: true,
                right_down: true,
                left_up: true,
                left_down: true,
                ..o
            },
            Cell::CrossRight => Arrows { right_up: true, right_down: true, ..o },
            Cell::CrossLeft => Arrows { left_up: true, left_down: true, ..o },
            Cell::CrossUp => Arrows { right_up: true, left_up: true, ..o },
            Cell::CrossDown => Arrows { right_down: true, left_down: true, ..o },
            Cell::CrossLeftUp => Arrows { left_down: true, right_up: true, left_up: true, ..o },
            Cell::CrossLeftDown => Arrows { left_up: true, right_down: true, left_down: true, ..o },
            Cell::CrossRightUp => Arrows { left_up: true, right_down: true, right_up: true, ..o },
            Cell::CrossRightDown => Arrows {
                left_down: true,
                right_up: true,
                right_down: true,
                ..o
            },
        }
    }

    /// The cell is a single arrow, one of the eight that an edge can leave in
    /// a cell.
    pub open spec fn is_arrow(self) -> bool {
        self is Right || self is Left || self is Up || self is Down || self is RightUp
            || self is RightDown || self is LeftUp || self is LeftDown
    }

    /// The cell is a crossing of two diagonal arrows that point to one side:
    /// both right, both left, both up or both down.
    pub open spec fn is_crossing(self) -> bool {
        self is CrossRight || self is CrossLeft || self is CrossUp || self is CrossDown
    }

    /// The cell, other than a node, that shows exactly the arrows `a`, where
    /// `a` lies on one kind of line; an empty cell for any other `a`.
    pub open spec fn showing(a: Arrows) -> Cell {
        if a.horizontal() {
            if !a.left {
                Cell::Right
            } else if !a.right {
                Cell::Left
            } else {
                Cell::RightLeft
            }
        } else if a.vertical() {
            if !a.down {
                Cell::Up
            } else if !a.up {
                Cell::Down
            } else {
                Cell::UpDown
            }
        } else if a.diagonal() {
            match (a.right_up, a.right_down, a.left_up, a.left_down) {
                (true, false, false, false) => Cell::RightUp,
                (false, true, false, false) => Cell::RightDown,
                (false, false, true, false) => Cell::LeftUp,
                (false, false, false, true) => Cell::LeftDown,
                (true, false, false, true) => Cell::DiagRise,
                (false, true, true, false) => Cell::DiagFall,
                (true, true, false, false) => Cell::CrossRight,
                (false, false, true, true) => Cell::CrossLeft,
                (true, false, true, false) => Cell::CrossUp,
                (false, true, false, true) => Cell::CrossDown,
                (true, false, true, true) => Cell::CrossLeftUp,
                (false, true, true, true) => Cell::CrossLeftDown,
                (true, true, true, false) => Cell::CrossRightUp,
                (true, true, false, true) => Cell::CrossRightDown,
                _ => Cell::Cross,
            }
        } else {
            Cell::Empty
        }
    }

    /// What a cell that holds `self` holds after `other` is merged into it.
    ///
    /// An empty cell takes `other` as it is. Otherwise a single arrow that
    /// lies on the same kind of line as the arrows already there is added to
    /// them, and so are the arrows of a crossing to those of a crossing with
    /// which it shares none, which gives all four diagonal arrows. Anything
    /// else leaves the cell as it was.
    pub open spec fn joined(self, other: Cell) -> Cell {
        if self is Empty {
            other
        } else if other.is_arrow() && self.arrows().same_line(other.arrows()) {
            Cell::showing(self.arrows().union(other.arrows()))
        } else if self.is_crossing() && other.is_crossing() && self.arrows().apart(
            other.arrows(),
        ) {
            Cell::showing(self.arrows().union(other.arrows()))
        } else {
            self
        }
    }

    /// A cell other than a node is the one that shows its arrows: no two
    /// such cells show the same.
    pub proof fn lemma_showing(self)
        requires
            !(self is Node),
        ensures
            Cell::showing(self.arrows()) == self,
    {
    }

    /// Arrows on one kind of line are shown by a cell, other than a node or
    /// an empty cell, that shows exactly them.
    pub proof fn lemma_shown(a: Arrows)
        requires
            a.horizontal() || a.vertical() || a.diagonal(),
        ensures
            Cell::showing(a).arrows() == a,
            !(Cell::showing(a) is Node),
            !(Cell::showing(a) is Empty),
    {
    }

    /// Merges `other` into the cell.
    pub fn join(&mut self, other: Cell)
        ensures
            *final(self) == old(self).joined(other),
    {
        match (*self, other) {
            (Cell::Empty, x) => *self = x,
            (Cell::Left, Cell::Right) | (Cell::Right, Cell::Left) => *self = Cell::RightLeft,
            (_, Cell::Left) | (_, Cell::Right) | (Cell::Left, _) | (Cell::Right, _) => {},
            (Cell::Up, Cell::Down) | (Cell::Down, Cell::Up) => *self = Cell::UpDown,
            (_, Cell::Up) | (_, Cell::Down) | (Cell::Up, _) | (Cell::Down, _) => {},
            (Cell::LeftUp, Cell::RightDown) | (Cell::RightDown, Cell::LeftUp) => {
                *self = Cell::DiagFall
            },
            (Cell::LeftDown, Cell::RightUp) | (Cell::RightUp, Cell::LeftDown) => {
                *self = Cell::DiagRise
            },
            (Cell::RightUp, Cell::RightDown) | (Cell::RightDown, Cell::RightUp) => {
                *self = Cell::CrossRight
            },
            (Cell::LeftUp, Cell::LeftDown) | (Cell::LeftDown, Cell::LeftUp) => {
                *self = Cell::CrossLeft
            },
            (Cell::RightUp, Cell::LeftUp) | (Cell::LeftUp, Cell::RightUp) => {
                *self = Cell::CrossUp
            },
            (Cell::LeftDown, Cell::RightDown) | (Cell::RightDown, Cell::LeftDown) => {
                *self = Cell::CrossDown
            },
            (Cell::DiagRise, Cell::RightDown) => *self = Cell::CrossRightDown,
            (Cell::DiagRise, Cell::LeftUp) => *self = Cell::CrossLeftUp,
            (Cell::DiagFall, Cell::LeftDown) => *self = Cell::CrossLeftDown,
            (Cell::DiagFall, Cell::RightUp) => *self = Cell::CrossRightUp,
            (Cell::CrossRight, Cell::CrossLeft)
            | (Cell::CrossLeft, Cell::CrossRight)
            | (Cell::CrossUp, Cell::CrossDown)
            | (Cell::CrossDown, Cell::CrossUp) => *self = Cell::Cross,
            (Cell::CrossRight, Cell::LeftDown) => *self = Cell::CrossRightDown,
            (Cell::CrossRight, Cell::LeftUp) => *self = Cell::CrossRightUp,
            (Cell::CrossLeft, Cell::RightUp) => *self = Cell::CrossLeftUp,
            (Cell::CrossLeft, Cell::RightDown) => *self = Cell::CrossLeftDown,
            (Cell::CrossUp, Cell::RightDown) => *self = Cell::CrossRightUp,
            (Cell::CrossUp, Cell::LeftDown) => *self = Cell::CrossLeftUp,
            (Cell::CrossDown, Cell::LeftUp) => *self = Cell::CrossLeftDown,
            (Cell::CrossDown, Cell::RightUp) => *self = Cell::CrossRightDown,
            (Cell::CrossRightUp, Cell::LeftDown) => *self = Cell::Cross,
            (Cell::CrossRightDown, Cell::LeftUp) => *self = Cell::Cross,
            (Cell::CrossLeftUp, Cell::RightDown) => *self = Cell::Cross,
            (Cell::CrossLeftDown, Cell::RightUp) => *self = Cell::Cross,
            (_, _) => {},
        }
    }

    /// Whether the cell has an arrow along the diagonal that `dir` lies on.
    ///
    /// `dir` is a step of one cell: `[1, 1]` and `[-1, -1]` lie on the falling
    /// diagonal, `[-1, 1]` and `[1, -1]` on the rising one. Which way `dir`
    /// points along its diagonal makes no difference, and for any other `dir`
    /// the answer is `false`.
    pub fn points_along_diag(self, dir: [i8; 2]) -> (b: bool)
        ensures
            b == (along_fall(dir) && self.arrows().falls() || along_rise(dir)
                && self.arrows().rises()),
    {
        let dx: i8 = dir[0];
        let dy: i8 = dir[1];
        if (dx == 1 && dy == 1) || (dx == -1 && dy == -1) {
            match self {
                Cell::RightDown
                | Cell::LeftUp
                | Cell::DiagFall
                | Cell::Cross
                | Cell::CrossRight
                | Cell::CrossLeft
                | Cell::CrossUp
                | Cell::CrossDown
                | Cell::CrossRightUp
                | Cell::CrossRightDown
                | Cell::CrossLeftDown
                | Cell::CrossLeftUp => true,
                Cell::Empty
                | Cell::Node
                | Cell::Right
                | Cell::Left
                | Cell::Up
                | Cell::Down
                | Cell::RightLeft
                | Cell::UpDown
                | Cell::RightUp
                | Cell::LeftDown
                | Cell::DiagRise => false,
            }
        } else if (dx == -1 && dy == 1) || (dx == 1 && dy == -1) {
            match self {
                Cell::LeftDown
                | Cell::RightUp
                | Cell::DiagRise
                | Cell::Cross
                | Cell::CrossRight
                | Cell::CrossLeft
                | Cell::CrossDown
                | Cell::CrossLeftDown
                | Cell::CrossRightDown
                | Cell::CrossUp
                | Cell::CrossLeftUp
                | Cell::CrossRightUp => true,
                Cell::Empty
                | Cell::Node
                | Cell::Left
                | Cell::Right
                | Cell::Up
                | Cell::Down
                | Cell::RightLeft
                | Cell::UpDown
                | Cell::RightDown
                | Cell::LeftUp
                | Cell::DiagFall => false,
            }
        } else {
            false
        }
    }
}

/// Two arrows on one kind of line can be merged into an empty cell in either
/// order: the cell ends up the same.
pub proof fn lemma_join_either_order(a: Cell, b: Cell)
    requires
        a.is_arrow(),
        b.is_arrow(),
        a.arrows().same_line(b.arrows()),
    ensures
        Cell::Empty.joined(a).joined(b) == Cell::Empty.joined(b).joined(a),
{
}

/// Two arrows on different kinds of line cannot: the first one stays alone
/// in the cell, whichever it is.
pub proof fn lemma_join_first_stays(a: Cell, b: Cell)
    requires
        a.is_arrow(),
        b.is_arrow(),
        !a.arrows().same_line(b.arrows()),
    ensures
        Cell::Empty.joined(a).joined(b) == a,
        Cell::Empty.joined(b).joined(a) == b,
        a != b,
{
}

/// Into a cell that is not empty any two arrows can be merged in either
/// order, and into any cell two arrows on one kind of line.
pub proof fn lemma_join_swap(c: Cell, a: Cell, b: Cell)
    requires
        a.is_arrow(),
        b.is_arrow(),
        !(c is Empty) || a.arrows().same_line(b.arrows()),
    ensures
        c.joined(a).joined(b) == c.joined(b).joined(a),
{
}

/// Two crossings that share no arrow merge into the crossing of all four
/// diagonal arrows, in either order; two that share an arrow do not merge.
pub proof fn lemma_join_crossings(a: Cell, b: Cell)
    requires
        a.is_crossing(),
        b.is_crossing(),
    ensures
        a.arrows().apart(b.arrows()) ==> a.joined(b) is Cross && b.joined(a) is Cross,
        !a.arrows().apart(b.arrows()) ==> a.joined(b) == a && b.joined(a) == b,
        a.arrows().apart(b.arrows()) <==> (a is CrossRight && b is CrossLeft) || (a is CrossLeft
            && b is CrossRight) || (a is CrossUp && b is CrossDown) || (a is CrossDown
            && b is CrossUp),
{
}

/// Merging the same arrow a second time changes nothing.
pub proof fn lemma_join_twice(c: Cell, a: Cell)
    requires
        a.is_arrow(),
    ensures
        c.joined(a).joined(a) == c.joined(a),
{
}

/// The column of node `v` on a map that is `w` nodes wide.
pub open spec fn col(w: int, v: usize) -> int {
    v as int % w
}

/// The row of node `v` on a map that is `w` nodes wide.
pub open spec fn row(w: int, v: usize) -> int {
    v as int / w
}

/// The arrow for a step of `dx` columns and `dy` rows to one of the eight
/// neighbours, and an empty cell for any other step.
pub open spec fn arrow(dx: int, dy: int) -> Cell {
    if dx == 1 && dy == 0 {
        Cell::Right
    } else if dx == -1 && dy == 0 {
        Cell::Left
    } else if dx == 0 && dy == 1 {
        Cell::Down
    } else if dx == 0 && dy == -1 {
        Cell::Up
    } else if dx == 1 && dy == 1 {
        Cell::RightDown
    } else if dx == 1 && dy == -1 {
        Cell::RightUp
    } else if dx == -1 && dy == -1 {
        Cell::LeftUp
    } else if dx == -1 && dy == 1 {
        Cell::LeftDown
    } else {
        Cell::Empty
    }
}

/// The arrow from the first node of `e` to its second, if they are
/// neighbours; an empty cell if they are not.
pub open spec fn arrow_of(w: int, e: [usize; 2]) -> Cell {
    arrow(col(w, e[1]) - col(w, e[0]), row(w, e[1]) - row(w, e[0]))
}

/// What edge `e` leaves in the cell in column `x` and row `y` of the map: its
/// arrow, if the cell lies midway between the cells of its two nodes, which
/// stand in the even columns and rows; nothing in any other cell.
pub open spec fn mark(w: int, e: [usize; 2], x: int, y: int) -> Cell {
    if x == col(w, e[0]) + col(w, e[1]) && y == row(w, e[0]) + row(w, e[1]) {
        arrow_of(w, e)
    } else {
        Cell::Empty
    }
}

/// Some edge leaves the arrow `m` in the cell in column `x` and row `y`.
#[verifier::opaque]
pub open spec fn marked(w: int, edges: Seq<[usize; 2]>, x: int, y: int, m: Cell) -> bool {
    exists|k: int| 0 <= k < edges.len() && #[trigger] mark(w, edges[k], x, y) == m
}

/// All the arrows that the edges leave in the cell in column `x` and row `y`.
pub open spec fn arrows_at(w: int, edges: Seq<[usize; 2]>, x: int, y: int) -> Arrows {
    Arrows {
        right: marked(w, edges, x, y, Cell::Right),
        left: marked(w, edges, x, y, Cell::Left),
        up: marked(w, edges, x, y, Cell::Up),
        down: marked(w, edges, x, y, Cell::Down),
        right_up: marked(w, edges, x, y, Cell::RightUp),
        right_down: marked(w, edges, x, y, Cell::RightDown),
        left_up: marked(w, edges, x, y, Cell::LeftUp),
        left_down: marked(w, edges, x, y, Cell::LeftDown),
    }
}

/// The cell in column `x` and row `y` lies on the map of `dim[0]` by
/// `dim[1]` nodes, and the arrows that the edges leave there make a cell
/// that is not empty.
pub open spec fn filled(dim: [usize; 2], edges: Seq<[usize; 2]>, x: int, y: int) -> bool {
    &&& 0 <= x < 2 * dim[0] - 1
    &&& 0 <= y < 2 * dim[1] - 1
    &&& !(Cell::showing(arrows_at(dim[0] as int, edges, x, y)) is Empty)
}

/// One of the eight cells around the cell in column `x` and row `y`, those
/// diagonally next to it too, is not empty.
pub open spec fn around(dim: [usize; 2], edges: Seq<[usize; 2]>, x: int, y: int) -> bool {
    ||| filled(dim, edges, x - 1, y)
    ||| filled(dim, edges, x + 1, y)
    ||| filled(dim, edges, x, y - 1)
    ||| filled(dim, edges, x, y + 1)
    ||| filled(dim, edges, x + 1, y + 1)
    ||| filled(dim, edges, x - 1, y - 1)
    ||| filled(dim, edges, x - 1, y + 1)
    ||| filled(dim, edges, x + 1, y - 1)
}

/// The cell in column `x` and row `y` of the map of `edges`.
///
/// Where column and row are both even stands a node: it is marked if one of
/// the eight cells around it is not empty. Every other cell shows the arrows
/// that the edges leave in it.
pub open spec fn cell_at(dim: [usize; 2], edges: Seq<[usize; 2]>, x: int, y: int) -> Cell {
    if x % 2 == 0 && y % 2 == 0 {
        if around(dim, edges, x, y) {
            Cell::Node
        } else {
            Cell::Empty
        }
    } else {
        Cell::showing(arrows_at(dim[0] as int, edges, x, y))
    }
}

/// The map of `edges` on `dim[0]` by `dim[1]` nodes: `2 * dim[1] - 1` rows
/// of `2 * dim[0] - 1` cells each.
pub open spec fn projected(dim: [usize; 2], edges: Seq<[usize; 2]>) -> Seq<Seq<Cell>> {
    Seq::new(
        (2 * dim[1] - 1) as nat,
        |y: int| Seq::new((2 * dim[0] - 1) as nat, |x: int| cell_at(dim, edges, x, y)),
    )
}

/// Both nodes of every edge are among the `dim[0] * dim[1]` nodes of the map.
pub open spec fn fits(dim: [usize; 2], edges: Seq<[usize; 2]>) -> bool {
    forall|k: int|
        0 <= k < edges.len() ==> (#[trigger] edges[k])[0] < dim[0] * dim[1] && edges[k][1] < dim[0]
            * dim[1]
}

/// A graph can be drawn on `dim[0]` by `dim[1]` nodes: there is a node, the
/// nodes of every edge are among them, and the number of columns and of rows
/// of the map fit a `usize` when doubled.
pub open spec fn mappable(dim: [usize; 2], edges: Seq<[usize; 2]>) -> bool {
    &&& dim[0] >= 1
    &&& dim[1] >= 1
    &&& 2 * dim[0] <= usize::MAX
    &&& 2 * dim[1] <= usize::MAX
    &&& fits(dim, edges)
}

/// The map has a row, and all its rows are of one length.
pub open spec fn rectangular(map: Seq<Vec<Cell>>) -> bool {
    &&& map.len() > 0
    &&& forall|y: int| 0 <= y < map.len() ==> (#[trigger] map[y]).len() == map[0].len()
}

/// The rows of a map as sequences of cells.
pub open spec fn cells(map: Seq<Vec<Cell>>) -> Seq<Seq<Cell>> {
    Seq::new(map.len(), |y: int| map[y]@)
}

/// An edge leaves a horizontal arrow only in an odd column of an even row,
/// a vertical one only in an even column of an odd row, a diagonal one only
/// where column and row are odd, and never anything but a single arrow.
pub proof fn lemma_mark_place(w: int, e: [usize; 2], x: int, y: int)
    requires
        w > 0,
    ensures
        mark(w, e, x, y).is_arrow() || mark(w, e, x, y) is Empty,
        mark(w, e, x, y).arrows().horizontal() ==> x % 2 != 0 && y % 2 == 0,
        mark(w, e, x, y).arrows().vertical() ==> x % 2 == 0 && y % 2 != 0,
        mark(w, e, x, y).arrows().diagonal() ==> x % 2 != 0 && y % 2 != 0,
{
}

/// The arrows in one cell lie on one kind of line, which the cell's place
/// decides, and a cell in an even column of an even row holds none.
pub proof fn lemma_arrows_at_line(w: int, edges: Seq<[usize; 2]>, x: int, y: int)
    requires
        w > 0,
    ensures
        ({
            let a = arrows_at(w, edges, x, y);
            &&& a == Arrows::none() || a.horizontal() || a.vertical() || a.diagonal()
            &&& a.horizontal() ==> x % 2 != 0 && y % 2 == 0
            &&& a.vertical() ==> x % 2 == 0 && y % 2 != 0
            &&& a.diagonal() ==> x % 2 != 0 && y % 2 != 0
        }),
{
    reveal(marked);
    assert forall|m: Cell| m.is_arrow() && marked(w, edges, x, y, m) implies (m.arrows().horizontal()
        ==> x % 2 != 0 && y % 2 == 0) && (m.arrows().vertical() ==> x % 2 == 0 && y % 2 != 0) && (
    m.arrows().diagonal() ==> x % 2 != 0 && y % 2 != 0) by {
        let k = choose|k: int| 0 <= k < edges.len() && #[trigger] mark(w, edges[k], x, y) == m;
        lemma_mark_place(w, edges[k], x, y);
    }
    // The eight arrows, for each of which the statement above is needed.
    assert(Cell::Right.is_arrow() && Cell::Left.is_arrow() && Cell::Up.is_arrow()
        && Cell::Down.is_arrow() && Cell::RightUp.is_arrow() && Cell::RightDown.is_arrow()
        && Cell::LeftUp.is_arrow() && Cell::LeftDown.is_arrow());
}

/// One more edge adds what it leaves in a cell to the arrows there.
pub proof fn lemma_arrows_at_push(w: int, edges: Seq<[usize; 2]>, e: [usize; 2], x: int, y: int)
    requires
        w > 0,
    ensures
        arrows_at(w, edges.push(e), x, y) == arrows_at(w, edges, x, y).union(
            mark(w, e, x, y).arrows(),
        ),
{
    reveal(marked);
    let more = edges.push(e);
    lemma_mark_place(w, e, x, y);
    assert forall|m: Cell| m.is_arrow() implies marked(w, more, x, y, m) == (marked(
        w,
        edges,
        x,
        y,
        m,
    ) || mark(w, e, x, y) == m) by {
        if marked(w, edges, x, y, m) {
            let k = choose|k: int| 0 <= k < edges.len() && #[trigger] mark(w, edges[k], x, y) == m;
            assert(more[k] == edges[k]);
        }
        if mark(w, e, x, y) == m {
            assert(more[edges.len() as int] == e);
        }
        if marked(w, more, x, y, m) {
            let k = choose|k: int| 0 <= k < more.len() && #[trigger] mark(w, more[k], x, y) == m;
            if k < edges.len() {
                assert(more[k] == edges[k]);
            }
        }
    }
    // The eight arrows, for each of which the statement above is needed.
    assert(Cell::Right.is_arrow() && Cell::Left.is_arrow() && Cell::Up.is_arrow()
        && Cell::Down.is_arrow() && Cell::RightUp.is_arrow() && Cell::RightDown.is_arrow()
        && Cell::LeftUp.is_arrow() && Cell::LeftDown.is_arrow());
}

/// A map of `gh` rows of `gw` empty cells.
fn blank(gw: usize, gh: usize) -> (map: Vec<Vec<Cell>>)
    ensures
        map.len() == gh,
        forall|y: int| 0 <= y < gh ==> (#[trigger] map[y]).len() == gw,
        forall|y: int, x: int| 0 <= y < gh && 0 <= x < gw ==> (#[trigger] map[y][x]) is Empty,
{
    let mut map: Vec<Vec<Cell>> = Vec::new();
    let mut y: usize = 0;
    while y < gh
        invariant
            y <= gh,
            map.len() == y,
            forall|j: int| 0 <= j < y ==> (#[trigger] map[j]).len() == gw,
            forall|j: int, x: int| 0 <= j < y && 0 <= x < gw ==> (#[trigger] map[j][x]) is Empty,
        decreases gh - y,
    {
        let mut line: Vec<Cell> = Vec::new();
        let mut x: usize = 0;
        while x < gw
            invariant
                x <= gw,
                line.len() == x,
                forall|i: int| 0 <= i < x ==> (#[trigger] line[i]) is Empty,
            decreases gw - x,
        {
            line.push(Cell::Empty);
            x += 1;
        }
        map.push(line);
        y += 1;
    }
    map
}

/// The map holds, in every cell, the arrows that `edges` leave there, and no
/// node yet.
spec fn drawn(w: int, h: int, edges: Seq<[usize; 2]>, map: Seq<Vec<Cell>>) -> bool {
    &&& map.len() == 2 * h - 1
    &&& forall|y: int| 0 <= y < 2 * h - 1 ==> (#[trigger] map[y]).len() == 2 * w - 1
    &&& forall|y: int, x: int|
        0 <= y < 2 * h - 1 && 0 <= x < 2 * w - 1 ==> !((#[trigger] map[y][x]) is Node)
            && map[y][x].arrows() == arrows_at(w, edges, x, y)
}

/// Merges the arrow `m` into the cell in column `x` of row `y`.
fn put(map: &mut Vec<Vec<Cell>>, x: usize, y: usize, m: Cell)
    requires
        y < old(map).len(),
        x < old(map)[y as int].len(),
    ensures
        final(map).len() == old(map).len(),
        forall|j: int| 0 <= j < old(map).len() ==> (#[trigger] final(map)[j]).len() == old(map)[j].len(),
        final(map)[y as int][x as int] == old(map)[y as int][x as int].joined(m),
        forall|j: int, i: int|
            0 <= j < old(map).len() && 0 <= i < old(map)[j].len() && !(j == y && i == x) ==> (
            #[trigger] final(map)[j][i]) == old(map)[j][i],
{
    map[y][x].join(m);
}

/// `after` is `before` with `m` merged into the cell in column `x` of row
/// `y`, and with nothing changed where `m` is an empty cell.
spec fn merged_at(
    before: Seq<Vec<Cell>>,
    after: Seq<Vec<Cell>>,
    x: int,
    y: int,
    m: Cell,
) -> bool {
    &&& after.len() == before.len()
    &&& forall|j: int| 0 <= j < before.len() ==> (#[trigger] after[j]).len() == before[j].len()
    &&& forall|j: int, i: int|
        0 <= j < before.len() && 0 <= i < before[j].len() ==> (#[trigger] after[j][i]) == (if j
            == y && i == x && !(m is Empty) {
            before[j][i].joined(m)
        } else {
            before[j][i]
        })
}

/// Merging the arrow of one more edge into its cell keeps the map drawn.
proof fn lemma_draw(
    w: int,
    h: int,
    edges: Seq<[usize; 2]>,
    e: [usize; 2],
    before: Seq<Vec<Cell>>,
    after: Seq<Vec<Cell>>,
)
    requires
        w > 0,
        h > 0,
        drawn(w, h, edges, before),
        merged_at(
            before,
            after,
            col(w, e[0]) + col(w, e[1]),
            row(w, e[0]) + row(w, e[1]),
            arrow_of(w, e),
        ),
    ensures
        drawn(w, h, edges.push(e), after),
{
    let m = arrow_of(w, e);
    let sx = col(w, e[0]) + col(w, e[1]);
    let sy = row(w, e[0]) + row(w, e[1]);
    assert forall|y: int, x: int| 0 <= y < 2 * h - 1 && 0 <= x < 2 * w - 1 implies !((
    #[trigger] after[y][x]) is Node) && after[y][x].arrows() == arrows_at(
        w,
        edges.push(e),
        x,
        y,
    ) by {
        lemma_arrows_at_push(w, edges, e, x, y);
        lemma_arrows_at_line(w, edges, x, y);
        lemma_mark_place(w, e, x, y);
        let was = before[y][x];
        if x == sx && y == sy && !(m is Empty) {
            assert(after[y][x] == was.joined(m));
            assert(mark(w, e, x, y) == m);
            if !(was is Empty) {
                Cell::lemma_shown(was.arrows().union(m.arrows()));
            }
        } else {
            assert(after[y][x] == was);
            assert(mark(w, e, x, y) is Empty);
        }
    }
}

/// Where the arrow of edge `e` goes, and which arrow it is: column, row
/// and arrow, or `None` if the nodes of `e` are not neighbours.
fn place(dim: [usize; 2], e: [usize; 2]) -> (spot: Option<(usize, usize, Cell)>)
    requires
        dim[0] >= 1,
        dim[1] >= 1,
        2 * dim[0] <= usize::MAX,
        2 * dim[1] <= usize::MAX,
        e[0] < dim[0] * dim[1],
        e[1] < dim[0] * dim[1],
    ensures
        spot is None ==> arrow_of(dim[0] as int, e) is Empty,
        spot matches Some((x, y, m)) ==> {
            &&& m == arrow_of(dim[0] as int, e)
            &&& !(m is Empty)
            &&& x == col(dim[0] as int, e[0]) + col(dim[0] as int, e[1])
            &&& y == row(dim[0] as int, e[0]) + row(dim[0] as int, e[1])
            &&& x < 2 * dim[0] - 1
            &&& y < 2 * dim[1] - 1
        },
{
    let w: usize = dim[0];
    let a: usize = e[0];
    let b: usize = e[1];
    proof {
        vstd::arithmetic::div_mod::lemma_multiply_divide_lt(a as int, w as int, dim[1] as int);
        vstd::arithmetic::div_mod::lemma_multiply_divide_lt(b as int, w as int, dim[1] as int);
    }
    let ax: usize = a % w;
    let ay: usize = a / w;
    let bx: usize = b % w;
    let by: usize = b / w;
    if bx == ax + 1 && by == ay {
        Some((ax * 2 + 1, ay * 2, Cell::Right))
    } else if bx + 1 == ax && by == ay {
        Some((ax * 2 - 1, ay * 2, Cell::Left))
    } else if bx == ax && by == ay + 1 {
        Some((ax * 2, ay * 2 + 1, Cell::Down))
    } else if bx == ax && by + 1 == ay {
        Some((ax * 2, ay * 2 - 1, Cell::Up))
    } else if bx == ax + 1 && by == ay + 1 {
        Some((ax * 2 + 1, ay * 2 + 1, Cell::RightDown))
    } else if bx == ax + 1 && by + 1 == ay {
        Some((ax * 2 + 1, ay * 2 - 1, Cell::RightUp))
    } else if bx + 1 == ax && by + 1 == ay {
        Some((ax * 2 - 1, ay * 2 - 1, Cell::LeftUp))
    } else if bx + 1 == ax && by == ay + 1 {
        Some((ax * 2 - 1, ay * 2 + 1, Cell::LeftDown))
    } else {
        None
    }
}

/// Draws the arrow of every edge whose nodes are neighbours.
fn draw(map: &mut Vec<Vec<Cell>>, dim: [usize; 2], edges: &[[usize; 2]])
    requires
        dim[0] >= 1,
        dim[1] >= 1,
        2 * dim[0] <= usize::MAX,
        2 * dim[1] <= usize::MAX,
        fits(dim, edges@),
        drawn(dim[0] as int, dim[1] as int, Seq::empty(), old(map)@),
    ensures
        drawn(dim[0] as int, dim[1] as int, edges@, final(map)@),
{
    let mut k: usize = 0;
    assert(edges@.take(0) =~= Seq::empty());
    while k < edges.len()
        invariant
            k <= edges.len(),
            dim[0] >= 1,
            dim[1] >= 1,
            2 * dim[0] <= usize::MAX,
            2 * dim[1] <= usize::MAX,
            fits(dim, edges@),
            drawn(dim[0] as int, dim[1] as int, edges@.take(k as int), map@),
        decreases edges.len() - k,
    {
        let e: [usize; 2] = edges[k];
        let ghost before = map@;
        match place(dim, e) {
            Some((x, y, m)) => put(map, x, y, m),
            None => {},
        }
        proof {
            let w = dim[0] as int;
            assert(merged_at(
                before,
                map@,
                col(w, e[0]) + col(w, e[1]),
                row(w, e[0]) + row(w, e[1]),
                arrow_of(w, e),
            ));
            lemma_draw(w, dim[1] as int, edges@.take(k as int), e, before, map@);
            assert(edges@.take(k as int).push(e) =~= edges@.take(k + 1));
        }
        k += 1;
    }
    assert(edges@.take(k as int) =~= edges@);
}

/// One of the eight cells of the map around the cell in column `x` and row
/// `y` is not empty.
spec fn near(map: Seq<Vec<Cell>>, x: int, y: int) -> bool {
    let gh = map.len();
    let gw = map[0].len();
    ||| x > 0 && !(map[y][x - 1] is Empty)
    ||| x + 1 < gw && !(map[y][x + 1] is Empty)
    ||| y > 0 && !(map[y - 1][x] is Empty)
    ||| y + 1 < gh && !(map[y + 1][x] is Empty)
    ||| x + 1 < gw && y + 1 < gh && !(map[y + 1][x + 1] is Empty)
    ||| x > 0 && y > 0 && !(map[y - 1][x - 1] is Empty)
    ||| x > 0 && y + 1 < gh && !(map[y + 1][x - 1] is Empty)
    ||| x + 1 < gw && y > 0 && !(map[y - 1][x + 1] is Empty)
}

/// A cell of a drawn map that is not empty holds an arrow.
proof fn lemma_not_empty(cell: Cell)
    requires
        !(cell is Node),
    ensures
        cell is Empty <==> cell.arrows() == Arrows::none(),
{
}

/// Whether one of the eight cells around the cell in column `i` of row `j`
/// is not empty.
fn has_near(map: &Vec<Vec<Cell>>, i: usize, j: usize) -> (any: bool)
    requires
        j < map.len(),
        i < map[0].len(),
        forall|y: int| 0 <= y < map.len() ==> (#[trigger] map[y]).len() == map[0].len(),
    ensures
        any == near(map@, i as int, j as int),
{
    let h: usize = map.len();
    let w: usize = map[0].len();
    let left = if i == 0 {
        false
    } else {
        map[j][i - 1] != Cell::Empty
    };
    let right = if i + 1 == w {
        false
    } else {
        map[j][i + 1] != Cell::Empty
    };
    let up = if j == 0 {
        false
    } else {
        map[j - 1][i] != Cell::Empty
    };
    let down = if j + 1 == h {
        false
    } else {
        map[j + 1][i] != Cell::Empty
    };
    let right_down = if i + 1 == w || j + 1 == h {
        false
    } else {
        map[j + 1][i + 1] != Cell::Empty
    };
    let left_up = if i == 0 || j == 0 {
        false
    } else {
        map[j - 1][i - 1] != Cell::Empty
    };
    let left_down = if i == 0 || j + 1 == h {
        false
    } else {
        map[j + 1][i - 1] != Cell::Empty
    };
    let right_up = if i + 1 == w || j == 0 {
        false
    } else {
        map[j - 1][i + 1] != Cell::Empty
    };
    left || right || up || down || right_down || left_up || right_up || left_down
}

/// `map` is `mid` with the node cells before column `i` of row `j`, in the
/// order of reading, set to what the finished map holds there.
spec fn nodes_marked(
    dim: [usize; 2],
    edges: Seq<[usize; 2]>,
    mid: Seq<Vec<Cell>>,
    map: Seq<Vec<Cell>>,
    i: int,
    j: int,
) -> bool {
    &&& map.len() == 2 * dim[1] - 1
    &&& forall|y: int| 0 <= y < 2 * dim[1] - 1 ==> (#[trigger] map[y]).len() == 2 * dim[0] - 1
    &&& forall|y: int, x: int|
        0 <= y < 2 * dim[1] - 1 && 0 <= x < 2 * dim[0] - 1 ==> (#[trigger] map[y][x]) == (if x % 2
            == 0 && y % 2 == 0 && (y < j || (y == j && x < i)) {
            cell_at(dim, edges, x, y)
        } else {
            mid[y][x]
        })
}

/// A cell of a drawn map is not empty exactly if it is filled.
proof fn lemma_filled(dim: [usize; 2], edges: Seq<[usize; 2]>, mid: Seq<Vec<Cell>>, x: int, y: int)
    requires
        drawn(dim[0] as int, dim[1] as int, edges, mid),
        0 <= x < 2 * dim[0] - 1,
        0 <= y < 2 * dim[1] - 1,
    ensures
        !(mid[y][x] is Empty) <==> filled(dim, edges, x, y),
{
    mid[y][x].lemma_showing();
}

/// Around a node cell that is still to be marked nothing has changed, and
/// the cell is to be marked if and only if one of the cells around it is
/// not empty.
proof fn lemma_node_cell(
    dim: [usize; 2],
    edges: Seq<[usize; 2]>,
    mid: Seq<Vec<Cell>>,
    map: Seq<Vec<Cell>>,
    i: int,
    j: int,
)
    requires
        dim[0] >= 1,
        dim[1] >= 1,
        drawn(dim[0] as int, dim[1] as int, edges, mid),
        nodes_marked(dim, edges, mid, map, i, j),
        0 <= i < 2 * dim[0] - 1,
        0 <= j < 2 * dim[1] - 1,
        j % 2 == 0,
    ensures
        map[j][i] == mid[j][i],
        i % 2 == 0 ==> map[j][i] is Empty && near(map, i, j) == around(dim, edges, i, j),
{
    let w = dim[0] as int;
    let h = dim[1] as int;
    if i % 2 == 0 {
        lemma_arrows_at_line(w, edges, i, j);
        lemma_not_empty(mid[j][i]);
        if i > 0 {
            assert(map[j][i - 1] == mid[j][i - 1]);
            lemma_filled(dim, edges, mid, i - 1, j);
        }
        if i + 1 < 2 * w - 1 {
            assert(map[j][i + 1] == mid[j][i + 1]);
            lemma_filled(dim, edges, mid, i + 1, j);
        }
        if j > 0 {
            assert(map[j - 1][i] == mid[j - 1][i]);
            lemma_filled(dim, edges, mid, i, j - 1);
        }
        if j + 1 < 2 * h - 1 {
            assert(map[j + 1][i] == mid[j + 1][i]);
            lemma_filled(dim, edges, mid, i, j + 1);
        }
        if i + 1 < 2 * w - 1 && j + 1 < 2 * h - 1 {
            assert(map[j + 1][i + 1] == mid[j + 1][i + 1]);
            lemma_filled(dim, edges, mid, i + 1, j + 1);
        }
        if i > 0 && j > 0 {
            assert(map[j - 1][i - 1] == mid[j - 1][i - 1]);
            lemma_filled(dim, edges, mid, i - 1, j - 1);
        }
        if i > 0 && j + 1 < 2 * h - 1 {
            assert(map[j + 1][i - 1] == mid[j + 1][i - 1]);
            lemma_filled(dim, edges, mid, i - 1, j + 1);
        }
        if i + 1 < 2 * w - 1 && j > 0 {
            assert(map[j - 1][i + 1] == mid[j - 1][i + 1]);
            lemma_filled(dim, edges, mid, i + 1, j - 1);
        }
    }
}

/// Once every node cell is set, the map is the map of the edges.
proof fn lemma_all_marked(dim: [usize; 2], edges: Seq<[usize; 2]>, mid: Seq<Vec<Cell>>, map: Seq<Vec<Cell>>)
    requires
        dim[0] >= 1,
        dim[1] >= 1,
        drawn(dim[0] as int, dim[1] as int, edges, mid),
        nodes_marked(dim, edges, mid, map, 0, 2 * dim[1]),
    ensures
        cells(map) == projected(dim, edges),
{
    let grid = cells(map);
    let want = projected(dim, edges);
    assert(grid.len() == want.len());
    assert forall|y: int| 0 <= y < grid.len() implies grid[y] == want[y] by {
        assert forall|x: int| 0 <= x < 2 * dim[0] - 1 implies grid[y][x] == want[y][x] by {
            assert(grid[y][x] == map[y][x]);
            if !(x % 2 == 0 && y % 2 == 0) {
                mid[y][x].lemma_showing();
            }
        }
        assert(grid[y] =~= want[y]);
    }
    assert(grid =~= want);
}

/// Marks the nodes that have a cell around them that is not empty.
fn mark_nodes(map: &mut Vec<Vec<Cell>>, dim: [usize; 2], Ghost(edges): Ghost<Seq<[usize; 2]>>)
    requires
        dim[0] >= 1,
        dim[1] >= 1,
        2 * dim[0] <= usize::MAX,
        2 * dim[1] <= usize::MAX,
        drawn(dim[0] as int, dim[1] as int, edges, old(map)@),
    ensures
        cells(final(map)@) == projected(dim, edges),
{
    let ghost mid = map@;
    let h: usize = map.len();
    let w: usize = map[0].len();
    let mut r: usize = 0;
    while r < h / 2 + 1
        invariant
            dim[0] >= 1,
            dim[1] >= 1,
            drawn(dim[0] as int, dim[1] as int, edges, mid),
            h == 2 * dim[1] - 1,
            w == 2 * dim[0] - 1,
            r <= h / 2 + 1,
            nodes_marked(dim, edges, mid, map@, 0, 2 * r),
        decreases h / 2 + 1 - r,
    {
        let j: usize = r * 2;
        let mut i: usize = 0;
        while i < w
            invariant
                dim[0] >= 1,
                dim[1] >= 1,
                drawn(dim[0] as int, dim[1] as int, edges, mid),
                h == 2 * dim[1] - 1,
                w == 2 * dim[0] - 1,
                r < h / 2 + 1,
                j == 2 * r,
                i <= w,
                nodes_marked(dim, edges, mid, map@, i as int, j as int),
            decreases w - i,
        {
            proof {
                lemma_node_cell(dim, edges, mid, map@, i as int, j as int);
            }
            if map[j][i] == Cell::Empty {
                let any = has_near(map, i, j);
                if any && i % 2 == 0 {
                    map[j][i] = Cell::Node;
                }
            }
            i += 1;
        }
        r += 1;
    }
    proof {
        lemma_all_marked(dim, edges, mid, map@);
    }
}

/// Draws a graph on a grid.
///
/// The nodes `0`, `1`, `2`, ... stand row by row, `dim[0]` in a row and
/// `dim[1]` rows, in the even columns and rows of the map. An edge between
/// two nodes that are neighbours, diagonally too, leaves its arrow in the
/// cell between them; any other edge is not drawn. A node is marked if one
/// of the eight cells around it is not empty.
pub fn map2(dim: [usize; 2], x: &[[usize; 2]]) -> (map: Vec<Vec<Cell>>)
    requires
        mappable(dim, x@),
    ensures
        cells(map@) == projected(dim, x@),
        rectangular(map@),
{
    let mut map = blank(dim[0] * 2 - 1, dim[1] * 2 - 1);
    proof {
        reveal(marked);
    }
    draw(&mut map, dim, x);
    mark_nodes(&mut map, dim, Ghost(x@));
    proof {
        let grid = cells(map@);
        assert(grid.len() == map@.len());
        assert forall|y: int| 0 <= y < map@.len() implies (#[trigger] map@[y]).len() == 2 * dim[0]
            - 1 by {
            assert(grid[y] == map@[y]@);
        }
    }
    map
}

/// Whether a graph can be drawn on `dim[0]` by `dim[1]` nodes, which is what
/// [`map2`] asks for.
pub fn can_map(dim: [usize; 2], edges: &[[usize; 2]]) -> (ok: bool)
    ensures
        ok == mappable(dim, edges@),
{
    let w: usize = dim[0];
    let h: usize = dim[1];
    if w < 1 || h < 1 || w > usize::MAX / 2 || h > usize::MAX / 2 {
        return false;
    }
    let mut k: usize = 0;
    while k < edges.len()
        invariant
            k <= edges.len(),
            w == dim[0],
            h == dim[1],
            w >= 1,
            h >= 1,
            forall|l: int|
                0 <= l < k ==> (#[trigger] edges@[l])[0] < dim[0] * dim[1] && edges@[l][1] < dim[0]
                    * dim[1],
        decreases edges.len() - k,
    {
        let a: usize = edges[k][0];
        let b: usize = edges[k][1];
        proof {
            lemma_among(a as int, w as int, h as int);
            lemma_among(b as int, w as int, h as int);
        }
        if a / w >= h || b / w >= h {
            return false;
        }
        k += 1;
    }
    true
}

/// A node is among the `w * h` nodes exactly if its row is among the `h`
/// rows.
proof fn lemma_among(v: int, w: int, h: int)
    requires
        0 <= v,
        0 < w,
        0 <= h,
    ensures
        v < w * h <==> v / w < h,
{
    if v < w * h {
        vstd::arithmetic::div_mod::lemma_multiply_divide_lt(v, w, h);
    }
    if v / w < h {
        vstd::arithmetic::div_mod::lemma_fundamental_div_mod(v, w);
        vstd::arithmetic::div_mod::lemma_mod_bound(v, w);
        assert(w * (v / w) + w <= w * h) by (nonlinear_arith)
            requires
                v / w + 1 <= h,
                0 < w,
        ;
    }
}

/// The map does not depend on the order of the edges, nor on how often an
/// edge occurs: two lists that hold the same edges give the same map.
pub proof fn lemma_projected_same_edges(dim: [usize; 2], first: Seq<[usize; 2]>, second: Seq<[usize; 2]>)
    requires
        forall|e: [usize; 2]| first.contains(e) <==> second.contains(e),
    ensures
        projected(dim, first) == projected(dim, second),
{
    let w = dim[0] as int;
    let a = projected(dim, first);
    let b = projected(dim, second);
    assert forall|x: int, y: int| arrows_at(w, first, x, y) == arrows_at(w, second, x, y) by {
        lemma_same_edges_same_arrows(w, first, second, x, y);
        lemma_same_edges_same_arrows(w, second, first, x, y);
    }
    assert forall|y: int| 0 <= y < a.len() implies a[y] == b[y] by {
        assert forall|x: int| 0 <= x < a[y].len() implies a[y][x] == b[y][x] by {
            assert(around(dim, first, x, y) == around(dim, second, x, y));
        }
        assert(a[y] =~= b[y]);
    }
    assert(a =~= b);
}

/// What the edges of one list leave in a cell, the edges of a list that
/// holds them all leave there too.
proof fn lemma_same_edges_same_arrows(w: int, first: Seq<[usize; 2]>, second: Seq<[usize; 2]>, x: int, y: int)
    requires
        forall|e: [usize; 2]| first.contains(e) ==> second.contains(e),
    ensures
        forall|m: Cell| marked(w, first, x, y, m) ==> marked(w, second, x, y, m),
{
    reveal(marked);
    assert forall|m: Cell| marked(w, first, x, y, m) implies marked(w, second, x, y, m) by {
        let k = choose|k: int| 0 <= k < first.len() && #[trigger] mark(w, first[k], x, y) == m;
        assert(first.contains(first[k]));
        let l = choose|l: int| 0 <= l < second.len() && second[l] == first[k];
        assert(mark(w, second[l], x, y) == m);
    }
}

/// The sign that stands for a cell.
pub open spec fn glyph(c: Cell) -> char {
    match c {
        Cell::Right => '→',
        Cell::Left => '←',
        Cell::Down => '↓',
        Cell::Up => '↑',
        Cell::RightLeft => '-',
        Cell::UpDown => '|',
        Cell::RightDown => '↘',
        Cell::RightUp => '↗',
        Cell::LeftUp => '↖',
        Cell::LeftDown => '↙',
        Cell::DiagRise => '⟋',
        Cell::DiagFall => '⟍',
        Cell::Cross => '╳',
        Cell::CrossRightUp => '⤯',
        Cell::CrossRightDown => '⤰',
        Cell::CrossRight => '⤭',
        Cell::CrossUp => '⤲',
        Cell::CrossLeft => '⤪',
        Cell::CrossDown => '⤩',
        Cell::CrossLeftUp => '⬁',
        Cell::CrossLeftDown => '⬃',
        Cell::Node => '■',
        Cell::Empty => ' ',
    }
}

/// The cell is one of the four single diagonal arrows. Its sign is written
/// with the mark for text style after it.
pub open spec fn is_slanted(c: Cell) -> bool {
    c is RightDown || c is RightUp || c is LeftUp || c is LeftDown
}

/// The sign of a cell as it is written: for a single diagonal arrow the sign
/// and the mark for text style, for any other cell the sign alone.
pub open spec fn written(c: Cell) -> Seq<char> {
    if is_slanted(c) {
        seq![glyph(c), '\u{fe0e}']
    } else {
        seq![glyph(c)]
    }
}

/// The text for one cell: its sign as it is written and, unless the cell is
/// the last of its row, one space.
pub open spec fn cell_text(c: Cell, last: bool) -> Seq<char> {
    if last {
        written(c)
    } else {
        written(c).push(' ')
    }
}

/// The text for the first `n` cells of a row.
pub open spec fn row_text(row: Seq<Cell>, n: nat) -> Seq<char>
    decreases n,
{
    if n == 0 {
        Seq::empty()
    } else {
        row_text(row, (n - 1) as nat) + cell_text(row[n - 1], n == row.len())
    }
}

/// The text for the first `n` rows of a map: each row is followed by a line
/// break, but for the last row of the map.
pub open spec fn rows_text(grid: Seq<Seq<Cell>>, n: nat) -> Seq<char>
    decreases n,
{
    if n == 0 {
        Seq::empty()
    } else {
        rows_text(grid, (n - 1) as nat) + row_text(grid[n - 1], grid[n - 1].len()) + (if n
            == grid.len() {
            Seq::empty()
        } else {
            seq!['\n']
        })
    }
}

/// The text that shows a map.
pub open spec fn rendered(grid: Seq<Seq<Cell>>) -> Seq<char> {
    rows_text(grid, grid.len())
}

/// `String::push` of the standard library: appends the character `c` to `s`.
#[verifier::external_body]
fn push_char(s: &mut String, c: char)
    ensures
        final(s)@ == old(s)@.push(c),
{
    s.push(c)
}

/// Shows a map as text, one line for each row: the signs of a row stand
/// with one space between them, and nothing follows the last sign of a row
/// but the line break between rows.
///
/// The map must have a row, and all its rows the same length.
pub fn visualize(map: &Vec<Vec<Cell>>) -> (s: String)
    requires
        rectangular(map@),
    ensures
        s@ == rendered(cells(map@)),
{
    let mut s = String::new();
    let h: usize = map.len();
    let w: usize = map[0].len();
    let ghost grid = cells(map@);
    let mut j: usize = 0;
    while j < h
        invariant
            j <= h,
            h == map.len(),
            w == map[0].len(),
            grid == cells(map@),
            forall|y: int| 0 <= y < map.len() ==> (#[trigger] map[y]).len() == w,
            s@ == rows_text(grid, j as nat),
        decreases h - j,
    {
        let ghost above = s@;
        let mut i: usize = 0;
        while i < w
            invariant
                i <= w,
                j < h,
                h == map.len(),
                grid == cells(map@),
                forall|y: int| 0 <= y < map.len() ==> (#[trigger] map[y]).len() == w,
                s@ == above + row_text(grid[j as int], i as nat),
            decreases w - i,
        {
            let ghost so_far = s@;
            let c: Cell = map[j][i];
            let sign: char = match c {
                Cell::Right => '→',
                Cell::Left => '←',
                Cell::Down => '↓',
                Cell::Up => '↑',
                Cell::RightLeft => '-',
                Cell::UpDown => '|',
                Cell::RightDown => '↘',
                Cell::RightUp => '↗',
                Cell::LeftUp => '↖',
                Cell::LeftDown => '↙',
                Cell::DiagRise => '⟋',
                Cell::DiagFall => '⟍',
                Cell::Cross => '╳',
                Cell::CrossRightUp => '⤯',
                Cell::CrossRightDown => '⤰',
                Cell::CrossRight => '⤭',
                Cell::CrossUp => '⤲',
                Cell::CrossLeft => '⤪',
                Cell::CrossDown => '⤩',
                Cell::CrossLeftUp => '⬁',
                Cell::CrossLeftDown => '⬃',
                Cell::Node => '■',
                Cell::Empty => ' ',
            };
            push_char(&mut s, sign);
            match c {
                Cell::RightDown | Cell::RightUp | Cell::LeftUp | Cell::LeftDown => {
                    push_char(&mut s, '\u{fe0e}');
                },
                _ => {},
            }
            if i + 1 != w {
                push_char(&mut s, ' ');
            }
            proof {
                assert(grid[j as int][i as int] == c);
                assert(s@ =~= so_far + cell_text(c, i + 1 == w));
                assert(s@ =~= above + row_text(grid[j as int], (i + 1) as nat));
            }
            i += 1;
        }
        if j + 1 != h {
            push_char(&mut s, '\n');
        }
        proof {
            assert(s@ =~= rows_text(grid, (j + 1) as nat));
        }
        j += 1;
    }
    s
}

/// Whether the map has a row and all its rows are of one length, which is
/// what [`visualize`] asks for.
pub fn is_rectangular(map: &Vec<Vec<Cell>>) -> (ok: bool)
    ensures
        ok == rectangular(map@),
{
    if map.len() == 0 {
        return false;
    }
    let w: usize = map[0].len();
    let mut y: usize = 1;
    while y < map.len()
        invariant
            1 <= y <= map.len(),
            w == map[0].len(),
            forall|j: int| 0 <= j < y ==> (#[trigger] map@[j]).len() == w,
        decreases map.len() - y,
    {
        if map[y].len() != w {
            return false;
        }
        y += 1;
    }
    true
}

/// The same graph on the same grid gives the same map, and so the same text.
pub proof fn lemma_same_text(
    dim: [usize; 2],
    edges: Seq<[usize; 2]>,
    first: Seq<Seq<Cell>>,
    second: Seq<Seq<Cell>>,
)
    requires
        first == projected(dim, edges),
        second == projected(dim, edges),
    ensures
        first == second,
        rendered(first) == rendered(second),
{
}

} // verus!
