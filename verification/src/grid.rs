//! The mathematical model of a thin-wall maze: two boolean grids, the graph
//! they describe, and what it means for that graph to be a spanning tree.

use vstd::prelude::*;

verus! {

/// A cell of a maze, as (row, column).
pub type Cell = (int, int);

/// The contents of a vector of rows, as nested sequences.
pub open spec fn grid_view(v: Vec<Vec<bool>>) -> Seq<Seq<bool>> {
    Seq::new(v@.len(), |i: int| v@[i]@)
}

/// `g` has exactly `rows` rows of `cols` entries each.
pub open spec fn is_grid(g: Seq<Seq<bool>>, rows: int, cols: int) -> bool {
    &&& g.len() == rows
    &&& forall|i: int| 0 <= i < rows ==> (#[trigger] g[i]).len() == cols
}

/// A maze with thin walls. `right[r][c]` says that a wall stands between
/// cell `(r, c)` and cell `(r, c + 1)`, `down[r][c]` that one stands between
/// `(r, c)` and `(r + 1, c)`.
pub struct ThinMaze {
    pub rows: int,
    pub cols: int,
    pub right: Seq<Seq<bool>>,
    pub down: Seq<Seq<bool>>,
}

/// The maze that a pair of wall grids describes.
pub open spec fn maze_of(right_wall: Vec<Vec<bool>>, down_wall: Vec<Vec<bool>>) -> ThinMaze {
    ThinMaze {
        rows: right_wall@.len() as int,
        cols: if right_wall@.len() > 0 {
            right_wall@[0]@.len() as int
        } else {
            0
        },
        right: grid_view(right_wall),
        down: grid_view(down_wall),
    }
}

impl ThinMaze {
    /// Both wall grids have the maze's shape.
    pub open spec fn wf(self) -> bool {
        &&& is_grid(self.right, self.rows, self.cols)
        &&& is_grid(self.down, self.rows, self.cols)
    }

    /// `c` is a cell of the maze.
    pub open spec fn contains(self, c: Cell) -> bool {
        0 <= c.0 < self.rows && 0 <= c.1 < self.cols
    }

    /// One can step from `c` to the cell on its right.
    pub open spec fn open_right(self, c: Cell) -> bool {
        self.contains(c) && c.1 + 1 < self.cols && !self.right[c.0][c.1]
    }

    /// One can step from `c` to the cell below it.
    pub open spec fn open_down(self, c: Cell) -> bool {
        self.contains(c) && c.0 + 1 < self.rows && !self.down[c.0][c.1]
    }

    /// `a` and `b` are neighbours with no wall between them.
    pub open spec fn linked(self, a: Cell, b: Cell) -> bool {
        ||| self.open_right(a) && b == (a.0, a.1 + 1)
        ||| self.open_right(b) && a == (b.0, b.1 + 1)
        ||| self.open_down(a) && b == (a.0 + 1, a.1)
        ||| self.open_down(b) && a == (b.0 + 1, b.1)
    }

    /// `p` is a walk through the maze that crosses no wall.
    pub open spec fn is_path(self, p: Seq<Cell>) -> bool {
        &&& p.len() > 0
        &&& self.contains(p[0])
        &&& forall|k: int| 0 <= k < p.len() - 1 ==> self.linked(#[trigger] p[k], p[k + 1])
    }

    /// Some walk leads from `a` to `b`.
    pub open spec fn connected(self, a: Cell, b: Cell) -> bool {
        exists|p: Seq<Cell>| #[trigger] self.is_path(p) && p[0] == a && p.last() == b
    }

    /// Every cell can be reached from every other.
    pub open spec fn fully_connected(self) -> bool {
        forall|a: Cell, b: Cell|
            self.contains(a) && self.contains(b) ==> #[trigger] self.connected(a, b)
    }

    /// The cells from which one can step right.
    pub open spec fn right_passages(self) -> Set<Cell> {
        Set::new(|c: Cell| self.open_right(c))
    }

    /// The cells from which one can step down.
    pub open spec fn down_passages(self) -> Set<Cell> {
        Set::new(|c: Cell| self.open_down(c))
    }

    /// The number of edges of the maze's graph.
    pub open spec fn passages(self) -> nat {
        self.right_passages().len() + self.down_passages().len()
    }

    /// The graph of the maze is a spanning tree of its cells: it is connected
    /// and has one edge fewer than it has cells.
    pub open spec fn is_perfect(self) -> bool {
        &&& self.fully_connected()
        &&& self.right_passages().finite()
        &&& self.down_passages().finite()
        &&& self.passages() == self.rows * self.cols - 1
    }

    /// Walls stand all along the right and the bottom border.
    pub open spec fn enclosed(self) -> bool {
        &&& forall|r: int| 0 <= r < self.rows ==> (#[trigger] self.right[r])[self.cols - 1]
        &&& forall|r: int, c: int|
            r == self.rows - 1 && 0 <= c < self.cols ==> #[trigger] self.down[r][c]
    }

    /// `self` has every passage that `earlier` has.
    pub open spec fn extends(self, earlier: ThinMaze) -> bool {
        &&& self.rows == earlier.rows
        &&& self.cols == earlier.cols
        &&& forall|c: Cell| #[trigger] earlier.open_right(c) ==> self.open_right(c)
        &&& forall|c: Cell| #[trigger] earlier.open_down(c) ==> self.open_down(c)
    }

    /// The maze with the wall to the right of `c` taken down.
    pub open spec fn carve_right(self, c: Cell) -> ThinMaze {
        ThinMaze { right: self.right.update(c.0, self.right[c.0].update(c.1, false)), ..self }
    }

    /// The maze with the wall below `c` taken down.
    pub open spec fn carve_down(self, c: Cell) -> ThinMaze {
        ThinMaze { down: self.down.update(c.0, self.down[c.0].update(c.1, false)), ..self }
    }

    /// Every cell of a walk lies in the maze.
    pub proof fn lemma_path_inside(self, p: Seq<Cell>, k: int)
        requires
            self.is_path(p),
            0 <= k < p.len(),
        ensures
            self.contains(p[k]),
    {
        if k > 0 {
            assert(self.linked(p[k - 1], p[k - 1 + 1]));
        }
    }

    /// Every cell is connected to itself.
    pub proof fn lemma_connected_refl(self, a: Cell)
        requires
            self.contains(a),
        ensures
            self.connected(a, a),
    {
        let p = seq![a];
        assert(self.is_path(p) && p[0] == a && p.last() == a);
    }

    /// Neighbours without a wall between them are connected.
    pub proof fn lemma_connected_step(self, a: Cell, b: Cell)
        requires
            self.linked(a, b),
        ensures
            self.connected(a, b),
    {
        let p = seq![a, b];
        assert(self.is_path(p) && p[0] == a && p.last() == b);
    }

    /// A walk can be taken backwards.
    pub proof fn lemma_connected_sym(self, a: Cell, b: Cell)
        requires
            self.connected(a, b),
        ensures
            self.connected(b, a),
    {
        let p = choose|p: Seq<Cell>| #[trigger] self.is_path(p) && p[0] == a && p.last() == b;
        let q = p.reverse();
        assert forall|k: int| 0 <= k < q.len() - 1
            implies self.linked(#[trigger] q[k], q[k + 1]) by {
            let m = p.len() - 2 - k;
            assert(self.linked(p[m], p[m + 1]));
        }
        self.lemma_path_inside(p, p.len() - 1);
        assert(self.is_path(q) && q[0] == b && q.last() == a);
    }

    /// Two walks that meet make one.
    pub proof fn lemma_connected_trans(self, a: Cell, b: Cell, c: Cell)
        requires
            self.connected(a, b),
            self.connected(b, c),
        ensures
            self.connected(a, c),
    {
        let p = choose|p: Seq<Cell>| #[trigger] self.is_path(p) && p[0] == a && p.last() == b;
        let q = choose|q: Seq<Cell>| #[trigger] self.is_path(q) && q[0] == b && q.last() == c;
        let r = p + q.subrange(1, q.len() as int);
        assert forall|k: int| 0 <= k < r.len() - 1
            implies self.linked(#[trigger] r[k], r[k + 1]) by {
            if k + 1 < p.len() {
                assert(self.linked(p[k], p[k + 1]));
            } else {
                let m = k - p.len() + 1;
                assert(self.linked(q[m], q[m + 1]));
            }
        }
        assert(self.is_path(r) && r[0] == a && r.last() == c);
    }

    /// Taking walls down never disconnects anything.
    pub proof fn lemma_extends_connected(self, earlier: ThinMaze, a: Cell, b: Cell)
        requires
            self.extends(earlier),
            earlier.connected(a, b),
        ensures
            self.connected(a, b),
    {
        let p = choose|p: Seq<Cell>| #[trigger] earlier.is_path(p) && p[0] == a && p.last() == b;
        assert forall|k: int| 0 <= k < p.len() - 1
            implies self.linked(#[trigger] p[k], p[k + 1]) by {
            assert(earlier.linked(p[k], p[k + 1]));
        }
        assert(self.is_path(p) && p[0] == a && p.last() == b);
    }

    /// Taking down a standing wall to the right of `c` adds exactly the
    /// passage from `c` to its right neighbour.
    pub proof fn lemma_carve_right(self, c: Cell)
        requires
            self.wf(),
            self.contains(c),
            c.1 + 1 < self.cols,
            self.right[c.0][c.1],
            self.right_passages().finite(),
        ensures
            self.carve_right(c).wf(),
            self.carve_right(c).extends(self),
            self.carve_right(c).linked(c, (c.0, c.1 + 1)),
            self.carve_right(c).right_passages() == self.right_passages().insert(c),
            self.carve_right(c).down_passages() == self.down_passages(),
            self.carve_right(c).right_passages().finite(),
            self.carve_right(c).right_passages().len() == self.right_passages().len() + 1,
    {
        let g = self.carve_right(c);
        assert(g.wf());
        assert forall|x: Cell| g.open_right(x) == (self.open_right(x) || x == c) by {
            if g.contains(x) {
                if x.0 == c.0 {
                    if x.1 != c.1 {
                        assert(g.right[x.0][x.1] == self.right[x.0][x.1]);
                    }
                } else {
                    assert(g.right[x.0] == self.right[x.0]);
                }
            }
        }
        assert(g.right_passages() =~= self.right_passages().insert(c));
        assert(g.down_passages() =~= self.down_passages());
        assert(!self.right_passages().contains(c));
    }

    /// Taking down a standing wall below `c` adds exactly the passage from
    /// `c` to the cell below it.
    pub proof fn lemma_carve_down(self, c: Cell)
        requires
            self.wf(),
            self.contains(c),
            c.0 + 1 < self.rows,
            self.down[c.0][c.1],
            self.down_passages().finite(),
        ensures
            self.carve_down(c).wf(),
            self.carve_down(c).extends(self),
            self.carve_down(c).linked(c, (c.0 + 1, c.1)),
            self.carve_down(c).down_passages() == self.down_passages().insert(c),
            self.carve_down(c).right_passages() == self.right_passages(),
            self.carve_down(c).down_passages().finite(),
            self.carve_down(c).down_passages().len() == self.down_passages().len() + 1,
    {
        let g = self.carve_down(c);
        assert(g.wf());
        assert forall|x: Cell| g.open_down(x) == (self.open_down(x) || x == c) by {
            if g.contains(x) {
                if x.0 == c.0 {
                    if x.1 != c.1 {
                        assert(g.down[x.0][x.1] == self.down[x.0][x.1]);
                    }
                } else {
                    assert(g.down[x.0] == self.down[x.0]);
                }
            }
        }
        assert(g.down_passages() =~= self.down_passages().insert(c));
        assert(g.right_passages() =~= self.right_passages());
        assert(!self.down_passages().contains(c));
    }
}

} // verus!
