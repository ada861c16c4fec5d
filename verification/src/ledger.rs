//! The bookkeeping behind the generator's proof: which component every cell
//! reached so far belongs to, and how passages, components and cells balance.

use vstd::prelude::*;
use crate::grid::{Cell, ThinMaze};

verus! {

/// The generator's progress, seen from above.
pub struct Ledger {
    /// The walls as they stand.
    pub maze: ThinMaze,
    /// The component of each cell; 0 for a cell that was not reached yet.
    pub label: spec_fn(Cell) -> usize,
    /// The labels in use.
    pub live: Set<usize>,
    /// How many cells were reached.
    pub reached: int,
}

impl Ledger {
    /// Cells with one label can reach each other, every label in use is
    /// live, and the passages are as many as the reached cells less the live
    /// labels: each component is a tree.
    pub open spec fn sound(self) -> bool {
        &&& self.maze.wf()
        &&& self.maze.right_passages().finite()
        &&& self.maze.down_passages().finite()
        &&& self.live.finite()
        &&& self.maze.passages() + self.live.len() == self.reached
        &&& forall|a: Cell|
            self.maze.contains(a) && (#[trigger] (self.label)(a)) != 0 ==> self.live.contains(
                (self.label)(a),
            )
        &&& forall|a: Cell, b: Cell|
            #![trigger (self.label)(a), (self.label)(b)]
            self.maze.contains(a) && self.maze.contains(b) && (self.label)(a) != 0 && (
            self.label)(a) == (self.label)(b) ==> self.maze.connected(a, b)
    }

    /// Every wall stands and no cell was reached.
    pub open spec fn start(rows: int, cols: int) -> Ledger {
        Ledger {
            maze: ThinMaze {
                rows,
                cols,
                right: Seq::new(rows as nat, |r: int| Seq::new(cols as nat, |c: int| true)),
                down: Seq::new(rows as nat, |r: int| Seq::new(cols as nat, |c: int| true)),
            },
            label: |c: Cell| 0usize,
            live: Set::empty(),
            reached: 0,
        }
    }

    /// Cell `c` is reached and starts a component of its own.
    pub open spec fn found(self, c: Cell, colour: usize) -> Ledger {
        Ledger {
            label: |x: Cell|
                if x == c {
                    colour
                } else {
                    (self.label)(x)
                },
            live: self.live.insert(colour),
            reached: self.reached + 1,
            ..self
        }
    }

    /// The wall to the right of `c` falls and the component of the right
    /// neighbour takes the label of `c`.
    pub open spec fn joined_right(self, c: Cell) -> Ledger {
        let keep = (self.label)(c);
        let gone = (self.label)((c.0, c.1 + 1));
        Ledger {
            maze: self.maze.carve_right(c),
            label: |x: Cell|
                if (self.label)(x) == gone {
                    keep
                } else {
                    (self.label)(x)
                },
            live: self.live.remove(gone),
            ..self
        }
    }

    /// The wall below `c` falls and the cell below is reached, in the
    /// component of `c`.
    pub open spec fn carried_down(self, c: Cell) -> Ledger {
        Ledger {
            maze: self.maze.carve_down(c),
            label: |x: Cell|
                if x == (c.0 + 1, c.1) {
                    (self.label)(c)
                } else {
                    (self.label)(x)
                },
            reached: self.reached + 1,
            ..self
        }
    }

    /// The ledger of a maze with every wall standing is sound.
    pub proof fn lemma_start(rows: int, cols: int)
        requires
            0 <= rows,
            0 <= cols,
        ensures
            Self::start(rows, cols).sound(),
            Self::start(rows, cols).maze.rows == rows,
            Self::start(rows, cols).maze.cols == cols,
    {
        let s = Self::start(rows, cols);
        assert(s.maze.right_passages() =~= Set::<Cell>::empty());
        assert(s.maze.down_passages() =~= Set::<Cell>::empty());
    }

    /// A cell that starts a component under a label that is not in use
    /// leaves the ledger sound.
    pub proof fn lemma_found(self, c: Cell, colour: usize)
        requires
            self.sound(),
            self.maze.contains(c),
            colour != 0,
            !self.live.contains(colour),
        ensures
            self.found(c, colour).sound(),
    {
        let next = self.found(c, colour);
        assert forall|a: Cell, b: Cell|
            #![trigger (next.label)(a), (next.label)(b)]
            next.maze.contains(a) && next.maze.contains(b) && (next.label)(a) != 0 && (next.label)(
                a,
            ) == (next.label)(b) implies next.maze.connected(a, b) by {
            if a == c && b == c {
                self.maze.lemma_connected_refl(c);
            } else if a == c {
                assert((self.label)(b) == colour);
            } else if b == c {
                assert((self.label)(a) == colour);
            } else {
                assert((self.label)(a) == (self.label)(b));
            }
        }
        assert forall|a: Cell|
            next.maze.contains(a) && (#[trigger] (next.label)(a)) != 0 implies next.live.contains(
            (next.label)(a),
        ) by {
            if a != c {
                assert((self.label)(a) != 0);
            }
        }
    }

    /// A wall that falls between two cells of different components leaves
    /// the ledger sound: one passage more, one component less.
    pub proof fn lemma_joined_right(self, c: Cell)
        requires
            self.sound(),
            self.maze.contains(c),
            c.1 + 1 < self.maze.cols,
            self.maze.right[c.0][c.1],
            (self.label)(c) != 0,
            (self.label)((c.0, c.1 + 1)) != 0,
            (self.label)(c) != (self.label)((c.0, c.1 + 1)),
        ensures
            self.joined_right(c).sound(),
    {
        let next = self.joined_right(c);
        let d = (c.0, c.1 + 1);
        let keep = (self.label)(c);
        let gone = (self.label)(d);
        self.maze.lemma_carve_right(c);
        assert(self.live.contains(gone));
        assert(self.live.contains(keep));
        next.maze.lemma_connected_step(c, d);
        next.maze.lemma_connected_sym(c, d);
        assert forall|a: Cell, b: Cell|
            #![trigger (next.label)(a), (next.label)(b)]
            next.maze.contains(a) && next.maze.contains(b) && (next.label)(a) != 0 && (next.label)(
                a,
            ) == (next.label)(b) implies next.maze.connected(a, b) by {
            let la = (self.label)(a);
            let lb = (self.label)(b);
            if la == lb {
                next.maze.lemma_extends_connected(self.maze, a, b);
            } else if la == gone {
                // a is with d, b is with c
                assert(lb == keep);
                assert((self.label)(a) == (self.label)(d));
                assert((self.label)(c) == (self.label)(b));
                next.maze.lemma_extends_connected(self.maze, a, d);
                next.maze.lemma_extends_connected(self.maze, c, b);
                next.maze.lemma_connected_trans(a, d, c);
                next.maze.lemma_connected_trans(a, c, b);
            } else {
                assert(lb == gone);
                assert(la == keep);
                assert((self.label)(a) == (self.label)(c));
                assert((self.label)(d) == (self.label)(b));
                next.maze.lemma_extends_connected(self.maze, a, c);
                next.maze.lemma_extends_connected(self.maze, d, b);
                next.maze.lemma_connected_trans(a, c, d);
                next.maze.lemma_connected_trans(a, d, b);
            }
        }
        assert forall|a: Cell|
            next.maze.contains(a) && (#[trigger] (next.label)(a)) != 0 implies next.live.contains(
            (next.label)(a),
        ) by {
            assert((self.label)(a) != 0);
        }
    }

    /// A wall that falls below a reached cell leaves the ledger sound: one
    /// passage more, one cell more.
    pub proof fn lemma_carried_down(self, c: Cell)
        requires
            self.sound(),
            self.maze.contains(c),
            c.0 + 1 < self.maze.rows,
            self.maze.down[c.0][c.1],
            (self.label)(c) != 0,
        ensures
            self.carried_down(c).sound(),
    {
        let next = self.carried_down(c);
        let d = (c.0 + 1, c.1);
        self.maze.lemma_carve_down(c);
        next.maze.lemma_connected_step(c, d);
        next.maze.lemma_connected_sym(c, d);
        next.maze.lemma_connected_refl(d);
        assert forall|a: Cell, b: Cell|
            #![trigger (next.label)(a), (next.label)(b)]
            next.maze.contains(a) && next.maze.contains(b) && (next.label)(a) != 0 && (next.label)(
                a,
            ) == (next.label)(b) implies next.maze.connected(a, b) by {
            if a == d && b == d {
            } else if a == d {
                assert((self.label)(c) == (self.label)(b));
                next.maze.lemma_extends_connected(self.maze, c, b);
                next.maze.lemma_connected_trans(d, c, b);
            } else if b == d {
                assert((self.label)(a) == (self.label)(c));
                next.maze.lemma_extends_connected(self.maze, a, c);
                next.maze.lemma_connected_trans(a, c, d);
            } else {
                assert((self.label)(a) == (self.label)(b));
                next.maze.lemma_extends_connected(self.maze, a, b);
            }
        }
        assert forall|a: Cell|
            next.maze.contains(a) && (#[trigger] (next.label)(a)) != 0 implies next.live.contains(
            (next.label)(a),
        ) by {
            if a == d {
                assert((self.label)(c) != 0);
            } else {
                assert((self.label)(a) != 0);
            }
        }
    }
}

} // verus!
