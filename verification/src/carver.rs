//! The row-by-row construction of a perfect maze.
//!
//! Every wall stands at the start. Each cell of the current row carries a
//! colour, the name of its component. A wall between two cells of one row may
//! fall only where their colours differ, and the two components then become
//! one; a cell may be shut off from the row below only while another cell of
//! its component is still open. The last row joins what is left.

use vstd::prelude::*;
use std::collections::HashMap;
use rand::Rng;
use crate::colours::{
    count,
    count_of,
    lemma_occurrences_all,
    lemma_occurrences_none,
    lemma_occurrences_pair,
    lemma_occurrences_recoloured,
    lemma_occurrences_some,
    lemma_occurrences_update,
    lemma_occurrences_witness,
    occurrences,
    recolour,
    recoloured,
};
use crate::grid::{grid_view, maze_of, Cell, ThinMaze};
use crate::ledger::Ledger;

verus! {

/// `Rng::gen_ratio` of `rand`, on the generator that `rand::thread_rng` hands
/// out: true with a chance of `numerator` in `denominator`. It panics unless
/// `numerator <= denominator` and `denominator != 0`. Claimed of the outcome
/// is only what its documentation promises: it is true whenever the two are
/// equal and false whenever `numerator` is zero.
#[verifier::external_body]
fn gen_ratio(numerator: u32, denominator: u32) -> (outcome: bool)
    requires
        denominator != 0,
        numerator <= denominator,
    ensures
        numerator == denominator ==> outcome,
        numerator == 0 ==> !outcome,
{
    rand::thread_rng().gen_ratio(numerator, denominator)
}

/// A fair coin.
fn flip_coin() -> bool {
    gen_ratio(1, 2)
}

/// A grid of `height` rows of `width` walls, all standing.
fn standing_walls(height: usize, width: usize) -> (walls: Vec<Vec<bool>>)
    ensures
        walls@.len() == height,
        forall|r: int| 0 <= r < height ==> (#[trigger] walls@[r])@.len() == width,
        forall|r: int, c: int| 0 <= r < height && 0 <= c < width ==> #[trigger] walls@[r]@[c],
{
    let mut walls: Vec<Vec<bool>> = Vec::new();
    for r in 0..height
        invariant
            walls@.len() == r,
            forall|k: int| 0 <= k < r ==> (#[trigger] walls@[k])@.len() == width,
            forall|k: int, c: int| 0 <= k < r && 0 <= c < width ==> #[trigger] walls@[k]@[c],
    {
        walls.push(vec![true; width]);
    }
    walls
}

/// The state of the construction.
pub struct Carver {
    pub height: usize,
    pub width: usize,
    /// The colour of each column's cell in the row at hand; 0 for none.
    pub row: Vec<usize>,
    /// How many cells of the row carry each colour.
    pub counts: HashMap<usize, usize>,
    /// The next colour that no cell has carried yet.
    pub next_colour: usize,
    pub right_wall: Vec<Vec<bool>>,
    pub down_wall: Vec<Vec<bool>>,
    pub ledger: Ghost<Ledger>,
}

impl Carver {
    /// The maze that the walls describe as they stand.
    pub open spec fn maze(&self) -> ThinMaze {
        ThinMaze {
            rows: self.height as int,
            cols: self.width as int,
            right: grid_view(self.right_wall),
            down: grid_view(self.down_wall),
        }
    }

    /// The two wall grids have the maze's shape.
    pub open spec fn shaped(&self) -> bool {
        &&& 1 <= self.height
        &&& 1 <= self.width
        &&& self.height * self.width < usize::MAX
        &&& self.row@.len() == self.width
        &&& self.right_wall@.len() == self.height
        &&& self.down_wall@.len() == self.height
        &&& forall|r: int|
            0 <= r < self.height ==> (#[trigger] self.right_wall@[r])@.len() == self.width
        &&& forall|r: int|
            0 <= r < self.height ==> (#[trigger] self.down_wall@[r])@.len() == self.width
    }

    /// What holds as long as row `i` is the one at hand.
    pub open spec fn base(&self, i: int) -> bool {
        &&& self.shaped()
        &&& 0 <= i < self.height
        &&& self.ledger@.sound()
        &&& self.ledger@.maze == self.maze()
        &&& forall|v: usize|
            #![trigger self.ledger@.live.contains(v)]
            #![trigger occurrences(self.row@, v)]
            self.ledger@.live.contains(v) <==> v != 0 && occurrences(self.row@, v) > 0
        &&& 1 <= self.next_colour <= self.ledger@.reached + 1
        &&& forall|k: int| 0 <= k < self.width ==> (#[trigger] self.row@[k]) < self.next_colour
        &&& forall|r: int, c: int|
            0 <= r < i && 0 <= c < self.width ==> #[trigger] (self.ledger@.label)((r, c)) != 0
        &&& forall|r: int, c: int|
            i < r < self.height && 0 <= c < self.width ==> #[trigger] self.right_wall@[r]@[c]
        &&& forall|r: int, c: int|
            i < r < self.height && 0 <= c < self.width ==> #[trigger] self.down_wall@[r]@[c]
        &&& forall|r: int|
            0 <= r < self.height ==> (#[trigger] self.right_wall@[r])@[self.width - 1]
        &&& forall|r: int, c: int|
            r == self.height - 1 && 0 <= c < self.width ==> #[trigger] self.down_wall@[r]@[c]
    }

    /// The counts are those of the row's colours.
    pub open spec fn counted(&self) -> bool {
        forall|v: usize|
            v != 0 ==> #[trigger] count_of(self.counts@, v) == occurrences(self.row@, v)
    }

    /// Row `i` is being coloured: the cells before column `j` have a colour.
    pub open spec fn colouring(&self, i: int, j: int) -> bool {
        &&& self.base(i)
        &&& 0 <= j <= self.width
        &&& forall|c: int| 0 <= c < j ==> (#[trigger] self.row@[c]) != 0
        &&& forall|c: int|
            0 <= c < self.width && self.row@[c] != 0 ==> #[trigger] (self.ledger@.label)((i, c))
                == self.row@[c]
        &&& self.ledger@.reached == i * self.width + self.width - occurrences(self.row@, 0)
        &&& forall|c: int| 0 <= c < self.width ==> #[trigger] self.right_wall@[i]@[c]
        &&& forall|c: int| 0 <= c < self.width ==> #[trigger] self.down_wall@[i]@[c]
    }

    /// Every cell of row `i` has its colour, and cells of the row with a
    /// fallen wall between them have one colour.
    pub open spec fn settled(&self, i: int) -> bool {
        &&& self.base(i)
        &&& forall|c: int| 0 <= c < self.width ==> (#[trigger] self.row@[c]) != 0
        &&& forall|c: int| 0 <= c < self.width
            ==> #[trigger] (self.ledger@.label)((i, c)) == self.row@[c]
        &&& self.ledger@.reached == (i + 1) * self.width
        &&& forall|c: int|
            0 <= c < self.width - 1 && !(#[trigger] self.right_wall@[i]@[c]) ==> self.row@[c]
                == self.row@[c + 1]
        &&& forall|c: int| 0 <= c < self.width ==> #[trigger] self.down_wall@[i]@[c]
    }

    /// Row `i`, which is not the last, is being closed off: below the cells
    /// before column `j` the wall stands or the colour went down.
    pub open spec fn closing(&self, i: int, j: int) -> bool {
        &&& self.base(i)
        &&& i + 1 < self.height
        &&& 0 <= j <= self.width
        &&& forall|c: int| j <= c < self.width ==> (#[trigger] self.row@[c]) != 0
        &&& forall|c: int| 0 <= c < self.width ==> #[trigger] (self.ledger@.label)((i, c)) != 0
        &&& forall|c: int| j <= c < self.width
            ==> #[trigger] (self.ledger@.label)((i, c)) == self.row@[c]
        &&& forall|r: int, c: int|
            r == i + 1 && 0 <= c < j && self.row@[c] != 0
                ==> #[trigger] (self.ledger@.label)((r, c))
                == self.row@[c]
        &&& self.ledger@.reached == (i + 1) * self.width + j - occurrences(self.row@, 0)
        &&& forall|c: int| j <= c < self.width ==> #[trigger] self.down_wall@[i]@[c]
    }

    /// The last row is being sealed: the cells up to column `j` have one
    /// colour.
    pub open spec fn sealing(&self, j: int) -> bool {
        &&& self.settled(self.height - 1)
        &&& 0 <= j < self.width
        &&& forall|c: int| 0 <= c <= j ==> (#[trigger] self.row@[c]) == self.row@[0]
    }

    /// `next` has the shape of `self`.
    pub open spec fn same_size(&self, next: &Carver) -> bool {
        self.height == next.height && self.width == next.width
    }

    /// `self` is what the pass over the walls between the cells of row `i`
    /// made of `earlier`, once the walls right of the columns before `j` are
    /// decided. Nothing but walls of that row changed, and those only fell;
    /// the walls from column `j` on still stand as they stood, and so does
    /// every wall between two cells that had one colour; cells that had one
    /// colour still have one colour.
    pub open spec fn joined_from(&self, earlier: &Carver, i: int, j: int) -> bool {
        &&& self.down_wall == earlier.down_wall
        &&& self.right_wall@.len() == earlier.right_wall@.len()
        &&& forall|r: int|
            0 <= r < self.right_wall@.len() && r != i ==> #[trigger] self.right_wall@[r]
                == earlier.right_wall@[r]
        &&& forall|c: int|
            0 <= c < self.width && #[trigger] self.right_wall@[i]@[c]
                ==> earlier.right_wall@[i]@[c]
        &&& forall|c: int|
            j <= c < self.width ==> #[trigger] self.right_wall@[i]@[c]
                == earlier.right_wall@[i]@[c]
        &&& forall|c: int|
            0 <= c < self.width - 1 && earlier.row@[c] == earlier.row@[c + 1]
                ==> #[trigger] self.right_wall@[i]@[c] == earlier.right_wall@[i]@[c]
        &&& forall|a: int, b: int|
            #![trigger self.row@[a], self.row@[b]]
            0 <= a < self.width && 0 <= b < self.width && earlier.row@[a] == earlier.row@[b]
                ==> self.row@[a] == self.row@[b]
    }

    /// The grid `after` is the grid `before` without the wall at `(i, j)`.
    pub open spec fn one_wall_fell(
        before: Vec<Vec<bool>>,
        after: Vec<Vec<bool>>,
        i: int,
        j: int,
    ) -> bool {
        &&& after@.len() == before@.len()
        &&& forall|r: int| 0 <= r < before@.len() && r != i ==> #[trigger] after@[r] == before@[r]
        &&& after@[i]@ == before@[i]@.update(j, false)
    }

    /// With every wall standing and no cell coloured, the first row is ready
    /// to be coloured.
    pub proof fn lemma_start(self)
        requires
            1 <= self.height,
            1 <= self.width,
            self.height * self.width < usize::MAX,
            self.row@.len() == self.width,
            forall|k: int| 0 <= k < self.width ==> self.row@[k] == 0,
            self.counts@ == Map::<usize, usize>::empty(),
            self.next_colour == 1,
            self.right_wall@.len() == self.height,
            self.down_wall@.len() == self.height,
            forall|r: int|
                0 <= r < self.height ==> (#[trigger] self.right_wall@[r])@.len() == self.width,
            forall|r: int|
                0 <= r < self.height ==> (#[trigger] self.down_wall@[r])@.len() == self.width,
            forall|r: int, c: int|
                0 <= r < self.height && 0 <= c < self.width ==> #[trigger] self.right_wall@[r]@[c],
            forall|r: int, c: int|
                0 <= r < self.height && 0 <= c < self.width ==> #[trigger] self.down_wall@[r]@[c],
            self.ledger@ == Ledger::start(self.height as int, self.width as int),
        ensures
            self.colouring(0, 0),
            self.counted(),
    {
        Ledger::lemma_start(self.height as int, self.width as int);
        assert(self.ledger@.maze.right =~~= self.maze().right);
        assert(self.ledger@.maze.down =~~= self.maze().down);
        lemma_occurrences_all(self.row@, 0);
        assert forall|v: usize| v != 0 implies occurrences(self.row@, v) == 0 by {
            lemma_occurrences_none(self.row@, v);
        }
    }

    /// Room for one more colour while a cell of the row has none.
    pub proof fn lemma_colour_room(self, i: int, j: int)
        requires
            self.colouring(i, j),
            self.counted(),
            j < self.width,
            self.row@[j] == 0,
        ensures
            self.next_colour < usize::MAX,
            count_of(self.counts@, self.next_colour) == 0,
            !self.ledger@.live.contains(self.next_colour),
    {
        lemma_occurrences_some(self.row@, 0, j);
        lemma_occurrences_none(self.row@, self.next_colour);
        let h = self.height as int;
        let w = self.width as int;
        assert(i * w + w <= h * w) by (nonlinear_arith)
            requires
                0 <= i < h,
                0 <= w,
        ;
    }

    /// A cell without a colour got a new one.
    pub proof fn lemma_colour_step(self, next: Carver, i: int, j: int)
        requires
            self.colouring(i, j),
            self.counted(),
            j < self.width,
            self.row@[j] == 0,
            self.same_size(&next),
            next.row@ == self.row@.update(j, self.next_colour),
            next.counts@ == self.counts@.insert(self.next_colour, 1),
            next.next_colour == self.next_colour + 1,
            next.right_wall == self.right_wall,
            next.down_wall == self.down_wall,
            next.ledger@ == self.ledger@.found((i, j), self.next_colour),
        ensures
            next.colouring(i, j + 1),
            next.counted(),
    {
        let colour = self.next_colour;
        self.lemma_colour_room(i, j);
        self.ledger@.lemma_found((i, j), colour);
        assert forall|v: usize|
            #![trigger occurrences(next.row@, v)]
            occurrences(next.row@, v) == occurrences(self.row@, v) + (if v == colour {
                1int
            } else {
                0int
            }) - (if v == 0 {
                1int
            } else {
                0int
            }) by {
            lemma_occurrences_update(self.row@, j, colour, v);
        }
        lemma_occurrences_none(self.row@, colour);
        assert(next.ledger@.maze == next.maze());
        assert forall|v: usize|
            #![trigger next.ledger@.live.contains(v)]
            #![trigger occurrences(next.row@, v)]
            next.ledger@.live.contains(v) <==> v != 0 && occurrences(next.row@, v) > 0 by {
            assert(self.ledger@.live.contains(v) <==> v != 0 && occurrences(self.row@, v) > 0);
        }
        assert forall|r: int, c: int| 0 <= r < i && 0 <= c < next.width
            implies #[trigger] (next.ledger@.label)((r, c)) != 0 by {
            assert((self.ledger@.label)((r, c)) != 0);
        }
        assert(next.base(i));
        assert forall|c: int| 0 <= c < next.width && next.row@[c] != 0
            implies #[trigger] (next.ledger@.label)((i, c)) == next.row@[c] by {
            if c != j {
                assert((self.ledger@.label)((i, c)) == self.row@[c]);
            }
        }
        assert forall|v: usize| v != 0 implies #[trigger] count_of(next.counts@, v) == occurrences(
            next.row@,
            v,
        ) by {
            assert(count_of(self.counts@, v) == occurrences(self.row@, v));
        }
    }

    /// Once every cell of the row has a colour, the row is settled.
    pub proof fn lemma_coloured(self, i: int)
        requires
            self.colouring(i, self.width as int),
        ensures
            self.settled(i),
    {
        lemma_occurrences_none(self.row@, 0);
        let w = self.width as int;
        assert((i + 1) * w == i * w + w) by (nonlinear_arith);
    }

    /// Room for the counts of two colours in one.
    pub proof fn lemma_merge_room(self, i: int, j: int)
        requires
            self.settled(i),
            self.counted(),
            0 <= j,
            j + 1 < self.width,
            self.row@[j] != self.row@[j + 1],
        ensures
            count_of(self.counts@, self.row@[j]) + count_of(self.counts@, self.row@[j + 1])
                <= self.width,
    {
        lemma_occurrences_pair(self.row@, self.row@[j], self.row@[j + 1]);
    }

    /// The wall between two cells of different colours fell, and the colour
    /// of the left cell went over every cell that had the colour of the right
    /// one.
    pub proof fn lemma_fuse_step(self, next: Carver, i: int, j: int)
        requires
            self.settled(i),
            0 <= j,
            j + 1 < self.width,
            self.row@[j] != self.row@[j + 1],
            self.same_size(&next),
            next.row@ == recoloured(self.row@, self.row@[j + 1], self.row@[j]),
            next.next_colour == self.next_colour,
            Self::one_wall_fell(self.right_wall, next.right_wall, i, j),
            next.down_wall == self.down_wall,
            next.ledger@ == self.ledger@.joined_right((i, j)),
        ensures
            next.settled(i),
    {
        let keep = self.row@[j];
        let gone = self.row@[j + 1];
        assert((self.ledger@.label)((i, j)) == keep);
        assert((self.ledger@.label)((i, j + 1)) == gone);
        assert(self.right_wall@[i]@[j]);
        assert(self.maze().right[i] == self.right_wall@[i]@);
        self.ledger@.lemma_joined_right((i, j));
        assert(next.maze().right =~~= self.maze().carve_right((i, j)).right) by {
            assert forall|r: int| 0 <= r < next.height implies #[trigger] next.maze().right[r]
                =~= self.maze().carve_right((i, j)).right[r] by {
                if r != i {
                    assert(next.right_wall@[r] == self.right_wall@[r]);
                }
            }
        }
        assert(next.ledger@.maze == next.maze());
        assert forall|v: usize|
            #![trigger occurrences(next.row@, v)]
            occurrences(next.row@, v) == if v == gone {
                0
            } else if v == keep {
                occurrences(self.row@, keep) + occurrences(self.row@, gone)
            } else {
                occurrences(self.row@, v)
            } by {
            lemma_occurrences_recoloured(self.row@, gone, keep, v);
        }
        lemma_occurrences_some(self.row@, keep, j);
        assert forall|v: usize|
            #![trigger next.ledger@.live.contains(v)]
            #![trigger occurrences(next.row@, v)]
            next.ledger@.live.contains(v) <==> v != 0 && occurrences(next.row@, v) > 0 by {
            assert(self.ledger@.live.contains(v) <==> v != 0 && occurrences(self.row@, v) > 0);
        }
        assert forall|k: int| 0 <= k < next.width implies (#[trigger] next.row@[k])
            < next.next_colour by {
            assert(self.row@[k] < self.next_colour);
        }
        assert forall|r: int, c: int| 0 <= r < i && 0 <= c < next.width
            implies #[trigger] (next.ledger@.label)((r, c)) != 0 by {
            assert((self.ledger@.label)((r, c)) != 0);
        }
        assert forall|r: int, c: int|
            i < r < next.height && 0 <= c < next.width
                implies #[trigger] next.right_wall@[r]@[c] by {
            assert(next.right_wall@[r] == self.right_wall@[r]);
            assert(self.right_wall@[r]@[c]);
        }
        assert forall|r: int| 0 <= r < next.height
            implies (#[trigger] next.right_wall@[r])@[next.width
            - 1] by {
            assert(self.right_wall@[r]@[self.width - 1]);
            if r != i {
                assert(next.right_wall@[r] == self.right_wall@[r]);
            }
        }
        assert forall|r: int| 0 <= r < next.height implies (#[trigger] next.right_wall@[r])@.len()
            == next.width by {
            assert(self.right_wall@[r]@.len() == self.width);
            if r != i {
                assert(next.right_wall@[r] == self.right_wall@[r]);
            }
        }
        assert(next.base(i));
        assert forall|c: int| 0 <= c < next.width implies #[trigger] (next.ledger@.label)((i, c))
            == next.row@[c] by {
            assert((self.ledger@.label)((i, c)) == self.row@[c]);
        }
        assert forall|c: int| 0 <= c < next.width implies (#[trigger] next.row@[c]) != 0 by {
            assert(self.row@[c] != 0);
        }
        assert forall|c: int|
            0 <= c < next.width - 1 && !(#[trigger] next.right_wall@[i]@[c]) implies next.row@[c]
            == next.row@[c + 1] by {
            if c != j {
                assert(!self.right_wall@[i]@[c]);
            }
        }
    }

    /// After a fusion the counts of the two colours are one count.
    pub proof fn lemma_merge_counted(self, next: Carver, keep: usize, gone: usize)
        requires
            self.counted(),
            keep != gone,
            keep != 0,
            gone != 0,
            next.row@ == recoloured(self.row@, gone, keep),
            next.counts@ == self.counts@.insert(
                keep,
                (count_of(self.counts@, keep) + count_of(self.counts@, gone)) as usize,
            ).insert(gone, 0),
            count_of(self.counts@, keep) + count_of(self.counts@, gone) <= usize::MAX,
        ensures
            next.counted(),
    {
        assert forall|v: usize| v != 0 implies #[trigger] count_of(next.counts@, v) == occurrences(
            next.row@,
            v,
        ) by {
            lemma_occurrences_recoloured(self.row@, gone, keep, v);
            assert(count_of(self.counts@, v) == occurrences(self.row@, v));
            assert(count_of(self.counts@, keep) == occurrences(self.row@, keep));
            assert(count_of(self.counts@, gone) == occurrences(self.row@, gone));
        }
    }

    /// A settled row that is not the last can be closed off.
    pub proof fn lemma_settled_closing(self, i: int)
        requires
            self.settled(i),
            i + 1 < self.height,
        ensures
            self.closing(i, 0),
    {
        lemma_occurrences_none(self.row@, 0);
    }

    /// The wall below a cell stays, and the cell's colour lives on in
    /// another cell.
    pub proof fn lemma_shut_step(self, next: Carver, i: int, j: int)
        requires
            self.closing(i, j),
            self.counted(),
            j < self.width,
            count_of(self.counts@, self.row@[j]) > 1,
            self.same_size(&next),
            next.row@ == self.row@.update(j, 0),
            next.counts@ == self.counts@.insert(
                self.row@[j],
                (count_of(self.counts@, self.row@[j]) - 1) as usize,
            ),
            next.next_colour == self.next_colour,
            next.right_wall == self.right_wall,
            next.down_wall == self.down_wall,
            next.ledger@ == self.ledger@,
        ensures
            next.closing(i, j + 1),
            next.counted(),
    {
        let colour = self.row@[j];
        assert(count_of(self.counts@, colour) == occurrences(self.row@, colour));
        assert forall|v: usize|
            #![trigger occurrences(next.row@, v)]
            occurrences(next.row@, v) == occurrences(self.row@, v) + (if v == 0 {
                1int
            } else {
                0int
            }) - (if v == colour {
                1int
            } else {
                0int
            }) by {
            lemma_occurrences_update(self.row@, j, 0, v);
        }
        assert forall|v: usize|
            #![trigger next.ledger@.live.contains(v)]
            #![trigger occurrences(next.row@, v)]
            next.ledger@.live.contains(v) <==> v != 0 && occurrences(next.row@, v) > 0 by {
            assert(self.ledger@.live.contains(v) <==> v != 0 && occurrences(self.row@, v) > 0);
        }
        assert forall|k: int| 0 <= k < next.width implies (#[trigger] next.row@[k])
            < next.next_colour by {
            assert(self.row@[k] < self.next_colour);
        }
        assert(next.base(i));
        assert forall|r: int, c: int|
            r == i + 1 && 0 <= c < j + 1 && next.row@[c] != 0
                implies #[trigger] (next.ledger@.label)((r, c))
            == next.row@[c] by {
            assert((self.ledger@.label)((r, c)) == self.row@[c]);
        }
        assert forall|v: usize| v != 0 implies #[trigger] count_of(next.counts@, v) == occurrences(
            next.row@,
            v,
        ) by {
            assert(count_of(self.counts@, v) == occurrences(self.row@, v));
        }
    }

    /// The wall below a cell fell, and its colour went down with it.
    pub proof fn lemma_open_step(self, next: Carver, i: int, j: int)
        requires
            self.closing(i, j),
            j < self.width,
            self.same_size(&next),
            next.row == self.row,
            next.counts == self.counts,
            next.next_colour == self.next_colour,
            next.right_wall == self.right_wall,
            Self::one_wall_fell(self.down_wall, next.down_wall, i, j),
            next.ledger@ == self.ledger@.carried_down((i, j)),
        ensures
            next.closing(i, j + 1),
    {
        assert((self.ledger@.label)((i, j)) == self.row@[j]);
        assert(self.down_wall@[i]@[j]);
        assert(self.maze().down[i] == self.down_wall@[i]@);
        self.ledger@.lemma_carried_down((i, j));
        assert(next.maze().down =~~= self.maze().carve_down((i, j)).down) by {
            assert forall|r: int| 0 <= r < next.height implies #[trigger] next.maze().down[r]
                =~= self.maze().carve_down((i, j)).down[r] by {
                if r != i {
                    assert(next.down_wall@[r] == self.down_wall@[r]);
                }
            }
        }
        assert(next.ledger@.maze == next.maze());
        assert forall|r: int, c: int| 0 <= r < i && 0 <= c < next.width
            implies #[trigger] (next.ledger@.label)((r, c)) != 0 by {
            assert((self.ledger@.label)((r, c)) != 0);
        }
        assert forall|r: int, c: int|
            i < r < next.height && 0 <= c < next.width
                implies #[trigger] next.down_wall@[r]@[c] by {
            assert(next.down_wall@[r] == self.down_wall@[r]);
            assert(self.down_wall@[r]@[c]);
        }
        assert forall|r: int, c: int|
            r == next.height - 1 && 0 <= c < next.width
                implies #[trigger] next.down_wall@[r]@[c] by {
            assert(next.down_wall@[r] == self.down_wall@[r]);
            assert(self.down_wall@[r]@[c]);
        }
        assert forall|r: int| 0 <= r < next.height implies (#[trigger] next.down_wall@[r])@.len()
            == next.width by {
            assert(self.down_wall@[r]@.len() == self.width);
            if r != i {
                assert(next.down_wall@[r] == self.down_wall@[r]);
            }
        }
        assert(next.base(i));
        assert forall|c: int| 0 <= c < next.width
            implies #[trigger] (next.ledger@.label)((i, c)) != 0 by {
            assert((self.ledger@.label)((i, c)) != 0);
        }
        assert forall|c: int| j + 1 <= c < next.width
            implies #[trigger] (next.ledger@.label)((i, c))
            == next.row@[c] by {
            assert((self.ledger@.label)((i, c)) == self.row@[c]);
        }
        assert forall|r: int, c: int|
            r == i + 1 && 0 <= c < j + 1 && next.row@[c] != 0
                implies #[trigger] (next.ledger@.label)((r, c))
            == next.row@[c] by {
            if c != j {
                assert((self.ledger@.label)((r, c)) == self.row@[c]);
            }
        }
        assert forall|c: int| j + 1 <= c < next.width implies #[trigger] next.down_wall@[i]@[c] by {
            assert(self.down_wall@[i]@[c]);
        }
    }

    /// A row that was closed off leaves the next row ready to be coloured.
    pub proof fn lemma_closed(self, i: int)
        requires
            self.closing(i, self.width as int),
        ensures
            self.colouring(i + 1, 0),
    {
        assert forall|r: int, c: int| 0 <= r < i + 1 && 0 <= c < self.width
            implies #[trigger] (self.ledger@.label)((r, c)) != 0 by {
            if r == i {
                assert((self.ledger@.label)((i, c)) != 0);
            }
        }
    }

    /// A last row of one colour closes a perfect maze.
    pub proof fn lemma_sealed(self)
        requires
            self.sealing(self.width - 1),
        ensures
            maze_of(self.right_wall, self.down_wall) == self.maze(),
            self.maze().wf(),
            self.maze().enclosed(),
            self.maze().is_perfect(),
    {
        let last = self.height - 1;
        let only = self.row@[0];
        let ledger = self.ledger@;
        assert(self.right_wall@[0]@.len() == self.width);
        assert forall|v: usize| ledger.live.contains(v) <==> v == only by {
            if ledger.live.contains(v) {
                let k = lemma_occurrences_witness(self.row@, v);
                assert(self.row@[k] == self.row@[0]);
            }
            if v == only {
                lemma_occurrences_some(self.row@, only, 0);
            }
        }
        assert(ledger.live =~= set![only]);
        let h = self.height as int;
        let w = self.width as int;
        assert((last + 1) * w == h * w);
        let maze = self.maze();
        assert forall|a: Cell, b: Cell| maze.contains(a) && maze.contains(b)
            implies #[trigger] maze.connected(a, b) by {
            assert((self.ledger@.label)((a.0, a.1)) != 0);
            assert((self.ledger@.label)((b.0, b.1)) != 0);
            assert(ledger.live.contains((ledger.label)(a)));
            assert(ledger.live.contains((ledger.label)(b)));
        }
        assert forall|r: int| 0 <= r < maze.rows
            implies (#[trigger] maze.right[r])[maze.cols - 1] by {
            assert(self.right_wall@[r]@[self.width - 1]);
        }
        assert forall|r: int, c: int| r == maze.rows - 1 && 0 <= c < maze.cols
            implies #[trigger] maze.down[r][c] by {
            assert(self.down_wall@[r]@[c]);
        }
    }

    /// A grid of standing walls with an uncoloured first row.
    pub fn new(height: usize, width: usize) -> (carver: Carver)
        requires
            1 <= height,
            1 <= width,
            height * width < usize::MAX,
        ensures
            carver.height == height,
            carver.width == width,
            carver.colouring(0, 0),
            carver.counted(),
    {
        let carver = Carver {
            height,
            width,
            row: vec![0usize; width],
            counts: HashMap::new(),
            next_colour: 1,
            right_wall: standing_walls(height, width),
            down_wall: standing_walls(height, width),
            ledger: Ghost(Ledger::start(height as int, width as int)),
        };
        proof {
            carver.lemma_start();
        }
        carver
    }

    /// Gives every cell of row `i` that has no colour a colour of its own.
    pub fn colour_row(&mut self, i: usize)
        requires
            old(self).colouring(i as int, 0),
            old(self).counted(),
        ensures
            old(self).same_size(final(self)),
            final(self).settled(i as int),
            final(self).counted(),
    {
        let width: usize = self.width;
        for j in 0..width
            invariant
                width == self.width,
                old(self).same_size(self),
                self.colouring(i as int, j as int),
                self.counted(),
        {
            if self.row[j] == 0 {
                let ghost before = *self;
                let colour: usize = self.next_colour;
                proof {
                    before.lemma_colour_room(i as int, j as int);
                }
                let held: usize = count(&self.counts, colour);
                self.row[j] = colour;
                self.counts.insert(colour, held + 1);
                self.next_colour = colour + 1;
                self.ledger = Ghost(before.ledger@.found((i as int, j as int), colour));
                proof {
                    before.lemma_colour_step(*self, i as int, j as int);
                }
            }
        }
        proof {
            self.lemma_coloured(i as int);
        }
    }

    /// Takes down the wall between columns `j` and `j + 1` of row `i`, whose
    /// cells differ in colour, and makes one colour of the two.
    pub fn fuse(&mut self, i: usize, j: usize)
        requires
            old(self).settled(i as int),
            j + 1 < old(self).width,
            old(self).row@[j as int] != old(self).row@[j + 1],
        ensures
            old(self).same_size(final(self)),
            final(self).settled(i as int),
            final(self).row@ == recoloured(
                old(self).row@,
                old(self).row@[j + 1],
                old(self).row@[j as int],
            ),
            final(self).counts == old(self).counts,
            Self::one_wall_fell(old(self).right_wall, final(self).right_wall, i as int, j as int),
            final(self).down_wall == old(self).down_wall,
    {
        let ghost before = *self;
        let keep: usize = self.row[j];
        let gone: usize = self.row[j + 1];
        recolour(&mut self.row, gone, keep);
        self.right_wall[i][j] = false;
        self.ledger = Ghost(before.ledger@.joined_right((i as int, j as int)));
        proof {
            before.lemma_fuse_step(*self, i as int, j as int);
        }
    }

    /// Decides the wall between columns `j` and `j + 1` of row `i`, whose
    /// cells differ in colour. Where `fall` says so the wall falls and the
    /// two colours become one, with their counts added up; else nothing
    /// changes.
    pub fn join(&mut self, i: usize, j: usize, fall: bool)
        requires
            old(self).settled(i as int),
            old(self).counted(),
            j + 1 < old(self).width,
            old(self).row@[j as int] != old(self).row@[j + 1],
        ensures
            old(self).same_size(final(self)),
            final(self).settled(i as int),
            final(self).counted(),
            final(self).down_wall == old(self).down_wall,
            fall ==> final(self).row@ == recoloured(
                old(self).row@,
                old(self).row@[j + 1],
                old(self).row@[j as int],
            ) && Self::one_wall_fell(
                old(self).right_wall,
                final(self).right_wall,
                i as int,
                j as int,
            ),
            !fall ==> final(self).row@ == old(self).row@
                && final(self).right_wall == old(self).right_wall,
    {
        if fall {
            let ghost before = *self;
            let keep: usize = self.row[j];
            let gone: usize = self.row[j + 1];
            proof {
                before.lemma_merge_room(i as int, j as int);
            }
            let kept: usize = count(&self.counts, keep);
            let went: usize = count(&self.counts, gone);
            self.counts.insert(keep, kept + went);
            self.counts.insert(gone, 0);
            self.fuse(i, j);
            proof {
                before.lemma_merge_counted(*self, keep, gone);
            }
        }
    }

    /// Decides the walls between the cells of row `i`: between two colours
    /// a coin decides, within one colour the wall stays. Whatever the coin
    /// says, only walls between cells of this row change, and they only
    /// fall; cells that had one colour keep one colour, and the wall between
    /// two of them stays as it was.
    pub fn join_row(&mut self, i: usize)
        requires
            old(self).settled(i as int),
            old(self).counted(),
        ensures
            old(self).same_size(final(self)),
            final(self).settled(i as int),
            final(self).counted(),
            final(self).joined_from(old(self), i as int, final(self).width - 1),
    {
        let width: usize = self.width;
        for j in 0..width - 1
            invariant
                width == self.width,
                old(self).same_size(self),
                old(self).settled(i as int),
                self.settled(i as int),
                self.counted(),
                self.joined_from(old(self), i as int, j as int),
        {
            if self.row[j] != self.row[j + 1] {
                let ghost before = *self;
                let fall: bool = flip_coin();
                self.join(i, j, fall);
                proof {
                    let r = i as int;
                    assert forall|c: int| 0 <= c < self.width
                        implies #[trigger] self.right_wall@[r]@[c]
                        == (before.right_wall@[r]@[c] && !(fall && c == j)) by {}
                    assert forall|a: int, b: int|
                        #![trigger self.row@[a], self.row@[b]]
                        0 <= a < self.width && 0 <= b < self.width
                            && old(self).row@[a] == old(self).row@[b]
                        implies self.row@[a] == self.row@[b] by {
                        assert(before.row@[a] == before.row@[b]);
                    }
                    assert forall|c: int|
                        0 <= c < self.width - 1 && old(self).row@[c] == old(self).row@[c + 1]
                        implies #[trigger] self.right_wall@[r]@[c]
                        == old(self).right_wall@[r]@[c] by {
                        assert(before.row@[c] == before.row@[c + 1]);
                        assert(before.right_wall@[r]@[c] == old(self).right_wall@[r]@[c]);
                    }
                }
            }
        }
    }

    /// Decides the wall below column `j` of row `i`. Where `shut` says so the
    /// wall stays, the count of the cell's colour goes down by one and, but
    /// in the last row, the cell below is left without a colour. Else, but in
    /// the last row, the wall falls and the colour goes down with it.
    pub fn close(&mut self, i: usize, j: usize, shut: bool)
        requires
            j < old(self).width,
            i + 1 <= old(self).height,
            i + 1 < old(self).height
                ==> old(self).closing(i as int, j as int) && old(self).counted(),
            i + 1 == old(self).height ==> old(self).settled(i as int),
            shut ==> count_of(old(self).counts@, old(self).row@[j as int]) > 1,
        ensures
            old(self).same_size(final(self)),
            i + 1 < old(self).height
                ==> final(self).closing(i as int, j + 1) && final(self).counted(),
            i + 1 == old(self).height ==> final(self).settled(i as int),
            final(self).right_wall == old(self).right_wall,
            shut || i + 1 == old(self).height ==> final(self).down_wall == old(self).down_wall,
            !shut && i + 1 < old(self).height ==> Self::one_wall_fell(
                old(self).down_wall,
                final(self).down_wall,
                i as int,
                j as int,
            ),
            shut && i + 1 < old(self).height ==> final(self).row@ == old(self).row@.update(
                j as int,
                0,
            ),
            !shut || i + 1 == old(self).height ==> final(self).row@ == old(self).row@,
    {
        let ghost before = *self;
        let last: bool = i + 1 == self.height;
        if shut {
            let colour: usize = self.row[j];
            let held: usize = count(&self.counts, colour);
            self.counts.insert(colour, held - 1);
            if !last {
                self.row[j] = 0;
                proof {
                    before.lemma_shut_step(*self, i as int, j as int);
                }
            }
        } else if !last {
            self.down_wall[i][j] = false;
            self.ledger = Ghost(before.ledger@.carried_down((i as int, j as int)));
            proof {
                before.lemma_open_step(*self, i as int, j as int);
            }
        }
    }

    /// Decides the walls below the cells of row `i`: where the cell's colour
    /// has another cell left a coin decides, else the way down stays open.
    /// In the last row every wall below stays.
    pub fn close_row(&mut self, i: usize)
        requires
            old(self).settled(i as int),
            old(self).counted(),
        ensures
            old(self).same_size(final(self)),
            i + 1 < old(self).height ==> final(self).colouring(i + 1, 0) && final(self).counted(),
            i + 1 == old(self).height ==> final(self).settled(i as int),
    {
        let width: usize = self.width;
        let last: bool = i + 1 == self.height;
        proof {
            if !last {
                self.lemma_settled_closing(i as int);
            }
        }
        for j in 0..width
            invariant
                width == self.width,
                old(self).same_size(self),
                last == (i + 1 == self.height),
                i + 1 <= self.height,
                last ==> self.settled(i as int),
                !last ==> self.closing(i as int, j as int) && self.counted(),
        {
            let mut shut: bool = false;
            if count(&self.counts, self.row[j]) > 1 {
                shut = flip_coin();
            }
            self.close(i, j, shut);
        }
        proof {
            if !last {
                self.lemma_closed(i as int);
            }
        }
    }

    /// Joins what is left of the components in the last row.
    pub fn seal(&mut self)
        requires
            old(self).settled(old(self).height - 1),
        ensures
            old(self).same_size(final(self)),
            maze_of(final(self).right_wall, final(self).down_wall) == final(self).maze(),
            final(self).maze().wf(),
            final(self).maze().enclosed(),
            final(self).maze().is_perfect(),
    {
        let width: usize = self.width;
        let last: usize = self.height - 1;
        for j in 0..width - 1
            invariant
                width == self.width,
                last == self.height - 1,
                old(self).same_size(self),
                self.sealing(j as int),
        {
            if self.row[j] != self.row[j + 1] {
                self.fuse(last, j);
            }
        }
        proof {
            self.lemma_sealed();
        }
    }
}

} // verus!
