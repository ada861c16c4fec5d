//! The world: an unbounded plane of maze tiles, of which a window of three by
//! three tiles is held at any time.

use vstd::prelude::*;
use vstd::arithmetic::div_mod::{
    lemma_fundamental_div_mod,
    lemma_fundamental_div_mod_converse,
    lemma_mod_bound,
};
use crate::grid::{grid_view, maze_of, ThinMaze};
use crate::maze_generator::{
    generate_maze,
    lemma_flattened_grid,
    matrix_to_vector,
    thick_cell,
    thin_to_thick_maze,
};

verus! {

/// What a cell of the world holds.
#[derive(Clone, Copy, Debug, PartialEq, Eq, Structural)]
pub enum MapObject {
    Space,
    Wall,
}

/// The longest side that a tile may have.
pub const MAX_TILE_SIDE: usize = 0x8000;

/// The cell that a raster flag stands for.
pub open spec fn cell_of(wall: bool) -> MapObject {
    if wall {
        MapObject::Wall
    } else {
        MapObject::Space
    }
}

/// `tile` is the raster of `maze`, row after row.
pub open spec fn is_tile_of(tile: Seq<MapObject>, maze: ThinMaze) -> bool {
    &&& tile.len() == (2 * maze.rows) * (2 * maze.cols)
    &&& forall|y: int, x: int|
        0 <= y < 2 * maze.rows && 0 <= x < 2 * maze.cols ==> tile[y * (2 * maze.cols) + x]
            == cell_of(#[trigger] thick_cell(maze.right, maze.down, y, x))
}

/// `tile` is the raster of some perfect maze with closed right and bottom
/// borders, `tile_height` cells high and `tile_width` cells wide.
pub open spec fn is_maze_tile(tile: Seq<MapObject>, tile_height: int, tile_width: int) -> bool {
    exists|maze: ThinMaze|
        {
            &&& #[trigger] is_tile_of(tile, maze)
            &&& 2 * maze.rows == tile_height
            &&& 2 * maze.cols == tile_width
            &&& maze.wf()
            &&& maze.enclosed()
            &&& maze.is_perfect()
        }
}

/// Whether slot `(a, b)` of the new window was filled once the scan stands
/// at `(di, dj)`.
spec fn filled(a: int, b: int, di: int, dj: int) -> bool {
    0 <= a < 3 && 0 <= b < 3 && (a < di || (a == di && b < dj))
}

/// The index of the tile in row `row` and column `col` of the window.
pub open spec fn slot(row: int, col: int) -> int {
    row * 3 + col
}

/// A window of three by three tiles on the world. Cell `(x, y)` of the world
/// lies `x` cells to the right of and `y` cells below the world's origin.
#[derive(Debug)]
pub struct TileMap {
    map: Vec<Vec<MapObject>>,
    tile_height: usize,
    tile_width: usize,
    /// The world position of the top-left corner of the window.
    main_tile_pos: (i64, i64),
}

impl TileMap {
    /// The nine tiles, row by row; each tile holds its cells row by row.
    pub closed spec fn tiles(&self) -> Seq<Seq<MapObject>> {
        Seq::new(self.map@.len(), |t: int| self.map@[t]@)
    }

    /// The number of cell rows of a tile.
    pub closed spec fn tile_height(&self) -> int {
        self.tile_height as int
    }

    /// The number of cell columns of a tile.
    pub closed spec fn tile_width(&self) -> int {
        self.tile_width as int
    }

    /// The world position `(x, y)` of the window's top-left corner.
    pub closed spec fn origin(&self) -> (int, int) {
        (self.main_tile_pos.0 as int, self.main_tile_pos.1 as int)
    }

    /// The tile sides are even and within bounds.
    pub open spec fn sized(&self) -> bool {
        &&& 2 <= self.tile_height() <= MAX_TILE_SIDE
        &&& 2 <= self.tile_width() <= MAX_TILE_SIDE
        &&& self.tile_height() % 2 == 0
        &&& self.tile_width() % 2 == 0
    }

    /// The window holds exactly nine maze tiles, and its corner lies where a
    /// viewer at any `i32` position can have put it.
    pub open spec fn wf(&self) -> bool {
        &&& self.sized()
        &&& i32::MIN - 2 * self.tile_width() <= self.origin().0 <= i32::MAX
        &&& i32::MIN - 2 * self.tile_height() <= self.origin().1 <= i32::MAX
        &&& self.tiles().len() == 9
        &&& forall|t: int|
            0 <= t < 9 ==> is_maze_tile(
                #[trigger] self.tiles()[t],
                self.tile_height(),
                self.tile_width(),
            )
    }

    /// The tile in row `row` and column `col` of the window.
    pub open spec fn tile(&self, row: int, col: int) -> Seq<MapObject> {
        self.tiles()[slot(row, col)]
    }

    /// The window-relative tile `(column, row)` in which world cell `(x, y)`
    /// lies; outside 0..=2 where the cell lies outside the window.
    pub open spec fn tile_pos(&self, x: int, y: int) -> (int, int) {
        ((x - self.origin().0) / self.tile_width(), (y - self.origin().1) / self.tile_height())
    }

    /// World cell `(x, y)` lies in one of the nine tiles.
    pub open spec fn in_window(&self, x: int, y: int) -> bool {
        let (tx, ty) = self.tile_pos(x, y);
        0 <= tx <= 2 && 0 <= ty <= 2
    }

    /// What the world holds at cell `(x, y)`, as far as the window shows it.
    pub open spec fn cell_at(&self, x: int, y: int) -> Option<MapObject> {
        if self.in_window(x, y) {
            let (tx, ty) = self.tile_pos(x, y);
            let lx = (x - self.origin().0) % self.tile_width();
            let ly = (y - self.origin().1) % self.tile_height();
            Some(self.tile(ty, tx)[ly * self.tile_width() + lx])
        } else {
            None
        }
    }

    /// Whether a viewer may stand on cell `(x, y)`: on anything but a wall.
    pub open spec fn passable(&self, x: int, y: int) -> bool {
        self.cell_at(x, y) != Some(MapObject::Wall)
    }

    /// The corner of the window whose middle tile holds world cell `(x, y)`.
    pub open spec fn recentred_origin(&self, x: int, y: int) -> (int, int) {
        let (tx, ty) = self.tile_pos(x, y);
        (
            self.origin().0 + (tx - 1) * self.tile_width(),
            self.origin().1 + (ty - 1) * self.tile_height(),
        )
    }

    /// One tile: the raster of a fresh perfect maze.
    fn make_tile(tile_height: usize, tile_width: usize) -> (tile: Vec<MapObject>)
        requires
            2 <= tile_height <= MAX_TILE_SIDE,
            2 <= tile_width <= MAX_TILE_SIDE,
            tile_height % 2 == 0,
            tile_width % 2 == 0,
        ensures
            is_maze_tile(tile@, tile_height as int, tile_width as int),
    {
        assert((tile_height / 2) * (tile_width / 2) < usize::MAX) by (nonlinear_arith)
            requires
                tile_height <= 0x8000,
                tile_width <= 0x8000,
        ;
        let thin_map = generate_maze(tile_height / 2, tile_width / 2);
        let ghost maze = maze_of(thin_map.0, thin_map.1);
        assert(maze.right[0] == thin_map.0@[0]@);
        let thick_map = thin_to_thick_maze(&thin_map.0, &thin_map.1);
        let ghost thick = thick_map@;
        proof {
            assert forall|r: int| 0 <= r < thick.len() implies (#[trigger] thick[r])@.len()
                == tile_width by {
                assert(grid_view(thick_map)[r] == thick[r]@);
            }
            lemma_flattened_grid(thick, tile_width as int);
        }
        let vector_map = matrix_to_vector(thick_map);
        let ghost flat = vector_map@;
        let mut out_tile: Vec<MapObject> = Vec::new();
        for elem in it: vector_map
            invariant
                it.seq() == flat,
                out_tile@.len() == it.index(),
                forall|k: int| 0 <= k < it.index() ==> out_tile@[k] == cell_of(flat[k]),
        {
            if elem {
                out_tile.push(MapObject::Wall);
            } else {
                out_tile.push(MapObject::Space);
            }
        }
        proof {
            assert(out_tile@.len() == (2 * maze.rows) * (2 * maze.cols));
            assert forall|y: int, x: int|
                0 <= y < 2 * maze.rows && 0 <= x < 2 * maze.cols implies out_tile@[y * (2
                * maze.cols) + x]
                    == cell_of(#[trigger] thick_cell(maze.right, maze.down, y, x)) by {
                assert(flat[y * tile_width + x] == thick[y]@[x]);
                assert(grid_view(thick_map)[y] == thick[y]@);
                assert(0 <= y * tile_width + x < (2 * maze.rows) * (2 * maze.cols))
                    by (nonlinear_arith)
                    requires
                        0 <= y < 2 * maze.rows,
                        0 <= x < 2 * maze.cols,
                        tile_width == 2 * maze.cols,
                ;
            }
            assert(is_tile_of(out_tile@, maze));
        }
        out_tile
    }

    /// The initial window: nine fresh tiles of sixteen by sixteen cells, the
    /// middle one with its top-left corner at the world's origin.
    pub fn new() -> (map: TileMap)
        ensures
            map.wf(),
            map.tile_height() == 16,
            map.tile_width() == 16,
            map.origin() == (-16int, -16int),
    {
        let tile_height: usize = 16;
        let tile_width: usize = 16;
        let mut map: Vec<Vec<MapObject>> = Vec::new();
        for tile in 0..9
            invariant
                tile_height == 16,
                tile_width == 16,
                map@.len() == tile,
                forall|t: int| 0 <= t < tile ==> is_maze_tile(#[trigger] map@[t]@, 16, 16),
        {
            map.push(Self::make_tile(tile_height, tile_width));
        }
        TileMap {
            map,
            tile_height,
            tile_width,
            main_tile_pos: (-(tile_width as i64), -(tile_height as i64)),
        }
    }

    /// A fresh tile of the window's tile size.
    fn generate_tile(&self) -> (tile: Vec<MapObject>)
        requires
            self.sized(),
        ensures
            is_maze_tile(tile@, self.tile_height(), self.tile_width()),
    {
        Self::make_tile(self.tile_height, self.tile_width)
    }

    /// A tile of the window's tile size without any wall.
    #[allow(dead_code)]
    fn generate_empty_tile(&self) -> (tile: Vec<MapObject>)
        requires
            self.sized(),
        ensures
            tile@.len() == self.tile_height() * self.tile_width(),
            forall|k: int| 0 <= k < tile@.len() ==> tile@[k] == MapObject::Space,
    {
        assert(self.tile_height * self.tile_width <= 0x4000_0000) by (nonlinear_arith)
            requires
                self.tile_height <= 0x8000,
                self.tile_width <= 0x8000,
        ;
        let cells: usize = self.tile_height * self.tile_width;
        let mut out: Vec<MapObject> = Vec::new();
        for i in 0..cells
            invariant
                out@.len() == i,
                forall|k: int| 0 <= k < i ==> out@[k] == MapObject::Space,
        {
            out.push(MapObject::Space);
        }
        out
    }

    /// The window-relative tile `(column, row)` in which world cell `(x, y)`
    /// lies. Anything but `(1, 1)` says that the viewer has left the middle
    /// tile.
    pub fn get_tile_pos_xy(&self, x: i32, y: i32) -> (pos: (i64, i64))
        requires
            self.wf(),
        ensures
            (pos.0 as int, pos.1 as int) == self.tile_pos(x as int, y as int),
    {
        let dx: i64 = x as i64 - self.main_tile_pos.0;
        let dy: i64 = y as i64 - self.main_tile_pos.1;
        let w: i64 = self.tile_width as i64;
        let h: i64 = self.tile_height as i64;
        proof {
            lemma_quotient_bound(dx as int, w as int);
            lemma_quotient_bound(dy as int, h as int);
        }
        (dx.checked_div_euclid(w).unwrap(), dy.checked_div_euclid(h).unwrap())
    }

    /// What the window shows at world cell `(x, y)`: the cell, or nothing
    /// where `(x, y)` lies outside the window.
    pub fn get(&self, x: i32, y: i32) -> (cell: Option<&MapObject>)
        requires
            self.wf(),
        ensures
            cell.is_some() <==> self.in_window(x as int, y as int),
            match cell {
                Some(object) => self.cell_at(x as int, y as int) == Some(*object),
                None => self.cell_at(x as int, y as int).is_none(),
            },
    {
        let (tile_x, tile_y) = self.get_tile_pos_xy(x, y);
        if tile_x < 0 || tile_x > 2 || tile_y < 0 || tile_y > 2 {
            return None;
        }
        let dx: i64 = x as i64 - self.main_tile_pos.0;
        let dy: i64 = y as i64 - self.main_tile_pos.1;
        let w: i64 = self.tile_width as i64;
        let h: i64 = self.tile_height as i64;
        proof {
            lemma_quotient_bound(dx as int, w as int);
            lemma_quotient_bound(dy as int, h as int);
            lemma_fundamental_div_mod(dx as int, w as int);
            lemma_fundamental_div_mod(dy as int, h as int);
            assert(w * tile_x == tile_x * w) by (nonlinear_arith);
            assert(h * tile_y == tile_y * h) by (nonlinear_arith);
            assert(0 <= tile_x * w <= 2 * w) by (nonlinear_arith)
                requires
                    0 <= tile_x <= 2,
                    0 <= w,
            ;
            assert(0 <= tile_y * h <= 2 * h) by (nonlinear_arith)
                requires
                    0 <= tile_y <= 2,
                    0 <= h,
            ;
        }
        let pos_in_tile_x: i64 = dx - tile_x * w;
        let pos_in_tile_y: i64 = dy - tile_y * h;
        proof {
            assert(pos_in_tile_x == (dx as int) % (w as int));
            assert(pos_in_tile_y == (dy as int) % (h as int));
            lemma_maze_tile_len(
                self.tiles()[slot(tile_y as int, tile_x as int)],
                self.tile_height(),
                self.tile_width(),
            );
            assert(0 <= pos_in_tile_y * w + pos_in_tile_x < h * w) by (nonlinear_arith)
                requires
                    0 <= pos_in_tile_y < h,
                    0 <= pos_in_tile_x < w,
            ;
            assert(0 <= pos_in_tile_y * w <= h * w) by (nonlinear_arith)
                requires
                    0 <= pos_in_tile_y < h,
                    0 <= w,
            ;
            assert(h * w <= 0x4000_0000) by (nonlinear_arith)
                requires
                    0 <= h <= 0x8000,
                    0 <= w <= 0x8000,
            ;
            assert(self.tiles()[slot(tile_y as int, tile_x as int)] == self.map@[tile_y * 3
                + tile_x]@);
        }
        let tile = &self.map[(tile_y * 3 + tile_x) as usize];
        Some(&tile[(pos_in_tile_y * w + pos_in_tile_x) as usize])
    }

    /// Whether a viewer may stand on world cell `(x, y)`. Only a wall stops
    /// it: what the window does not show is open ground.
    pub fn is_passable(&self, x: i32, y: i32) -> (free: bool)
        requires
            self.wf(),
        ensures
            free == self.passable(x as int, y as int),
    {
        match self.get(x, y) {
            Some(MapObject::Wall) => false,
            _ => true,
        }
    }

    /// The first of the cells along a ray that is a wall, by its index.
    /// Cells that the window does not show let the ray pass.
    pub fn first_wall(&self, cells: &Vec<(i32, i32)>) -> (hit: Option<usize>)
        requires
            self.wf(),
        ensures
            match hit {
                Some(k) => {
                    &&& k < cells@.len()
                    &&& !self.passable(cells@[k as int].0 as int, cells@[k as int].1 as int)
                    &&& forall|m: int|
                        0 <= m < k ==> self.passable(
                            (#[trigger] cells@[m]).0 as int,
                            cells@[m].1 as int,
                        )
                },
                None => forall|m: int|
                    0 <= m < cells@.len() ==> self.passable(
                        (#[trigger] cells@[m]).0 as int,
                        cells@[m].1 as int,
                    ),
            },
    {
        let n: usize = cells.len();
        for k in 0..n
            invariant
                n == cells@.len(),
                self.wf(),
                forall|m: int|
                    0 <= m < k ==> self.passable(
                        (#[trigger] cells@[m]).0 as int,
                        cells@[m].1 as int,
                    ),
        {
            let cell = cells[k];
            if !self.is_passable(cell.0, cell.1) {
                return Some(k);
            }
        }
        None
    }

    /// Moves the window so that its middle tile is the one that holds world
    /// cell `(x, y)`. Tiles that lie in both windows are kept; the others are
    /// dropped and fresh ones generated in the slots that open up.
    pub fn update_main_tile(&mut self, x: i32, y: i32)
        requires
            old(self).wf(),
        ensures
            final(self).wf(),
            final(self).tile_height() == old(self).tile_height(),
            final(self).tile_width() == old(self).tile_width(),
            final(self).origin() == old(self).recentred_origin(x as int, y as int),
            final(self).tile_pos(x as int, y as int) == (1int, 1int),
            forall|row: int, col: int|
                #![trigger final(self).tile(row, col)]
                {
                    let from_row = row + old(self).tile_pos(x as int, y as int).1 - 1;
                    let from_col = col + old(self).tile_pos(x as int, y as int).0 - 1;
                    0 <= row < 3 && 0 <= col < 3 && 0 <= from_row < 3 && 0 <= from_col < 3
                        ==> final(self).tile(row, col) == old(self).tile(from_row, from_col)
                },
            forall|u: int, v: int|
                #![trigger final(self).cell_at(u, v)]
                old(self).in_window(u, v) && final(self).in_window(u, v) ==> final(self).cell_at(
                    u,
                    v,
                ) == old(self).cell_at(u, v),
    {
        let (tile_x, tile_y) = self.get_tile_pos_xy(x, y);
        let dx: i64 = x as i64 - self.main_tile_pos.0;
        let dy: i64 = y as i64 - self.main_tile_pos.1;
        let w: i64 = self.tile_width as i64;
        let h: i64 = self.tile_height as i64;
        proof {
            lemma_quotient_bound(dx as int, w as int);
            lemma_quotient_bound(dy as int, h as int);
        }
        let ghost before = *self;
        let mut new_map: Vec<Vec<MapObject>> = Vec::new();
        for di in 0..3i64
            invariant
                -0x2_0000_0000 <= tile_x <= 0x2_0000_0000,
                -0x2_0000_0000 <= tile_y <= 0x2_0000_0000,
                before.wf(),
                self.tile_height == before.tile_height,
                self.tile_width == before.tile_width,
                self.main_tile_pos == before.main_tile_pos,
                self.map@.len() == 9,
                new_map@.len() == di * 3,
                forall|r: int, c: int|
                    0 <= r < 3 && 0 <= c < 3 && !filled(r - tile_y + 1, c - tile_x + 1, di as int, 0)
                        ==> self.map@[#[trigger] slot(r, c)] == before.map@[slot(r, c)],
                forall|a: int, b: int|
                    filled(a, b, di as int, 0) ==> {
                        let r = a + tile_y - 1;
                        let c = b + tile_x - 1;
                        if 0 <= r < 3 && 0 <= c < 3 {
                            new_map@[#[trigger] slot(a, b)]@ == before.map@[slot(r, c)]@
                        } else {
                            is_maze_tile(
                                new_map@[slot(a, b)]@,
                                before.tile_height(),
                                before.tile_width(),
                            )
                        }
                    },
        {
            for dj in 0..3i64
                invariant
                    0 <= di < 3,
                    -0x2_0000_0000 <= tile_x <= 0x2_0000_0000,
                    -0x2_0000_0000 <= tile_y <= 0x2_0000_0000,
                    before.wf(),
                    self.tile_height == before.tile_height,
                    self.tile_width == before.tile_width,
                    self.main_tile_pos == before.main_tile_pos,
                    self.map@.len() == 9,
                    new_map@.len() == di * 3 + dj,
                    forall|r: int, c: int|
                        0 <= r < 3 && 0 <= c < 3 && !filled(
                            r - tile_y + 1,
                            c - tile_x + 1,
                            di as int,
                            dj as int,
                        ) ==> self.map@[#[trigger] slot(r, c)] == before.map@[slot(r, c)],
                    forall|a: int, b: int|
                        filled(a, b, di as int, dj as int) ==> {
                            let r = a + tile_y - 1;
                            let c = b + tile_x - 1;
                            if 0 <= r < 3 && 0 <= c < 3 {
                                new_map@[#[trigger] slot(a, b)]@ == before.map@[slot(r, c)]@
                            } else {
                                is_maze_tile(
                                    new_map@[slot(a, b)]@,
                                    before.tile_height(),
                                    before.tile_width(),
                                )
                            }
                        },
            {
                let i: i64 = tile_y - 1 + di;
                let j: i64 = tile_x - 1 + dj;
                let ghost held = self.map@;
                let ghost made = new_map@;
                if i >= 0 && i < 3 && j >= 0 && j < 3 {
                    let mut tile: Vec<MapObject> = Vec::new();
                    assert(self.map@[slot(i as int, j as int)]
                        == before.map@[slot(i as int, j as int)]);
                    std::mem::swap(&mut self.map[(i * 3 + j) as usize], &mut tile);
                    new_map.push(tile);
                } else {
                    let tile = self.generate_tile();
                    new_map.push(tile);
                }
                proof {
                    assert forall|r: int, c: int|
                        0 <= r < 3 && 0 <= c < 3 && !filled(
                            r - tile_y + 1,
                            c - tile_x + 1,
                            di as int,
                            dj + 1,
                        ) implies self.map@[#[trigger] slot(r, c)] == before.map@[slot(r, c)] by {
                        assert(held[slot(r, c)] == before.map@[slot(r, c)]);
                    }
                    assert forall|a: int, b: int| filled(a, b, di as int, dj + 1) implies {
                        let r = a + tile_y - 1;
                        let c = b + tile_x - 1;
                        if 0 <= r < 3 && 0 <= c < 3 {
                            new_map@[#[trigger] slot(a, b)]@ == before.map@[slot(r, c)]@
                        } else {
                            is_maze_tile(
                                new_map@[slot(a, b)]@,
                                before.tile_height(),
                                before.tile_width(),
                            )
                        }
                    } by {
                        if a == di && b == dj {
                        } else {
                            assert(filled(a, b, di as int, dj as int));
                            assert(new_map@[slot(a, b)] == made[slot(a, b)]);
                        }
                    }
                }
            }
        }
        let left: i64 = dx.checked_rem_euclid(w).unwrap();
        let top: i64 = dy.checked_rem_euclid(h).unwrap();
        proof {
            lemma_recentred(before.origin().0, x as int, w as int);
            lemma_recentred(before.origin().1, y as int, h as int);
        }
        self.main_tile_pos = (x as i64 - left - w, y as i64 - top - h);
        self.map = new_map;
        proof {
            assert forall|t: int| 0 <= t < 9 implies is_maze_tile(
                #[trigger] self.tiles()[t],
                self.tile_height(),
                self.tile_width(),
            ) by {
                let a = t / 3;
                let b = t % 3;
                assert(filled(a, b, 3, 0));
                assert(t == slot(a, b));
                let r = a + tile_y - 1;
                let c = b + tile_x - 1;
                if 0 <= r < 3 && 0 <= c < 3 {
                    assert(before.tiles()[slot(r, c)] == before.map@[slot(r, c)]@);
                    assert(is_maze_tile(
                        before.tiles()[slot(r, c)],
                        before.tile_height(),
                        before.tile_width(),
                    ));
                }
            }
            assert forall|row: int, col: int|
                #![trigger self.tile(row, col)]
                {
                    let from_row = row + before.tile_pos(x as int, y as int).1 - 1;
                    let from_col = col + before.tile_pos(x as int, y as int).0 - 1;
                    0 <= row < 3 && 0 <= col < 3 && 0 <= from_row < 3 && 0 <= from_col < 3
                } implies self.tile(row, col) == before.tile(
                row + before.tile_pos(x as int, y as int).1 - 1,
                col + before.tile_pos(x as int, y as int).0 - 1,
            ) by {
                assert(filled(row, col, 3, 0));
                assert(self.map@[slot(row, col)]@
                    == before.map@[slot(row + tile_y - 1, col + tile_x - 1)]@);
            }
            assert forall|u: int, v: int|
                before.in_window(u, v) && self.in_window(u, v) implies #[trigger] self.cell_at(u, v)
                == before.cell_at(u, v) by {
                lemma_shifted(before.origin().0, w as int, tile_x - 1, u);
                lemma_shifted(before.origin().1, h as int, tile_y - 1, v);
                let (col, row) = self.tile_pos(u, v);
                assert(self.tile(row, col) == before.tile(row + tile_y - 1, col + tile_x - 1));
            }
        }
    }
}

/// The window shows a cell exactly where the cell's tile is one of the three
/// by three, and it holds nine tiles, whatever it went through.
pub proof fn lemma_window_shows(map: TileMap, x: int, y: int)
    requires
        map.wf(),
    ensures
        map.tiles().len() == 9,
        map.cell_at(x, y).is_some() <==> 0 <= map.tile_pos(x, y).0 <= 2 && 0 <= map.tile_pos(
            x,
            y,
        ).1 <= 2,
        0 <= map.tile_pos(x, y).0 <= 2 && 0 <= map.tile_pos(x, y).1 <= 2 ==> 0 <= slot(
            map.tile_pos(x, y).1,
            map.tile_pos(x, y).0,
        ) < 9,
{
}

/// A maze tile has as many cells as its sides say.
pub proof fn lemma_maze_tile_len(tile: Seq<MapObject>, tile_height: int, tile_width: int)
    requires
        is_maze_tile(tile, tile_height, tile_width),
    ensures
        tile.len() == tile_height * tile_width,
{
    let maze = choose|maze: ThinMaze|
        {
            &&& #[trigger] is_tile_of(tile, maze)
            &&& 2 * maze.rows == tile_height
            &&& 2 * maze.cols == tile_width
            &&& maze.wf()
            &&& maze.enclosed()
            &&& maze.is_perfect()
        };
    assert((2 * maze.rows) * (2 * maze.cols) == tile_height * tile_width) by (nonlinear_arith)
        requires
            2 * maze.rows == tile_height,
            2 * maze.cols == tile_width,
    ;
}

/// The quotient of a difference of world coordinates by a tile side is no
/// larger than the difference.
pub proof fn lemma_quotient_bound(d: int, side: int)
    requires
        1 <= side,
        -0x2_0000_0000 <= d <= 0x2_0000_0000,
    ensures
        -0x2_0000_0000 <= d / side <= 0x2_0000_0000,
        0 <= d % side < side,
{
    lemma_fundamental_div_mod(d, side);
    let q = d / side;
    assert(-0x2_0000_0000 <= q <= 0x2_0000_0000) by (nonlinear_arith)
        requires
            d == side * q + d % side,
            0 <= d % side < side,
            1 <= side,
            -0x2_0000_0000 <= d <= 0x2_0000_0000,
    ;
}

/// Along one axis: with the window's corner moved by `shift` tiles, every
/// cell lies `shift` tiles earlier in the window, at the same place in its
/// tile.
pub proof fn lemma_shifted(origin: int, side: int, shift: int, u: int)
    requires
        1 <= side,
    ensures
        (u - (origin + shift * side)) / side == (u - origin) / side - shift,
        (u - (origin + shift * side)) % side == (u - origin) % side,
{
    let d = u - origin;
    lemma_fundamental_div_mod(d, side);
    lemma_mod_bound(d, side);
    assert(d - shift * side == (d / side - shift) * side + d % side) by (nonlinear_arith)
        requires
            d == side * (d / side) + d % side,
    ;
    lemma_fundamental_div_mod_converse(d - shift * side, side, d / side - shift, d % side);
}

/// The last column and the last row of a maze tile are wall, and its first
/// cell is open.
pub proof fn lemma_maze_tile_borders(tile: Seq<MapObject>, tile_height: int, tile_width: int)
    requires
        is_maze_tile(tile, tile_height, tile_width),
        2 <= tile_height,
        2 <= tile_width,
    ensures
        tile[0] == MapObject::Space,
        forall|y: int|
            0 <= y < tile_height ==> #[trigger] tile[y * tile_width + tile_width - 1]
                == MapObject::Wall,
        forall|x: int|
            0 <= x < tile_width ==> #[trigger] tile[(tile_height - 1) * tile_width + x]
                == MapObject::Wall,
{
    let maze = choose|maze: ThinMaze|
        {
            &&& #[trigger] is_tile_of(tile, maze)
            &&& 2 * maze.rows == tile_height
            &&& 2 * maze.cols == tile_width
            &&& maze.wf()
            &&& maze.enclosed()
            &&& maze.is_perfect()
        };
    assert(!thick_cell(maze.right, maze.down, 0, 0));
    assert(0 * (2 * maze.cols) + 0 == 0);
    assert forall|y: int| 0 <= y < tile_height implies #[trigger] tile[y * tile_width + tile_width
        - 1] == MapObject::Wall by {
        let x = tile_width - 1;
        assert(maze.right[y / 2][maze.cols - 1]);
        assert(thick_cell(maze.right, maze.down, y, x));
    }
    assert forall|x: int| 0 <= x < tile_width implies #[trigger] tile[(tile_height - 1)
        * tile_width + x] == MapObject::Wall by {
        let y = tile_height - 1;
        assert(maze.down[maze.rows - 1][x / 2]);
        assert(thick_cell(maze.right, maze.down, y, x));
    }
}

/// Along one axis: with the window's corner moved one tile before the tile
/// that holds `x`, `x` lies in the middle tile.
pub proof fn lemma_recentred(origin: int, x: int, side: int)
    requires
        1 <= side,
    ensures
        x - (x - origin) % side - side == origin + ((x - origin) / side - 1) * side,
        (x - (x - (x - origin) % side - side)) / side == 1,
        0 <= (x - origin) % side < side,
{
    let d = x - origin;
    lemma_fundamental_div_mod(d, side);
    assert((d / side - 1) * side == side * (d / side) - side) by (nonlinear_arith);
    lemma_fundamental_div_mod_converse(d % side + side, side, 1, d % side);
}

} // verus!
