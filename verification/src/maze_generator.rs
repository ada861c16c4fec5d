//! Generation of perfect mazes as thin-wall grids, and their rasterisation
//! into grids of full cells.

use vstd::prelude::*;
use crate::carver::Carver;
use crate::grid::{grid_view, is_grid, maze_of};

verus! {

/// The rows of `m` laid end to end.
pub open spec fn flattened<T>(m: Seq<Vec<T>>) -> Seq<T>
    decreases m.len(),
{
    if m.len() == 0 {
        Seq::empty()
    } else {
        flattened(m.drop_last()) + m.last()@
    }
}

/// Builds a perfect maze of `height` rows and `width` columns of cells, as
/// the grid of walls to the right of each cell and the grid of walls below
/// each cell.
///
/// Which maze comes out is left to chance. Whatever the coin says, the
/// passages form a spanning tree of the cells, and walls stand all along the
/// right and the bottom border.
pub fn generate_maze(height: usize, width: usize) -> (maze: (Vec<Vec<bool>>, Vec<Vec<bool>>))
    requires
        1 <= height,
        1 <= width,
        height * width < usize::MAX,
    ensures
        maze_of(maze.0, maze.1).rows == height,
        maze_of(maze.0, maze.1).cols == width,
        maze_of(maze.0, maze.1).wf(),
        maze_of(maze.0, maze.1).enclosed(),
        maze_of(maze.0, maze.1).is_perfect(),
{
    let mut carver = Carver::new(height, width);
    for i in 0..height
        invariant
            carver.height == height,
            carver.width == width,
            i < height ==> carver.colouring(i as int, 0) && carver.counted(),
            i == height ==> carver.settled(height - 1),
    {
        carver.colour_row(i);
        carver.join_row(i);
        carver.close_row(i);
    }
    carver.seal();
    (carver.right_wall, carver.down_wall)
}

/// Whether the flags of logical cell `(r, c)` have been painted once the
/// scan stands at `(i, j)`.
spec fn scanned(r: int, c: int, i: int, j: int) -> bool {
    r < i || (r == i && c < j)
}

/// Whether raster cell `(y, x)` is wall when only the flags of the logical
/// cells scanned before `(i, j)` count.
spec fn thick_cell_upto(
    right: Seq<Seq<bool>>,
    down: Seq<Seq<bool>>,
    y: int,
    x: int,
    i: int,
    j: int,
) -> bool {
    let r = y / 2;
    let c = x / 2;
    if y % 2 == 0 && x % 2 == 0 {
        false
    } else if y % 2 == 0 {
        scanned(r, c, i, j) && right[r][c]
    } else if x % 2 == 0 {
        scanned(r, c, i, j) && down[r][c]
    } else {
        ||| scanned(r, c, i, j) && (right[r][c] || down[r][c])
        ||| r + 1 < right.len() && scanned(r + 1, c, i, j) && right[r + 1][c]
        ||| c + 1 < down[r].len() && scanned(r, c + 1, i, j) && down[r][c + 1]
    }
}

/// Whether raster cell `(y, x)` of the doubled grid is wall.
///
/// Logical cell `(r, c)` becomes the block of rows `2r, 2r+1` and columns
/// `2c, 2c+1`. Its top-left cell is always open, its top-right cell is the
/// wall to the right, its bottom-left cell is the wall below, and its
/// bottom-right cell is a corner post that stands as soon as one of the four
/// wall segments that meet there does.
pub open spec fn thick_cell(right: Seq<Seq<bool>>, down: Seq<Seq<bool>>, y: int, x: int) -> bool {
    let r = y / 2;
    let c = x / 2;
    if y % 2 == 0 && x % 2 == 0 {
        false
    } else if y % 2 == 0 {
        right[r][c]
    } else if x % 2 == 0 {
        down[r][c]
    } else {
        ||| right[r][c]
        ||| down[r][c]
        ||| r + 1 < right.len() && right[r + 1][c]
        ||| c + 1 < down[r].len() && down[r][c + 1]
    }
}

/// The doubled grid of a thin-wall pair.
pub open spec fn rasterized(right: Seq<Seq<bool>>, down: Seq<Seq<bool>>) -> Seq<Seq<bool>> {
    Seq::new(
        2 * right.len(),
        |y: int| Seq::new(2 * right[0].len(), |x: int| thick_cell(right, down, y, x)),
    )
}

/// Doubles the resolution of a thin-wall maze: every logical cell becomes a
/// two-by-two block, with walls one raster cell thick.
pub fn thin_to_thick_maze(right_wall: &Vec<Vec<bool>>, down_wall: &Vec<Vec<bool>>) -> (maze: Vec<
    Vec<bool>,
>)
    requires
        right_wall.len() >= 1,
        is_grid(grid_view(*right_wall), right_wall.len() as int, right_wall[0].len() as int),
        is_grid(grid_view(*down_wall), right_wall.len() as int, right_wall[0].len() as int),
        2 * right_wall.len() <= usize::MAX,
        2 * right_wall[0].len() <= usize::MAX,
    ensures
        is_grid(grid_view(maze), 2 * right_wall.len(), 2 * right_wall[0].len()),
        grid_view(maze) == rasterized(grid_view(*right_wall), grid_view(*down_wall)),
{
    let rows: usize = right_wall.len();
    let cols: usize = right_wall[0].len();
    let ghost right = grid_view(*right_wall);
    let ghost down = grid_view(*down_wall);
    assert(right[0] == right_wall@[0]@);
    let mut maze: Vec<Vec<bool>> = Vec::new();
    for y in 0..2 * rows
        invariant
            2 * cols <= usize::MAX,
            maze.len() == y,
            forall|k: int| 0 <= k < y ==> (#[trigger] maze[k]).len() == 2 * cols,
            forall|k: int, x: int| 0 <= k < y && 0 <= x < 2 * cols ==> !(#[trigger] maze[k][x]),
    {
        maze.push(vec![false; 2 * cols]);
    }
    for i in 0..rows
        invariant
            rows == right_wall.len(),
            2 * rows <= usize::MAX,
            2 * cols <= usize::MAX,
            right == grid_view(*right_wall),
            down == grid_view(*down_wall),
            is_grid(right, rows as int, cols as int),
            is_grid(down, rows as int, cols as int),
            maze.len() == 2 * rows,
            forall|k: int| 0 <= k < 2 * rows ==> (#[trigger] maze[k]).len() == 2 * cols,
            forall|y: int, x: int|
                0 <= y < 2 * rows && 0 <= x < 2 * cols ==> #[trigger] maze[y][x] == thick_cell_upto(
                    right,
                    down,
                    y,
                    x,
                    i as int,
                    0,
                ),
    {
        assert(right[i as int] == right_wall@[i as int]@);
        assert(down[i as int] == down_wall@[i as int]@);
        let row_len: usize = right_wall[i].len();
        for j in 0..row_len
            invariant
                i < rows,
                row_len == cols,
                rows == right_wall.len(),
                2 * rows <= usize::MAX,
                2 * cols <= usize::MAX,
                right == grid_view(*right_wall),
                down == grid_view(*down_wall),
                is_grid(right, rows as int, cols as int),
                is_grid(down, rows as int, cols as int),
                maze.len() == 2 * rows,
                forall|k: int| 0 <= k < 2 * rows ==> (#[trigger] maze[k]).len() == 2 * cols,
                forall|y: int, x: int|
                    0 <= y < 2 * rows && 0 <= x < 2 * cols ==> #[trigger] maze[y][x]
                        == thick_cell_upto(right, down, y, x, i as int, j as int),
        {
            assert(right[i as int] == right_wall@[i as int]@);
            assert(down[i as int] == down_wall@[i as int]@);
            if right_wall[i][j] {
                if i > 0 {
                    maze[2 * i - 1][2 * j + 1] = true;
                }
                maze[2 * i][2 * j + 1] = true;
                maze[2 * i + 1][2 * j + 1] = true;
            }
            if down_wall[i][j] {
                if j > 0 {
                    maze[2 * i + 1][2 * j - 1] = true;
                }
                maze[2 * i + 1][2 * j] = true;
                maze[2 * i + 1][2 * j + 1] = true;
            }
        }
    }
    assert(grid_view(maze) =~~= rasterized(right, down));
    maze
}

/// In a matrix whose rows all have `cols` entries, entry `c` of row `r`
/// comes out at place `r * cols + c`.
pub proof fn lemma_flattened_grid<T>(m: Seq<Vec<T>>, cols: int)
    requires
        0 <= cols,
        forall|r: int| 0 <= r < m.len() ==> (#[trigger] m[r])@.len() == cols,
    ensures
        flattened(m).len() == m.len() * cols,
        forall|r: int, c: int|
            0 <= r < m.len() && 0 <= c < cols ==> flattened(m)[r * cols + c] == #[trigger] m[r]@[c],
    decreases m.len(),
{
    if m.len() > 0 {
        let head = m.drop_last();
        lemma_flattened_grid(head, cols);
        assert(m.len() * cols == head.len() * cols + cols) by (nonlinear_arith)
            requires
                head.len() == m.len() - 1,
        ;
        assert forall|r: int, c: int| 0 <= r < m.len() && 0 <= c < cols implies flattened(m)[r
            * cols + c] == #[trigger] m[r]@[c] by {
            if r < m.len() - 1 {
                assert(0 <= r * cols + c < head.len() * cols) by (nonlinear_arith)
                    requires
                        0 <= r < head.len(),
                        0 <= c < cols,
                ;
                assert(head[r] == m[r]);
                assert(flattened(head)[r * cols + c] == head[r]@[c]);
            } else {
                assert(r * cols + c == head.len() * cols + c);
            }
        }
    } else {
        assert(m.len() * cols == 0) by (nonlinear_arith)
            requires
                m.len() == 0,
        ;
    }
}

/// Lays the rows of a matrix end to end.
pub fn matrix_to_vector<T>(m: Vec<Vec<T>>) -> (a: Vec<T>)
    ensures
        a@ == flattened(m@),
{
    let mut a: Vec<T> = Vec::new();
    for row in it: m
        invariant
            it.seq() == m@,
            a@ == flattened(m@.take(it.index())),
    {
        let ghost done = m@.take(it.index());
        let ghost cells = row@;
        for elem in jt: row
            invariant
                jt.seq() == cells,
                a@ == flattened(done) + cells.take(jt.index()),
        {
            assert(cells.take(jt.index() + 1) == cells.take(jt.index()).push(elem));
            a.push(elem);
        }
        assert(cells.take(cells.len() as int) == cells);
        assert(m@.take(it.index() + 1).drop_last() == done);
    }
    assert(m@.take(m@.len() as int) == m@);
    a
}

} // verus!
