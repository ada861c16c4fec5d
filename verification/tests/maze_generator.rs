use ascii_maze::maze_generator::{generate_maze, matrix_to_vector, thin_to_thick_maze};

/// The number of cells that a walk from cell (0, 0) reaches without crossing a wall.
fn reachable_cells(right: &Vec<Vec<bool>>, down: &Vec<Vec<bool>>) -> usize {
    let rows = right.len();
    let cols = right[0].len();
    let mut seen = vec![vec![false; cols]; rows];
    let mut stack = vec![(0usize, 0usize)];
    seen[0][0] = true;
    let mut count = 0;
    while let Some((r, c)) = stack.pop() {
        count += 1;
        if c + 1 < cols && !right[r][c] && !seen[r][c + 1] {
            seen[r][c + 1] = true;
            stack.push((r, c + 1));
        }
        if c > 0 && !right[r][c - 1] && !seen[r][c - 1] {
            seen[r][c - 1] = true;
            stack.push((r, c - 1));
        }
        if r + 1 < rows && !down[r][c] && !seen[r + 1][c] {
            seen[r + 1][c] = true;
            stack.push((r + 1, c));
        }
        if r > 0 && !down[r - 1][c] && !seen[r - 1][c] {
            seen[r - 1][c] = true;
            stack.push((r - 1, c));
        }
    }
    count
}

/// The number of absent walls between two cells of the grid.
fn passages(right: &Vec<Vec<bool>>, down: &Vec<Vec<bool>>) -> usize {
    let rows = right.len();
    let cols = right[0].len();
    let mut count = 0;
    for r in 0..rows {
        for c in 0..cols {
            if c + 1 < cols && !right[r][c] {
                count += 1;
            }
            if r + 1 < rows && !down[r][c] {
                count += 1;
            }
        }
    }
    count
}

fn assert_perfect(rows: usize, cols: usize) {
    let (right, down) = generate_maze(rows, cols);
    assert_eq!(right.len(), rows);
    assert_eq!(down.len(), rows);
    for r in 0..rows {
        assert_eq!(right[r].len(), cols);
        assert_eq!(down[r].len(), cols);
        assert!(right[r][cols - 1]);
    }
    for c in 0..cols {
        assert!(down[rows - 1][c]);
    }
    assert_eq!(passages(&right, &down), rows * cols - 1);
    assert_eq!(reachable_cells(&right, &down), rows * cols);
}

/// What the raster holds at (y, x), from the flags next to it.
fn expected_raster_cell(right: &Vec<Vec<bool>>, down: &Vec<Vec<bool>>, y: usize, x: usize) -> bool {
    let r = y / 2;
    let c = x / 2;
    match (y % 2, x % 2) {
        (0, 0) => false,
        (0, _) => right[r][c],
        (_, 0) => down[r][c],
        _ => {
            right[r][c]
                || down[r][c]
                || (r + 1 < right.len() && right[r + 1][c])
                || (c + 1 < down[r].len() && down[r][c + 1])
        }
    }
}

#[test]
fn matrix_to_vector_lays_rows_end_to_end() {
    let m = vec![vec![1, 2, 3], vec![], vec![4], vec![5, 6]];
    assert_eq!(matrix_to_vector(m), vec![1, 2, 3, 4, 5, 6]);
}

#[test]
fn matrix_to_vector_of_nothing_is_empty() {
    let m: Vec<Vec<u8>> = Vec::new();
    assert_eq!(matrix_to_vector(m), Vec::<u8>::new());
    let rows: Vec<Vec<u8>> = vec![vec![], vec![]];
    assert_eq!(matrix_to_vector(rows), Vec::<u8>::new());
}

#[test]
fn matrix_to_vector_moves_values_that_cannot_be_copied() {
    let m = vec![vec![String::from("a")], vec![String::from("b"), String::from("c")]];
    assert_eq!(matrix_to_vector(m), vec!["a", "b", "c"]);
}

#[test]
fn single_cell_maze_is_one_open_cell() {
    let (right, down) = generate_maze(1, 1);
    assert_eq!(right, vec![vec![true]]);
    assert_eq!(down, vec![vec![true]]);
    let thick = thin_to_thick_maze(&right, &down);
    assert_eq!(thick, vec![vec![false, true], vec![true, true]]);
}

#[test]
fn single_row_maze_is_a_corridor() {
    let (right, down) = generate_maze(1, 6);
    assert_eq!(right, vec![vec![false, false, false, false, false, true]]);
    assert_eq!(down, vec![vec![true; 6]]);
}

#[test]
fn single_column_maze_is_a_corridor() {
    let (right, down) = generate_maze(5, 1);
    assert_eq!(right, vec![vec![true]; 5]);
    assert_eq!(down, vec![vec![false], vec![false], vec![false], vec![false], vec![true]]);
}

#[test]
fn generated_mazes_are_spanning_trees() {
    for _ in 0..50 {
        assert_perfect(4, 4);
        assert_perfect(8, 8);
        assert_perfect(2, 2);
        assert_perfect(3, 7);
        assert_perfect(7, 3);
        assert_perfect(2, 9);
    }
    assert_perfect(40, 25);
}

#[test]
fn generated_mazes_differ() {
    let first = generate_maze(8, 8);
    let mut differs = false;
    for _ in 0..64 {
        if generate_maze(8, 8) != first {
            differs = true;
        }
    }
    assert!(differs);
}

#[test]
fn raster_of_a_fixed_maze() {
    // Two rows of three cells:
    //   a | b   c
    //   -       -
    //   d   e   f
    let right = vec![vec![true, false, true], vec![false, false, true]];
    let down = vec![vec![true, false, true], vec![true, true, true]];
    let thick = thin_to_thick_maze(&right, &down);
    let w = true;
    let o = false;
    assert_eq!(
        thick,
        vec![
            vec![o, w, o, o, o, w],
            vec![w, w, o, w, w, w],
            vec![o, o, o, o, o, w],
            vec![w, w, w, w, w, w],
        ]
    );
}

#[test]
fn raster_without_walls_is_all_space() {
    let right = vec![vec![false; 3]; 2];
    let down = vec![vec![false; 3]; 2];
    assert_eq!(thin_to_thick_maze(&right, &down), vec![vec![false; 6]; 4]);
}

#[test]
fn raster_of_a_single_wall_flag() {
    let mut right = vec![vec![false; 3]; 3];
    let mut down = vec![vec![false; 3]; 3];
    right[1][1] = true;
    let thick = thin_to_thick_maze(&right, &down);
    for y in 0..6 {
        for x in 0..6 {
            let painted = x == 3 && (y == 1 || y == 2 || y == 3);
            assert_eq!(thick[y][x], painted);
        }
    }
    right[1][1] = false;
    down[1][1] = true;
    let thick = thin_to_thick_maze(&right, &down);
    for y in 0..6 {
        for x in 0..6 {
            let painted = y == 3 && (x == 1 || x == 2 || x == 3);
            assert_eq!(thick[y][x], painted);
        }
    }
}

#[test]
fn raster_with_no_columns_has_empty_rows() {
    let right: Vec<Vec<bool>> = vec![vec![], vec![]];
    let down: Vec<Vec<bool>> = vec![vec![], vec![]];
    let empty: Vec<bool> = Vec::new();
    assert_eq!(thin_to_thick_maze(&right, &down), vec![empty; 4]);
}

#[test]
fn raster_doubles_every_generated_maze() {
    for _ in 0..20 {
        let (right, down) = generate_maze(5, 6);
        let thick = thin_to_thick_maze(&right, &down);
        assert_eq!(thick.len(), 10);
        for y in 0..10 {
            assert_eq!(thick[y].len(), 12);
            for x in 0..12 {
                assert_eq!(thick[y][x], expected_raster_cell(&right, &down, y, x));
            }
        }
    }
}

#[test]
fn raster_of_a_four_by_four_maze_is_one_open_region() {
    for _ in 0..50 {
        let (right, down) = generate_maze(4, 4);
        let thick = thin_to_thick_maze(&right, &down);
        assert_eq!(thick.len(), 8);
        let mut border_open = false;
        let mut open = 0;
        for y in 0..8 {
            assert_eq!(thick[y].len(), 8);
            for x in 0..8 {
                if !thick[y][x] {
                    open += 1;
                    if y == 0 || x == 0 || y == 7 || x == 7 {
                        border_open = true;
                    }
                }
            }
        }
        assert!(border_open);
        // sixteen cells and the fifteen passages between them
        assert_eq!(open, 31);
        let mut seen = vec![vec![false; 8]; 8];
        let mut stack = vec![(0usize, 0usize)];
        seen[0][0] = true;
        let mut reached = 0;
        while let Some((y, x)) = stack.pop() {
            reached += 1;
            let mut next = Vec::new();
            if y > 0 {
                next.push((y - 1, x));
            }
            if x > 0 {
                next.push((y, x - 1));
            }
            if y < 7 {
                next.push((y + 1, x));
            }
            if x < 7 {
                next.push((y, x + 1));
            }
            for (ny, nx) in next {
                if !thick[ny][nx] && !seen[ny][nx] {
                    seen[ny][nx] = true;
                    stack.push((ny, nx));
                }
            }
        }
        assert_eq!(reached, open);
    }
}
