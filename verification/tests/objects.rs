use ascii_maze::objects::{MapObject, TileMap};

fn snapshot(map: &TileMap, x0: i32, y0: i32, side: i32) -> Vec<Option<MapObject>> {
    let mut cells = Vec::new();
    for y in y0..y0 + side {
        for x in x0..x0 + side {
            cells.push(map.get(x, y).copied());
        }
    }
    cells
}

/// Checks that the window shows exactly the 48 by 48 cells from (x0, y0) on.
fn assert_window(map: &TileMap, x0: i32, y0: i32) {
    for y in y0 - 20..y0 + 68 {
        for x in x0 - 20..x0 + 68 {
            let inside = x0 <= x && x < x0 + 48 && y0 <= y && y < y0 + 48;
            assert_eq!(map.get(x, y).is_some(), inside);
            let tile = map.get_tile_pos_xy(x, y);
            assert_eq!(tile.0, ((x - x0) as i64).div_euclid(16));
            assert_eq!(tile.1, ((y - y0) as i64).div_euclid(16));
        }
    }
}

/// Checks that every tile of the window has walls in its last row and column and an open
/// first cell.
fn assert_tiles_walled(map: &TileMap, x0: i32, y0: i32) {
    for ty in 0..3 {
        for tx in 0..3 {
            let left = x0 + 16 * tx;
            let top = y0 + 16 * ty;
            assert_eq!(map.get(left, top), Some(&MapObject::Space));
            for k in 0..16 {
                assert_eq!(map.get(left + 15, top + k), Some(&MapObject::Wall));
                assert_eq!(map.get(left + k, top + 15), Some(&MapObject::Wall));
            }
        }
    }
}

#[test]
fn new_window_is_centred_on_the_origin_tile() {
    let map = TileMap::new();
    assert_eq!(map.get_tile_pos_xy(0, 0), (1, 1));
    assert_eq!(map.get_tile_pos_xy(15, 15), (1, 1));
    assert_eq!(map.get_tile_pos_xy(-16, -16), (0, 0));
    assert_eq!(map.get_tile_pos_xy(-1, 0), (0, 1));
    assert_eq!(map.get_tile_pos_xy(-17, 0), (-1, 1));
    assert_eq!(map.get_tile_pos_xy(31, 31), (2, 2));
    assert_eq!(map.get_tile_pos_xy(32, 0), (3, 1));
    assert_eq!(map.get_tile_pos_xy(0, -33), (1, -2));
    assert_window(&map, -16, -16);
    assert_tiles_walled(&map, -16, -16);
}

#[test]
fn tile_positions_at_the_ends_of_the_coordinate_range() {
    let map = TileMap::new();
    assert_eq!(map.get_tile_pos_xy(i32::MAX, i32::MIN), (134217728, -134217727));
    assert_eq!(map.get(i32::MAX, i32::MIN), None);
    assert_eq!(map.get(i32::MIN, i32::MAX), None);
}

#[test]
fn cells_outside_the_window_are_unknown_and_passable() {
    let map = TileMap::new();
    assert_eq!(map.get(32, 0), None);
    assert_eq!(map.get(0, 32), None);
    assert_eq!(map.get(-17, 0), None);
    assert_eq!(map.get(0, -17), None);
    assert!(map.is_passable(32, 0));
    assert!(map.is_passable(-17, -17));
    assert!(map.is_passable(1000, 1000));
}

#[test]
fn walls_block_and_open_cells_do_not() {
    let map = TileMap::new();
    assert!(map.is_passable(0, 0));
    assert!(!map.is_passable(15, 0));
    assert!(!map.is_passable(-1, 0));
    assert!(!map.is_passable(0, -1));
    for y in -16..32 {
        for x in -16..32 {
            let wall = map.get(x, y) == Some(&MapObject::Wall);
            assert_eq!(map.is_passable(x, y), !wall);
        }
    }
}

#[test]
fn every_tile_holds_a_perfect_maze() {
    let map = TileMap::new();
    for ty in 0..3 {
        for tx in 0..3 {
            let left = -16 + 16 * tx;
            let top = -16 + 16 * ty;
            let mut open = 0;
            for y in 0..16 {
                for x in 0..16 {
                    if map.get(left + x, top + y) == Some(&MapObject::Space) {
                        open += 1;
                    }
                }
            }
            // sixty-four cells and the sixty-three passages between them
            assert_eq!(open, 127);
        }
    }
}

#[test]
fn recentring_in_the_middle_tile_changes_nothing() {
    let mut map = TileMap::new();
    let before = snapshot(&map, -16, -16, 48);
    map.update_main_tile(7, 9);
    assert_eq!(snapshot(&map, -16, -16, 48), before);
    assert_window(&map, -16, -16);
}

#[test]
fn recentring_one_tile_to_the_right_keeps_the_shared_tiles() {
    let mut map = TileMap::new();
    let mut kept = Vec::new();
    for y in -16..32 {
        for x in 0..32 {
            kept.push(map.get(x, y).copied());
        }
    }
    map.update_main_tile(20, 3);
    assert_eq!(map.get_tile_pos_xy(20, 3), (1, 1));
    assert_window(&map, 0, -16);
    assert_tiles_walled(&map, 0, -16);
    let mut after = Vec::new();
    for y in -16..32 {
        for x in 0..32 {
            after.push(map.get(x, y).copied());
        }
    }
    assert_eq!(after, kept);
}

#[test]
fn recentring_up_and_to_the_left_keeps_the_shared_tiles() {
    let mut map = TileMap::new();
    let kept = snapshot(&map, -16, -16, 32);
    map.update_main_tile(-1, -16);
    assert_eq!(map.get_tile_pos_xy(-1, -16), (1, 1));
    assert_window(&map, -32, -32);
    assert_eq!(snapshot(&map, -16, -16, 32), kept);
    assert_tiles_walled(&map, -32, -32);
}

#[test]
fn recentring_far_away_fills_the_window_afresh() {
    let mut map = TileMap::new();
    map.update_main_tile(1000, -1000);
    assert_eq!(map.get_tile_pos_xy(1000, -1000), (1, 1));
    // 1000 lies in the tile that starts at 992, -1000 in the one that starts at -1008
    assert_window(&map, 976, -1024);
    assert_tiles_walled(&map, 976, -1024);
}

#[test]
fn recentring_many_times_keeps_nine_tiles() {
    let mut map = TileMap::new();
    let mut x = 0;
    let mut y = 0;
    for step in 0..40 {
        x += if step % 3 == 0 { 11 } else { -5 };
        y += if step % 2 == 0 { 9 } else { -13 };
        map.update_main_tile(x, y);
        assert_eq!(map.get_tile_pos_xy(x, y), (1, 1));
        let x0 = x.div_euclid(16) * 16 - 16;
        let y0 = y.div_euclid(16) * 16 - 16;
        assert_window(&map, x0, y0);
        assert_tiles_walled(&map, x0, y0);
    }
}

#[test]
fn recentring_at_the_ends_of_the_coordinate_range() {
    let mut map = TileMap::new();
    map.update_main_tile(i32::MAX, i32::MIN);
    assert_eq!(map.get_tile_pos_xy(i32::MAX, i32::MIN), (1, 1));
    assert!(map.get(i32::MAX, i32::MIN).is_some());
    assert_eq!(map.get(i32::MAX, i32::MIN + 32), None);
    map.update_main_tile(i32::MIN, i32::MAX);
    assert_eq!(map.get_tile_pos_xy(i32::MIN, i32::MAX), (1, 1));
    assert!(map.get(i32::MIN, i32::MAX).is_some());
    assert_eq!(map.get(i32::MAX, i32::MIN), None);
}

#[test]
fn a_ray_stops_at_the_first_wall() {
    let map = TileMap::new();
    // From the open first cell of the middle tile to the left: the last column of the
    // neighbouring tile is a wall, one cell away.
    assert_eq!(map.first_wall(&vec![(0, 0), (-1, 0), (-2, 0)]), Some(1));
    assert_eq!(map.first_wall(&vec![(0, 0), (0, 0), (0, -1), (0, -1)]), Some(2));
    assert_eq!(map.first_wall(&vec![(-1, 0)]), Some(0));
    assert_eq!(map.first_wall(&vec![(0, 0)]), None);
    assert_eq!(map.first_wall(&Vec::new()), None);
}

#[test]
fn a_ray_passes_through_what_the_window_does_not_show() {
    let map = TileMap::new();
    let mut cells = Vec::new();
    for k in 0..200 {
        cells.push((32 + k, 0));
    }
    assert_eq!(map.first_wall(&cells), None);
    // unknown cells first, then the wall at the right edge of the window
    let mut back = Vec::new();
    for k in 0..10 {
        back.push((40 - k, 0));
    }
    assert_eq!(map.first_wall(&back), Some(9));
}

#[test]
fn a_ray_agrees_with_cell_by_cell_queries() {
    let map = TileMap::new();
    for y in -16..32 {
        let mut cells = Vec::new();
        for x in -20..40 {
            cells.push((x, y));
        }
        let mut expected = None;
        for (k, cell) in cells.iter().enumerate() {
            if map.get(cell.0, cell.1) == Some(&MapObject::Wall) {
                expected = Some(k);
                break;
            }
        }
        assert_eq!(map.first_wall(&cells), expected);
    }
}

/// The cells of the samples that a ray takes: the first a fifth of a cell in front of the
/// viewer, then one every twentieth of a cell up to the distance of view.
fn ray_cells(from: (f64, f64), dir: (f64, f64), reach: f64) -> Vec<(i32, i32)> {
    let mut cells = Vec::new();
    let mut dist = 0.;
    let mut at = (from.0 + dir.0 * 0.2, from.1 + dir.1 * 0.2);
    while dist < reach {
        cells.push((at.0.floor() as i32, at.1.floor() as i32));
        dist += 0.05;
        at = (at.0 + dir.0 * 0.05, at.1 + dir.1 * 0.05);
    }
    cells
}

#[test]
fn a_ray_towards_a_wall_one_cell_ahead_hits_it_within_a_step() {
    let map = TileMap::new();
    // The viewer looks left from the open first cell of the middle tile; the wall starts at
    // x = 0, which is 0.95 away.
    let cells = ray_cells((0.95, 0.5), (-1., 0.), 10.);
    assert_eq!(cells.len(), 200);
    let hit = map.first_wall(&cells).expect("the wall is within reach");
    let dist = 0.2 + 0.05 * hit as f64;
    assert!((dist - 0.95).abs() <= 0.05 + 1e-9);
    assert_eq!(cells[hit], (-1, 0));
    // Looking up from the same place the wall starts at y = 0, half a cell away.
    let up = ray_cells((0.95, 0.5), (0., -1.), 10.);
    let hit = map.first_wall(&up).expect("the wall is within reach");
    assert!((0.2 + 0.05 * hit as f64 - 0.5).abs() <= 0.05 + 1e-9);
}

#[test]
fn a_ray_over_open_ground_hits_nothing() {
    let map = TileMap::new();
    // nothing is known of the world beyond the window, so nothing stops a ray there
    assert_eq!(map.first_wall(&ray_cells((100.5, 0.5), (1., 0.), 10.)), None);
    assert_eq!(map.first_wall(&ray_cells((0.5, -40.5), (0.6, -0.8), 10.)), None);
    // a ray too short to reach the wall
    assert_eq!(map.first_wall(&ray_cells((0.95, 0.5), (-1., 0.), 0.5)), None);
}

#[test]
fn a_step_into_a_wall_is_refused_and_a_step_on_open_ground_is_not() {
    let map = TileMap::new();
    let pos: (f64, f64) = (0.5, 0.5);
    // a step of 0.6 to the left ends in the wall at x < 0
    let left = (pos.0 - 0.6, pos.1);
    assert!(!map.is_passable(left.0.floor() as i32, left.1.floor() as i32));
    // a step of 0.6 upwards ends in the wall at y < 0
    let up = (pos.0, pos.1 - 0.6);
    assert!(!map.is_passable(up.0.floor() as i32, up.1.floor() as i32));
    // a step of 0.3 in any of the four directions stays in the open cell
    for dir in [(1., 0.), (-1., 0.), (0., 1.), (0., -1.)] {
        let next = (pos.0 + 0.3 * dir.0, pos.1 + 0.3 * dir.1);
        assert!(map.is_passable(next.0.floor() as i32, next.1.floor() as i32));
    }
}
