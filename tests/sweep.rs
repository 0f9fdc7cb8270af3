use tile_collision::{obstructing_cells, CellRange, Tile, Tiles};

fn room_with(cells: &[(i32, i32, Tile)]) -> Tiles {
    let mut grid = vec![Tile::Floor; 256];
    for &(x, y, t) in cells {
        grid[(x + (15 - y) * 16) as usize] = t;
    }
    Tiles::new(grid).unwrap()
}

fn range(min_x: i32, max_x: i32, min_y: i32, max_y: i32) -> CellRange {
    CellRange { min_x, max_x, min_y, max_y }
}

/// The cell rectangle that a circle's sweep touches, with half a cell of margin.
fn swept_range(pos: (f32, f32), radius: f32, movement: (f32, f32), cell_size: f32) -> CellRange {
    let end = (pos.0 + movement.0, pos.1 + movement.1);
    let lo = |a: f32, b: f32| ((a.min(b) - radius) / cell_size - 0.5).round() as i32;
    let hi = |a: f32, b: f32| ((a.max(b) + radius) / cell_size + 0.5).round() as i32;
    range(lo(pos.0, end.0), hi(pos.0, end.0), lo(pos.1, end.1), hi(pos.1, end.1))
}

#[test]
fn cells_come_row_by_row() {
    let t = room_with(&[(6, 3, Tile::Wall), (4, 5, Tile::Wall), (5, 4, Tile::Pit), (3, 4, Tile::Wall)]);
    let cells = obstructing_cells(&t, range(3, 7, 3, 5), false).unwrap();
    assert_eq!(cells, vec![(6, 3), (3, 4), (5, 4), (4, 5)]);
}

#[test]
fn floor_only_range_has_no_obstacles() {
    let t = room_with(&[(9, 9, Tile::Wall)]);
    assert_eq!(obstructing_cells(&t, range(0, 8, 0, 15), false), Some(Vec::new()));
}

#[test]
fn cells_outside_the_range_are_ignored() {
    let t = room_with(&[(2, 4, Tile::Wall), (8, 4, Tile::Wall)]);
    assert_eq!(obstructing_cells(&t, range(3, 7, 4, 4), false), Some(Vec::new()));
}

#[test]
fn leaving_the_room_stops_the_sweep() {
    let t = room_with(&[]);
    assert_eq!(obstructing_cells(&t, range(-1, 2, 3, 4), false), None);
    assert_eq!(obstructing_cells(&t, range(2, 3, -1, 4), true), None);
    assert_eq!(obstructing_cells(&t, range(14, 16, 3, 4), true), None);
    assert_eq!(obstructing_cells(&t, range(2, 3, 14, 16), false), None);
    assert_eq!(obstructing_cells(&t, range(-5, 20, -5, 20), false), None);
}

#[test]
fn leaving_the_room_stops_even_beside_walls() {
    let t = room_with(&[(0, 0, Tile::Wall), (1, 0, Tile::Wall)]);
    assert_eq!(obstructing_cells(&t, range(-1, 1, 0, 0), false), None);
}

#[test]
fn full_room_range_stays_inside() {
    let t = room_with(&[(0, 0, Tile::Wall), (15, 15, Tile::Pit)]);
    assert_eq!(obstructing_cells(&t, range(0, 15, 0, 15), false), Some(vec![(0, 0), (15, 15)]));
    assert_eq!(obstructing_cells(&t, range(0, 15, 0, 15), true), Some(vec![(0, 0)]));
}

#[test]
fn empty_range_meets_nothing() {
    let t = room_with(&[(5, 5, Tile::Wall)]);
    assert_eq!(obstructing_cells(&t, range(6, 5, 5, 5), false), Some(Vec::new()));
    assert_eq!(obstructing_cells(&t, range(-3, -4, 0, 0), false), Some(Vec::new()));
}

#[test]
fn pit_stops_walkers_but_not_fliers() {
    let t = room_with(&[(5, 5, Tile::Pit)]);
    let r = range(4, 6, 4, 6);
    assert_eq!(obstructing_cells(&t, r, false), Some(vec![(5, 5)]));
    assert_eq!(obstructing_cells(&t, r, true), Some(Vec::new()));
}

#[test]
fn wall_stops_walkers_and_fliers() {
    let t = room_with(&[(5, 5, Tile::Wall)]);
    let r = range(4, 6, 4, 6);
    assert_eq!(obstructing_cells(&t, r, false), Some(vec![(5, 5)]));
    assert_eq!(obstructing_cells(&t, r, true), Some(vec![(5, 5)]));
}

#[test]
fn sweep_toward_lone_wall_meets_it() {
    let t = room_with(&[(5, 5, Tile::Wall)]);
    let r = swept_range((48.0, 48.0), 1.0, (24.0, 0.0), 12.0);
    assert_eq!(r, range(3, 7, 3, 5));
    assert_eq!(obstructing_cells(&t, r, false), Some(vec![(5, 5)]));
}

#[test]
fn resting_mover_scans_its_own_neighbourhood() {
    let t = room_with(&[(4, 4, Tile::Wall), (7, 7, Tile::Wall)]);
    let r = swept_range((54.0, 54.0), 4.0, (0.0, 0.0), 12.0);
    assert_eq!(r, range(4, 5, 4, 5));
    assert_eq!(obstructing_cells(&t, r, false), Some(vec![(4, 4)]));
}

#[test]
fn fast_sweep_past_the_edge_is_stopped() {
    let t = room_with(&[]);
    let r = swept_range((180.0, 96.0), 4.0, (40.0, 0.0), 12.0);
    assert!(r.max_x >= 16);
    assert_eq!(obstructing_cells(&t, r, true), None);
}
