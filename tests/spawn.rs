use tile_collision::{spawn_cells, Tile, Tiles};

#[test]
fn open_floor_is_all_spawnable() {
    let t = Tiles::with_size(2, 3, vec![Tile::Floor; 6]).unwrap();
    assert_eq!(spawn_cells(&t), vec![(0, 0), (1, 0), (0, 1), (1, 1), (0, 2), (1, 2)]);
}

#[test]
fn walls_and_pits_are_not_spawn_cells() {
    // rows from the top: y = 1, then y = 0
    let t = Tiles::with_size(3, 2, vec![
        Tile::Wall, Tile::Pit, Tile::Floor,
        Tile::Floor, Tile::Wall, Tile::Pit,
    ])
    .unwrap();
    assert_eq!(spawn_cells(&t), vec![(0, 0), (2, 1)]);
}

#[test]
fn floor_just_above_a_wall_is_hidden() {
    // one column, y = 4 at the top down to y = 0
    let t = Tiles::with_size(1, 5, vec![
        Tile::Floor, Tile::Floor, Tile::Floor, Tile::Wall, Tile::Floor,
    ])
    .unwrap();
    assert_eq!(spawn_cells(&t), vec![(0, 0), (0, 4)]);
}

#[test]
fn pits_below_do_not_hide_floor() {
    let t = Tiles::with_size(1, 4, vec![Tile::Floor, Tile::Pit, Tile::Pit, Tile::Floor]).unwrap();
    assert_eq!(spawn_cells(&t), vec![(0, 0), (0, 3)]);
}

#[test]
fn lowest_rows_ignore_what_is_below() {
    let t = Tiles::with_size(1, 3, vec![Tile::Floor, Tile::Floor, Tile::Wall]).unwrap();
    assert_eq!(spawn_cells(&t), vec![(0, 1)]);
}
