use tile_collision::{Tile, Tiles};

fn room_with(cells: &[(i32, i32, Tile)]) -> Tiles {
    let mut grid = vec![Tile::Floor; 256];
    for &(x, y, t) in cells {
        grid[(x + (15 - y) * 16) as usize] = t;
    }
    Tiles::new(grid).unwrap()
}

#[test]
fn walls_block_every_mover() {
    assert!(Tile::Wall.blocks(false));
    assert!(Tile::Wall.blocks(true));
}

#[test]
fn pits_block_only_walkers() {
    assert!(Tile::Pit.blocks(false));
    assert!(!Tile::Pit.blocks(true));
}

#[test]
fn floors_block_nobody() {
    assert!(!Tile::Floor.blocks(false));
    assert!(!Tile::Floor.blocks(true));
}

#[test]
fn level_codes_decode_to_tiles() {
    assert_eq!(Tile::from_code(1), Tile::Floor);
    assert_eq!(Tile::from_code(2), Tile::Pit);
    assert_eq!(Tile::from_code(0), Tile::Wall);
    assert_eq!(Tile::from_code(3), Tile::Wall);
    assert_eq!(Tile::from_code(-1), Tile::Wall);
}

#[test]
fn room_needs_one_tile_per_cell() {
    assert!(Tiles::new(vec![Tile::Floor; 255]).is_none());
    assert!(Tiles::new(vec![Tile::Floor; 257]).is_none());
    assert!(Tiles::new(Vec::new()).is_none());
    let t = Tiles::new(vec![Tile::Floor; 256]).unwrap();
    assert_eq!((t.width(), t.height()), (16, 16));
}

#[test]
fn sized_grid_rejects_bad_dimensions() {
    assert!(Tiles::with_size(0, 4, Vec::new()).is_none());
    assert!(Tiles::with_size(4, 0, Vec::new()).is_none());
    assert!(Tiles::with_size(-2, -3, vec![Tile::Floor; 6]).is_none());
    assert!(Tiles::with_size(3, 2, vec![Tile::Floor; 5]).is_none());
    assert!(Tiles::with_size(3, 2, vec![Tile::Floor; 6]).is_some());
}

#[test]
fn storage_rows_run_from_the_top() {
    let mut grid = vec![Tile::Floor; 256];
    grid[0] = Tile::Wall;
    grid[255] = Tile::Pit;
    let t = Tiles::new(grid).unwrap();
    assert_eq!(t.index(0, 15), Tile::Wall);
    assert_eq!(t.index(15, 0), Tile::Pit);
    assert_eq!(t.index(0, 0), Tile::Floor);
    assert_eq!(t.index(15, 15), Tile::Floor);
}

#[test]
fn non_square_grid_indexes_by_width() {
    let grid = vec![
        Tile::Floor,
        Tile::Floor,
        Tile::Wall,
        Tile::Pit,
        Tile::Floor,
        Tile::Floor,
    ];
    let t = Tiles::with_size(3, 2, grid).unwrap();
    assert_eq!(t.index(2, 1), Tile::Wall);
    assert_eq!(t.index(0, 0), Tile::Pit);
    assert_eq!(t.get(3, 0), None);
    assert_eq!(t.get(0, 2), None);
}

#[test]
fn lookup_outside_the_room_is_none() {
    let t = room_with(&[(5, 5, Tile::Wall)]);
    assert_eq!(t.get(5, 5), Some(Tile::Wall));
    assert_eq!(t.get(4, 5), Some(Tile::Floor));
    assert_eq!(t.get(-1, 0), None);
    assert_eq!(t.get(0, -1), None);
    assert_eq!(t.get(16, 0), None);
    assert_eq!(t.get(0, 16), None);
    assert!(t.contains(15, 15));
    assert!(!t.contains(16, 15));
}

#[test]
fn codes_build_a_room() {
    let mut codes = vec![1i64; 256];
    codes[0] = 0;
    codes[17] = 2;
    let t = Tiles::from_codes(16, 16, &codes).unwrap();
    assert_eq!(t.index(0, 15), Tile::Wall);
    assert_eq!(t.index(1, 14), Tile::Pit);
    assert_eq!(t.index(2, 14), Tile::Floor);
    assert!(Tiles::from_codes(16, 16, &vec![1i64; 200]).is_none());
    assert!(Tiles::from_codes(0, 16, &Vec::new()).is_none());
}
