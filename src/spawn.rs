use vstd::prelude::*;

use crate::grid::{Tile, Tiles};
use crate::sweep::{cells_view, lemma_cell_position, CellRange};

verus! {

/// Cell `(x, y)` can take a newly spawned enemy: it is floor, and unless it
/// is in one of the two lowest rows, neither of the two cells below it is a
/// wall, which would hide the enemy from view.
pub open spec fn is_spawn_cell(tiles: &Tiles, x: int, y: int) -> bool {
    &&& tiles.tile_at(x, y) == Tile::Floor
    &&& (y < 2 || (tiles.tile_at(x, y - 1) != Tile::Wall && tiles.tile_at(x, y - 2) != Tile::Wall))
}

/// The range of every cell of the grid.
pub open spec fn whole_grid(tiles: &Tiles) -> CellRange {
    CellRange {
        min_x: 0,
        max_x: (tiles.spec_width() - 1) as i32,
        min_y: 0,
        max_y: (tiles.spec_height() - 1) as i32,
    }
}

/// The spawn cells of the grid, in sweep order.
pub open spec fn spec_spawn_cells(tiles: &Tiles) -> Seq<(int, int)> {
    whole_grid(tiles).cells().filter(|c: (int, int)| is_spawn_cell(tiles, c.0, c.1))
}

/// Every cell of the grid that can take a newly spawned enemy, in sweep order.
pub fn spawn_cells(tiles: &Tiles) -> (r: Vec<(i32, i32)>)
    requires
        tiles.wf(),
    ensures
        cells_view(r@) == spec_spawn_cells(tiles),
{
    let w = tiles.width();
    let h = tiles.height();
    let ghost range = whole_grid(tiles);
    let ghost cells = range.cells();
    let ghost pred = |c: (int, int)| is_spawn_cell(tiles, c.0, c.1);
    let mut out: Vec<(i32, i32)> = Vec::new();
    let mut y: i32 = 0;
    while y < h
        invariant
            tiles.wf(),
            w == tiles.spec_width(),
            h == tiles.spec_height(),
            range == whole_grid(tiles),
            cells == range.cells(),
            pred == (|c: (int, int)| is_spawn_cell(tiles, c.0, c.1)),
            0 <= y <= h,
            cells_view(out@) == cells.take(y * w).filter(pred),
        decreases h - y,
    {
        let mut x: i32 = 0;
        while x < w
            invariant
                tiles.wf(),
                w == tiles.spec_width(),
                h == tiles.spec_height(),
                range == whole_grid(tiles),
                cells == range.cells(),
                pred == (|c: (int, int)| is_spawn_cell(tiles, c.0, c.1)),
                0 <= y < h,
                0 <= x <= w,
                cells_view(out@) == cells.take(y * w + x).filter(pred),
            decreases w - x,
        {
            let ghost k = lemma_cell_position(range, x as int, y as int);
            let ghost before = out@;
            let here = tiles.index(x, y) == Tile::Floor;
            let open = y < 2 || (tiles.index(x, y - 1) != Tile::Wall && tiles.index(x, y - 2)
                != Tile::Wall);
            if here && open {
                out.push((x, y));
            }
            proof {
                reveal(Seq::filter);
                let next = cells.take(k + 1);
                assert(next.drop_last() == cells.take(k));
                assert(next.last() == (x as int, y as int));
                if pred((x as int, y as int)) {
                    assert(cells_view(out@) =~= cells_view(before).push((x as int, y as int)));
                } else {
                    assert(out@ == before);
                }
            }
            x = x + 1;
        }
        proof {
            assert(y * w + x == (y + 1) * w) by (nonlinear_arith)
                requires
                    x == w,
            ;
        }
        y = y + 1;
    }
    proof {
        assert(y * w == cells.len()) by (nonlinear_arith)
            requires
                y == h,
                cells.len() == w * h,
        ;
        assert(cells.take(cells.len() as int) == cells);
    }
    out
}

} // verus!
