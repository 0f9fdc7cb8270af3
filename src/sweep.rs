use vstd::prelude::*;
use vstd::arithmetic::div_mod::{lemma_fundamental_div_mod, lemma_fundamental_div_mod_converse};

use crate::grid::{Tile, Tiles};

verus! {

/// An inclusive rectangle of cells, `[min_x, max_x] × [min_y, max_y]`: the
/// cells that the bounding box of a swept circle touches.
#[derive(Clone, Copy, PartialEq, Eq, Structural, Debug)]
pub struct CellRange {
    pub min_x: i32,
    pub max_x: i32,
    pub min_y: i32,
    pub max_y: i32,
}

impl CellRange {
    pub open spec fn is_empty(self) -> bool {
        self.max_x < self.min_x || self.max_y < self.min_y
    }

    /// Number of columns (distinct `x`) of a non-empty range.
    pub open spec fn columns(self) -> int {
        self.max_x - self.min_x + 1
    }

    /// Number of rows (distinct `y`) of a non-empty range.
    pub open spec fn rows(self) -> int {
        self.max_y - self.min_y + 1
    }

    pub open spec fn contains_cell(self, x: int, y: int) -> bool {
        self.min_x <= x <= self.max_x && self.min_y <= y <= self.max_y
    }

    /// The cells of the range in sweep order: rows by ascending `y`, and
    /// within a row, cells by ascending `x`.
    pub open spec fn cells(self) -> Seq<(int, int)> {
        if self.is_empty() {
            Seq::empty()
        } else {
            Seq::new(
                (self.columns() * self.rows()) as nat,
                |k: int| (self.min_x + k % self.columns(), self.min_y + k / self.columns()),
            )
        }
    }
}

/// The sweep touches at least one cell outside the grid.
pub open spec fn leaves_grid(tiles: &Tiles, range: CellRange) -> bool {
    exists|x: int, y: int| range.contains_cell(x, y) && !tiles.in_bounds(x, y)
}

/// The cells of the range that stop the mover, in sweep order.
pub open spec fn blocking_cells(tiles: &Tiles, range: CellRange, flying: bool) -> Seq<(int, int)> {
    range.cells().filter(|c: (int, int)| tiles.tile_at(c.0, c.1).is_blocking(flying))
}

/// Cell coordinates as mathematical integers.
pub open spec fn cells_view(v: Seq<(i32, i32)>) -> Seq<(int, int)> {
    v.map_values(|c: (i32, i32)| (c.0 as int, c.1 as int))
}

/// Position in sweep order of cell `(x, y)` of a range.
pub(crate) proof fn lemma_cell_position(range: CellRange, x: int, y: int) -> (k: int)
    requires
        range.contains_cell(x, y),
    ensures
        k == (y - range.min_y) * range.columns() + (x - range.min_x),
        0 <= k < range.cells().len(),
        range.cells()[k] == (x, y),
{
    let (c, r) = (range.columns(), range.rows());
    let (i, j) = (x - range.min_x, y - range.min_y);
    let k = j * c + i;
    assert(0 <= k < c * r) by (nonlinear_arith)
        requires
            0 <= i < c,
            0 <= j < r,
            k == j * c + i,
    ;
    lemma_fundamental_div_mod_converse(k, c, j, i);
    k
}

/// A sweep leaves the grid exactly when its range is non-empty and reaches
/// past one of the grid's four edges.
pub proof fn lemma_leaves_grid_iff_past_edge(tiles: &Tiles, range: CellRange)
    ensures
        leaves_grid(tiles, range) <==> (!range.is_empty() && (range.min_x < 0 || range.min_y < 0
            || range.max_x >= tiles.spec_width() || range.max_y >= tiles.spec_height())),
{
    if !range.is_empty() {
        if range.min_x < 0 || range.min_y < 0 {
            assert(range.contains_cell(range.min_x as int, range.min_y as int));
        } else if range.max_x >= tiles.spec_width() || range.max_y >= tiles.spec_height() {
            assert(range.contains_cell(range.max_x as int, range.max_y as int));
        }
    }
}

/// Two predicates that agree on every element of a sequence select the
/// same subsequence.
proof fn lemma_filter_agrees(s: Seq<(int, int)>, p: spec_fn((int, int)) -> bool, q: spec_fn((int, int)) -> bool)
    requires
        forall|i: int| 0 <= i < s.len() ==> p(#[trigger] s[i]) == q(s[i]),
    ensures
        s.filter(p) == s.filter(q),
    decreases s.len(),
{
    reveal(Seq::filter);
    if s.len() > 0 {
        let t = s.drop_last();
        assert forall|i: int| 0 <= i < t.len() implies p(#[trigger] t[i]) == q(t[i]) by {
            assert(t[i] == s[i]);
        }
        lemma_filter_agrees(t, p, q);
        assert(p(s[s.len() - 1]) == q(s[s.len() - 1]));
    }
}

/// Every cell listed by `cells` lies in the range.
proof fn lemma_cells_in_range(range: CellRange)
    ensures
        forall|i: int|
            0 <= i < range.cells().len() ==> range.contains_cell(
                #[trigger] range.cells()[i].0,
                range.cells()[i].1,
            ),
{
    assert forall|i: int| 0 <= i < range.cells().len() implies range.contains_cell(
        #[trigger] range.cells()[i].0,
        range.cells()[i].1,
    ) by {
        let (c, r) = (range.columns(), range.rows());
        lemma_fundamental_div_mod(i, c);
        let (q, m) = (i / c, i % c);
        assert(0 <= q < r) by (nonlinear_arith)
            requires
                0 < c,
                0 <= m < c,
                0 <= i < c * r,
                i == c * q + m,
        ;
    }
}

/// A tile with a pit turned into `replacement`.
pub open spec fn pit_as(t: Tile, replacement: Tile) -> Tile {
    if t == Tile::Pit {
        replacement
    } else {
        t
    }
}

/// `changed` is `tiles` with every pit replaced by `replacement`.
pub open spec fn pits_replaced(tiles: &Tiles, changed: &Tiles, replacement: Tile) -> bool {
    &&& changed.spec_width() == tiles.spec_width()
    &&& changed.spec_height() == tiles.spec_height()
    &&& forall|x: int, y: int|
        tiles.in_bounds(x, y) ==> #[trigger] changed.tile_at(x, y) == pit_as(
            tiles.tile_at(x, y),
            replacement,
        )
}

proof fn lemma_pits_replaced_blocking(
    tiles: &Tiles,
    changed: &Tiles,
    replacement: Tile,
    range: CellRange,
    flying: bool,
)
    requires
        pits_replaced(tiles, changed, replacement),
        !leaves_grid(tiles, range),
        Tile::Pit.is_blocking(flying) == replacement.is_blocking(flying),
    ensures
        blocking_cells(tiles, range, flying) == blocking_cells(changed, range, flying),
{
    lemma_cells_in_range(range);
    let cells = range.cells();
    let p = |c: (int, int)| tiles.tile_at(c.0, c.1).is_blocking(flying);
    let q = |c: (int, int)| changed.tile_at(c.0, c.1).is_blocking(flying);
    assert forall|i: int| 0 <= i < cells.len() implies p(#[trigger] cells[i]) == q(cells[i]) by {
        let (x, y) = cells[i];
        assert(range.contains_cell(x, y));
        assert(tiles.in_bounds(x, y));
        assert(changed.tile_at(x, y) == pit_as(tiles.tile_at(x, y), replacement));
    }
    lemma_filter_agrees(cells, p, q);
}

/// A flying mover crosses pits as it crosses floor: a sweep inside the grid
/// meets the same obstructing cells as on the grid with every pit made floor.
pub proof fn lemma_flying_crosses_pits_as_floor(tiles: &Tiles, floored: &Tiles, range: CellRange)
    requires
        pits_replaced(tiles, floored, Tile::Floor),
        !leaves_grid(tiles, range),
    ensures
        blocking_cells(tiles, range, true) == blocking_cells(floored, range, true),
{
    lemma_pits_replaced_blocking(tiles, floored, Tile::Floor, range, true);
}

/// A walking mover is stopped by pits as by walls: a sweep inside the grid
/// meets the same obstructing cells as on the grid with every pit made wall.
pub proof fn lemma_walking_stops_at_pits_as_walls(tiles: &Tiles, walled: &Tiles, range: CellRange)
    requires
        pits_replaced(tiles, walled, Tile::Wall),
        !leaves_grid(tiles, range),
    ensures
        blocking_cells(tiles, range, false) == blocking_cells(walled, range, false),
{
    lemma_pits_replaced_blocking(tiles, walled, Tile::Wall, range, false);
}

/// A pit in the swept range obstructs a walking mover and never a flying one.
pub proof fn lemma_pit_obstructs_only_walkers(tiles: &Tiles, range: CellRange, x: int, y: int)
    requires
        range.contains_cell(x, y),
        tiles.tile_at(x, y) == Tile::Pit,
    ensures
        blocking_cells(tiles, range, false).contains((x, y)),
        !blocking_cells(tiles, range, true).contains((x, y)),
{
    broadcast use vstd::seq_lib::group_filter_ensures;

    let k = lemma_cell_position(range, x, y);
    let cells = range.cells();
    let walk = |c: (int, int)| tiles.tile_at(c.0, c.1).is_blocking(false);
    let fly = |c: (int, int)| tiles.tile_at(c.0, c.1).is_blocking(true);
    assert(walk(cells[k]));
    assert(cells.filter(walk).contains(cells[k]));
    if cells.filter(fly).contains((x, y)) {
        let j = choose|j: int| 0 <= j < cells.filter(fly).len() && cells.filter(fly)[j] == (x, y);
        assert(fly(cells.filter(fly)[j]));
    }
}

/// The cells that a sweep must clip the movement against, in sweep order, or
/// `None` where the sweep leaves the grid, which stops the mover.
pub fn obstructing_cells(tiles: &Tiles, range: CellRange, flying: bool) -> (r: Option<Vec<(i32, i32)>>)
    requires
        tiles.wf(),
    ensures
        r is None <==> leaves_grid(tiles, range),
        r matches Some(v) ==> cells_view(v@) == blocking_cells(tiles, range, flying),
{
    proof {
        lemma_leaves_grid_iff_past_edge(tiles, range);
    }
    let mut out: Vec<(i32, i32)> = Vec::new();
    if range.max_x < range.min_x || range.max_y < range.min_y {
        proof {
            reveal(Seq::filter);
            assert(cells_view(out@) =~= blocking_cells(tiles, range, flying));
        }
        return Some(out);
    }
    if range.min_x < 0 || range.min_y < 0 || range.max_x >= tiles.width() || range.max_y
        >= tiles.height() {
        return None;
    }
    let ghost cells = range.cells();
    let ghost pred = |c: (int, int)| tiles.tile_at(c.0, c.1).is_blocking(flying);
    let ghost cols = range.columns();
    let mut y: i32 = range.min_y;
    while y <= range.max_y
        invariant
            tiles.wf(),
            !range.is_empty(),
            0 <= range.min_x,
            0 <= range.min_y,
            range.max_x < tiles.spec_width(),
            range.max_y < tiles.spec_height(),
            cells == range.cells(),
            pred == (|c: (int, int)| tiles.tile_at(c.0, c.1).is_blocking(flying)),
            cols == range.columns(),
            range.min_y <= y <= range.max_y + 1,
            cells_view(out@) == cells.take((y - range.min_y) * cols).filter(pred),
        decreases range.max_y + 1 - y,
    {
        let mut x: i32 = range.min_x;
        while x <= range.max_x
            invariant
                tiles.wf(),
                !range.is_empty(),
                0 <= range.min_x,
                0 <= range.min_y,
                range.max_x < tiles.spec_width(),
                range.max_y < tiles.spec_height(),
                cells == range.cells(),
                pred == (|c: (int, int)| tiles.tile_at(c.0, c.1).is_blocking(flying)),
                cols == range.columns(),
                range.min_y <= y <= range.max_y,
                range.min_x <= x <= range.max_x + 1,
                cells_view(out@) == cells.take((y - range.min_y) * cols + (x - range.min_x)).filter(
                    pred,
                ),
            decreases range.max_x + 1 - x,
        {
            let ghost k = lemma_cell_position(range, x as int, y as int);
            let ghost before = out@;
            if tiles.index(x, y).blocks(flying) {
                out.push((x, y));
            }
            proof {
                reveal(Seq::filter);
                let next = cells.take(k + 1);
                assert(next.drop_last() == cells.take(k));
                assert(next.last() == (x as int, y as int));
                if pred((x as int, y as int)) {
                    assert(cells_view(out@) =~= cells_view(before).push((x as int, y as int)));
                } else {
                    assert(out@ == before);
                }
            }
            x = x + 1;
        }
        proof {
            assert((y - range.min_y) * cols + (x - range.min_x) == (y + 1 - range.min_y) * cols)
                by (nonlinear_arith)
                requires
                    x - range.min_x == cols,
            ;
        }
        y = y + 1;
    }
    proof {
        assert((y - range.min_y) * cols == cells.len()) by (nonlinear_arith)
            requires
                y - range.min_y == range.rows(),
                cols == range.columns(),
                cells.len() == range.columns() * range.rows(),
        ;
        assert(cells.take(cells.len() as int) == cells);
    }
    Some(out)
}

} // verus!
