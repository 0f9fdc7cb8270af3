use vstd::prelude::*;

verus! {

/// Edge length, in cells, of a standard room.
pub const ROOM_CELLS: i32 = 16;

/// Classification of one grid cell.
#[derive(Clone, Copy, PartialEq, Eq, Structural, Debug)]
pub enum Tile {
    Wall,
    Floor,
    Pit,
}

impl Tile {
    /// Walls stop every mover, pits stop only movers that do not fly, floors
    /// stop nobody.
    pub open spec fn is_blocking(self, flying: bool) -> bool {
        match self {
            Tile::Wall => true,
            Tile::Pit => !flying,
            Tile::Floor => false,
        }
    }

    pub fn blocks(self, flying: bool) -> (r: bool)
        ensures
            r == self.is_blocking(flying),
    {
        match self {
            Tile::Wall => true,
            Tile::Pit => !flying,
            Tile::Floor => false,
        }
    }

    /// The tile that a level's integer grid value stands for: 1 is floor,
    /// 2 is pit, anything else is wall.
    pub open spec fn spec_from_code(code: int) -> Tile {
        if code == 1 {
            Tile::Floor
        } else if code == 2 {
            Tile::Pit
        } else {
            Tile::Wall
        }
    }

    pub fn from_code(code: i64) -> (t: Tile)
        ensures
            t == Tile::spec_from_code(code as int),
    {
        if code == 1 {
            Tile::Floor
        } else if code == 2 {
            Tile::Pit
        } else {
            Tile::Wall
        }
    }
}

/// Position in row-major storage of cell `(x, y)`, rows stored from the top
/// (largest `y`) down.
pub open spec fn cell_offset(width: int, height: int, x: int, y: int) -> int {
    x + (height - 1 - y) * width
}

/// A rectangular grid of tiles, `width` cells wide and `height` cells high.
pub struct Tiles {
    width: i32,
    height: i32,
    grid: Vec<Tile>,
}

impl View for Tiles {
    type V = Seq<Tile>;

    /// The tiles in storage order.
    closed spec fn view(&self) -> Seq<Tile> {
        self.grid@
    }
}

impl Tiles {
    pub closed spec fn spec_width(&self) -> int {
        self.width as int
    }

    pub closed spec fn spec_height(&self) -> int {
        self.height as int
    }

    /// Both dimensions are positive and storage holds exactly one tile per cell.
    pub open spec fn wf(&self) -> bool {
        &&& 0 < self.spec_width() <= i32::MAX
        &&& 0 < self.spec_height() <= i32::MAX
        &&& self@.len() == self.spec_width() * self.spec_height()
    }

    pub open spec fn in_bounds(&self, x: int, y: int) -> bool {
        0 <= x < self.spec_width() && 0 <= y < self.spec_height()
    }

    pub open spec fn tile_at(&self, x: int, y: int) -> Tile {
        self@[cell_offset(self.spec_width(), self.spec_height(), x, y)]
    }

    /// A grid of the given size over tiles in storage order; `None` unless
    /// both sizes are positive and there is one tile per cell.
    pub fn with_size(width: i32, height: i32, grid: Vec<Tile>) -> (r: Option<Tiles>)
        ensures
            r is Some <==> (0 < width && 0 < height && grid@.len() == width * height),
            r matches Some(t) ==> {
                &&& t.wf()
                &&& t.spec_width() == width
                &&& t.spec_height() == height
                &&& t@ == grid@
            },
    {
        if width <= 0 || height <= 0 {
            return None;
        }
        let n = grid.len() as u64;
        let (w, h) = (width as u64, height as u64);
        assert(w * h < 0x1_0000_0000_0000_0000) by (nonlinear_arith)
            requires
                w < 0x8000_0000,
                h < 0x8000_0000,
        ;
        if n != w * h {
            return None;
        }
        Some(Tiles { width, height, grid })
    }

    /// A room-sized grid (16 by 16 cells).
    pub fn new(grid: Vec<Tile>) -> (r: Option<Tiles>)
        ensures
            r is Some <==> grid@.len() == ROOM_CELLS * ROOM_CELLS,
            r matches Some(t) ==> {
                &&& t.wf()
                &&& t.spec_width() == ROOM_CELLS
                &&& t.spec_height() == ROOM_CELLS
                &&& t@ == grid@
            },
    {
        Tiles::with_size(ROOM_CELLS, ROOM_CELLS, grid)
    }

    /// A grid decoded from a level's integer values, one per cell in storage
    /// order (see `Tile::from_code`).
    pub fn from_codes(width: i32, height: i32, codes: &Vec<i64>) -> (r: Option<Tiles>)
        ensures
            r is Some <==> (0 < width && 0 < height && codes@.len() == width * height),
            r matches Some(t) ==> {
                &&& t.wf()
                &&& t.spec_width() == width
                &&& t.spec_height() == height
                &&& t@ == codes@.map_values(|c: i64| Tile::spec_from_code(c as int))
            },
    {
        let mut grid: Vec<Tile> = Vec::new();
        let mut i: usize = 0;
        while i < codes.len()
            invariant
                i <= codes@.len(),
                grid@ == codes@.take(i as int).map_values(|c: i64| Tile::spec_from_code(c as int)),
            decreases codes@.len() - i,
        {
            grid.push(Tile::from_code(codes[i]));
            i = i + 1;
            assert(codes@.take(i as int).drop_last() == codes@.take(i - 1));
        }
        assert(codes@.take(codes@.len() as int) == codes@);
        Tiles::with_size(width, height, grid)
    }

    pub fn width(&self) -> (r: i32)
        ensures
            r == self.spec_width(),
    {
        self.width
    }

    pub fn height(&self) -> (r: i32)
        ensures
            r == self.spec_height(),
    {
        self.height
    }

    pub fn contains(&self, x: i32, y: i32) -> (r: bool)
        ensures
            r == self.in_bounds(x as int, y as int),
    {
        0 <= x && x < self.width && 0 <= y && y < self.height
    }

    /// The tile of an in-bounds cell.
    pub fn index(&self, x: i32, y: i32) -> (t: Tile)
        requires
            self.wf(),
            self.in_bounds(x as int, y as int),
        ensures
            t == self.tile_at(x as int, y as int),
    {
        let w = self.width as usize;
        let h = self.height as usize;
        let row = (self.height - 1 - y) as usize;
        let n = self.grid.len();
        proof {
            let (wi, hi, ri, xi) = (w as int, h as int, row as int, x as int);
            assert(0 <= ri * wi && xi + ri * wi < wi * hi) by (nonlinear_arith)
                requires
                    0 <= xi < wi,
                    0 <= ri < hi,
            ;
        }
        self.grid[x as usize + row * w]
    }

    /// The tile of cell `(x, y)`, or `None` where the cell lies outside the grid.
    pub fn get(&self, x: i32, y: i32) -> (r: Option<Tile>)
        requires
            self.wf(),
        ensures
            r is Some <==> self.in_bounds(x as int, y as int),
            r matches Some(t) ==> t == self.tile_at(x as int, y as int),
    {
        if self.contains(x, y) {
            Some(self.index(x, y))
        } else {
            None
        }
    }
}

} // verus!
