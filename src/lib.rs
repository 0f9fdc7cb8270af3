//! Tile grid, swept-collision planning for circular movers, and the order in
//! which a run visits its rooms.
//!
//! The grid classifies each integer cell as wall, floor or pit. A sweep over
//! a rectangle of cells either leaves the world, which stops the mover, or
//! yields the ordered list of cells whose boundaries the movement must be
//! clipped against.

pub mod grid;
pub mod rooms;
pub mod spawn;
pub mod sweep;

pub use grid::{Tile, Tiles};
pub use rooms::{rooms_from_levels, Cycle, Room};
pub use spawn::spawn_cells;
pub use sweep::{obstructing_cells, CellRange};
