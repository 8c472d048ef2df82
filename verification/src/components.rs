//! Per-cell value types shared between the core and a presentation layer.

use vstd::prelude::*;

verus! {

/// Address of one grid cell: `x` counts columns, `y` counts rows.
///
/// Coordinates are plain values; the grid types use them as lookup keys.
/// The derived ordering compares `x` first, then `y`, so coordinates can
/// key an ordered mapping.
#[derive(Debug, Clone, Copy, PartialEq, Eq, Structural, Hash, PartialOrd, Ord)]
pub struct Coordinates {
    pub x: u16,
    pub y: u16,
}

impl Coordinates {
    /// Two cells are adjacent when their Chebyshev distance is exactly 1:
    /// the up-to-8 cells surrounding a cell, the cell itself excluded.
    pub open spec fn is_adjacent_to(self, other: Coordinates) -> bool {
        &&& self != other
        &&& -1 <= other.x - self.x <= 1
        &&& -1 <= other.y - self.y <= 1
    }
}

/// Marker for a cell that holds a bomb. A presentation layer may attach
/// this to whatever visual handle it keeps per cell.
#[derive(Debug, Clone, Copy, PartialEq, Eq, Structural, Hash)]
pub struct Bomb;

/// Marker for a bomb-free cell with at least one bomb among its
/// neighbors; `count` is the exact number of adjacent bombs.
#[derive(Debug, Clone, Copy, PartialEq, Eq, Structural, Hash)]
pub struct BombNeighbor {
    pub count: u8,
}

} // verus!
