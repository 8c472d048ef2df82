//! The content of one cell of a generated field.

use vstd::prelude::*;

verus! {

/// Content of one cell. Exactly one variant applies per cell, fixed at
/// generation time: the bomb layout never changes during play.
///
/// `BombNeighbor(0)` is never constructed: a bomb-free cell with no
/// adjacent bombs is stored as `Empty`.
#[derive(Debug, Clone, Copy, PartialEq, Eq, Structural)]
pub enum Tile {
    /// No bomb here and none on any neighboring cell.
    Empty,
    /// A bomb.
    Bomb,
    /// No bomb here; the payload counts the adjacent bombs, 1 to 8.
    BombNeighbor(u8),
}

impl Tile {
    /// Whether this tile is a bomb.
    pub open spec fn spec_is_bomb(&self) -> bool {
        self is Bomb
    }

    /// Whether this tile is a bomb.
    #[verifier::when_used_as_spec(spec_is_bomb)]
    pub fn is_bomb(&self) -> (r: bool)
        ensures
            r == self.spec_is_bomb(),
    {
        matches!(self, Tile::Bomb)
    }
}

} // verus!
