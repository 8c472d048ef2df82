//! The generation request: what a caller provides to start a session.

use vstd::prelude::*;

use crate::board::Board;
use crate::components::Coordinates;
use crate::tile::Tile;
use crate::tile_map::BoardError;
use crate::tile_map::TileMap;
use crate::tile_map::clamped_bomb_count;

verus! {

/// Options of one board generation request.
#[derive(Debug, Clone, Copy)]
pub struct BoardOptions {
    /// Grid dimensions: columns, then rows.
    pub map_size: (u16, u16),
    /// Requested number of bombs; clamped during generation so that
    /// at least one bomb-free cell remains.
    pub bomb_count: u16,
    /// Whether to pick a guaranteed bomb-free starting cell.
    pub safe_start: bool,
    /// Seed of the pseudo-random placement: identical seeds reproduce
    /// identical fields.
    pub seed: u64,
}

impl Default for BoardOptions {
    /// A 15-by-15 field with 30 bombs, no safe start, seed 0.
    fn default() -> (r: Self)
        ensures
            r.map_size == (15u16, 15u16),
            r.bomb_count == 30,
            !r.safe_start,
            r.seed == 0,
    {
        BoardOptions { map_size: (15, 15), bomb_count: 30, safe_start: false, seed: 0 }
    }
}

/// Builds a session's board from a generation request: generates the
/// field, wraps it with every cell covered and, when a safe start is
/// asked for, picks an `Empty` cell for the caller to reveal first
/// (`None` when no `Empty` cell exists).
pub fn create_board(options: &BoardOptions) -> (r: Result<
    (Board, Option<Coordinates>),
    BoardError,
>)
    ensures
        r is Ok <==> options.map_size.0 > 0 && options.map_size.1 > 0,
        r matches Ok((b, safe)) ==> {
            &&& b.wf()
            &&& b.all_covered()
            &&& b.spec_tile_map().spec_width() == options.map_size.0
            &&& b.spec_tile_map().spec_height() == options.map_size.1
            &&& b.spec_tile_map().spec_bomb_count() == clamped_bomb_count(
                options.bomb_count as int,
                options.map_size.0 as int,
                options.map_size.1 as int,
            )
            &&& (safe matches Some(c) ==> options.safe_start && b.spec_in_bounds(c)
                && b.spec_tile_map().spec_tile_at(c) == Tile::Empty)
            &&& (options.safe_start && safe is None ==> forall|c: Coordinates|
                b.spec_in_bounds(c) ==> #[trigger] b.spec_tile_map().spec_tile_at(c) != Tile::Empty)
            &&& (!options.safe_start ==> safe is None)
        },
        r matches Err(e) ==> e == BoardError::InvalidDimensions,
{
    let tm = match TileMap::generate(
        options.map_size.0,
        options.map_size.1,
        options.bomb_count,
        options.seed,
    ) {
        Ok(tm) => tm,
        Err(e) => {
            return Err(e);
        },
    };
    let safe = if options.safe_start {
        tm.safe_start_coordinate()
    } else {
        None
    };
    Ok((Board::new(tm), safe))
}

} // verus!
