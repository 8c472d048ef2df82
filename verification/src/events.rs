//! Outcomes of one reveal request, in visitation order.

use vstd::prelude::*;

use crate::components::Coordinates;
use crate::tile::Tile;

verus! {

/// One outcome of processing a reveal trigger. A reveal call returns
/// the ordered list of these for the caller to relay onward.
#[derive(Debug, Clone, Copy, PartialEq, Eq, Structural)]
pub enum RevealEvent {
    /// A cell was uncovered; `tile` is its content.
    TileRevealed { coordinates: Coordinates, tile: Tile },
    /// The uncovered cell held a bomb: the session is lost and the
    /// cascade stops.
    BombExplosion,
    /// Every bomb-free cell is uncovered: the session is won.
    BoardCompleted,
}

/// The coordinates of the cells revealed in an event sequence, in
/// order.
pub open spec fn revealed_coords(events: Seq<RevealEvent>) -> Seq<Coordinates>
    decreases events.len(),
{
    if events.len() == 0 {
        Seq::empty()
    } else {
        revealed_coords(events.drop_last()) + (match events.last() {
            RevealEvent::TileRevealed { coordinates, .. } => seq![coordinates],
            _ => Seq::empty(),
        })
    }
}

/// Appending an event extends the revealed coordinates by that event's
/// cell, if it reveals one.
pub proof fn lemma_revealed_coords_push(events: Seq<RevealEvent>, e: RevealEvent)
    ensures
        revealed_coords(events.push(e)) == revealed_coords(events) + (match e {
            RevealEvent::TileRevealed { coordinates, .. } => seq![coordinates],
            _ => Seq::empty(),
        }),
{
    assert(events.push(e).drop_last() =~= events);
    assert(events.push(e).last() == e);
}

} // verus!
