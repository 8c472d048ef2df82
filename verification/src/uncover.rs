//! The flood-fill reveal: processing one trigger coordinate with an
//! explicit work list, with win and loss detection.

use vstd::prelude::*;

use crate::board::Board;
use crate::board::lemma_covered_at_least_bombs;
use crate::board::lemma_covered_only_contains;
use crate::board::lemma_count_true_none;
use crate::components::Coordinates;
use crate::events::RevealEvent;
use crate::events::lemma_revealed_coords_push;
use crate::events::revealed_coords;
use crate::tile::Tile;
use crate::tile_map::coord_of;
use crate::tile_map::lemma_add_contains;
use crate::tile_map::lemma_count_bombs_zero;
use crate::tile_map::lemma_div_mod_coord;
use crate::tile_map::lemma_empty_has_no_bomb_neighbors;
use crate::tile_map::lemma_index_range;
use crate::tile_map::lemma_neighbors_exact;
use crate::tile_map::lemma_no_bombs_all_empty;

verus! {

/// Every bomb cell is still covered.
pub open spec fn bombs_covered(b: Board) -> bool {
    forall|d: Coordinates|
        b.spec_in_bounds(d) && b.spec_tile_map().spec_tile_at(d) is Bomb ==> #[trigger] b.spec_covered(
            d,
        )
}

/// No covered cell borders an uncovered `Empty` cell: the cascade has
/// nothing left to expand. This holds of a fresh board and is restored
/// by every reveal call.
pub open spec fn cascade_closed(b: Board) -> bool {
    forall|c: Coordinates, d: Coordinates|
        b.spec_in_bounds(c) && !b.spec_covered(c) && b.spec_tile_map().spec_tile_at(c)
            == Tile::Empty && b.spec_in_bounds(d) && #[trigger] c.is_adjacent_to(d)
            ==> !b.spec_covered(d)
}

/// Whether `d` still waits in the work list at or after `head`.
pub open spec fn in_worklist(queue: Seq<Coordinates>, head: int, d: Coordinates) -> bool {
    exists|m: int| head <= m < queue.len() && #[trigger] queue[m] == d
}

/// Chebyshev distance of two cells: the number of 8-adjacency steps
/// between them.
pub open spec fn chebyshev(a: Coordinates, b: Coordinates) -> int {
    let dx: int = if a.x >= b.x {
        a.x - b.x
    } else {
        b.x - a.x
    };
    let dy: int = if a.y >= b.y {
        a.y - b.y
    } else {
        b.y - a.y
    };
    if dx >= dy {
        dx
    } else {
        dy
    }
}

/// A singleton sequence holds exactly its one element.
pub proof fn lemma_singleton_contains<A>(x: A, d: A)
    ensures
        seq![x].contains(d) <==> d == x,
{
    if d == x {
        assert(seq![x][0] == d);
    }
}

/// Appending a fresh element keeps a sequence free of duplicates.
pub proof fn lemma_append_fresh_distinct(s: Seq<Coordinates>, x: Coordinates)
    requires
        s.no_duplicates(),
        !s.contains(x),
    ensures
        (s + seq![x]).no_duplicates(),
{
    let s2 = s + seq![x];
    assert forall|a: int, b: int|
        0 <= a < s2.len() && 0 <= b < s2.len() && a != b implies s2[a] != s2[b] by {
        if a < s.len() && b < s.len() {
        } else if a < s.len() {
            if s2[a] == s2[b] {
                assert(s[a] == x);
                assert(s.contains(x));
            }
        } else {
            if s2[a] == s2[b] {
                assert(s[b] == x);
                assert(s.contains(x));
            }
        }
    }
}

/// In an all-`Empty` field where the cascade is closed and `t` is
/// uncovered, every cell is uncovered: the whole grid is one
/// 8-connected component of `Empty` cells.
pub proof fn lemma_component_uncovered(b: Board, t: Coordinates, c: Coordinates)
    requires
        b.wf(),
        cascade_closed(b),
        forall|d: Coordinates|
            b.spec_in_bounds(d) ==> #[trigger] b.spec_tile_map().spec_tile_at(d) == Tile::Empty,
        b.spec_in_bounds(t),
        !b.spec_covered(t),
        b.spec_in_bounds(c),
    ensures
        !b.spec_covered(c),
    decreases chebyshev(t, c),
{
    if c == t {
    } else {
        let x2: u16 = if c.x < t.x {
            (c.x + 1) as u16
        } else if c.x > t.x {
            (c.x - 1) as u16
        } else {
            c.x
        };
        let y2: u16 = if c.y < t.y {
            (c.y + 1) as u16
        } else if c.y > t.y {
            (c.y - 1) as u16
        } else {
            c.y
        };
        let c2 = Coordinates { x: x2, y: y2 };
        assert(b.spec_in_bounds(c2));
        assert(c2 != c);
        assert(chebyshev(t, c2) < chebyshev(t, c));
        lemma_component_uncovered(b, t, c2);
        assert(b.spec_tile_map().spec_tile_at(c2) == Tile::Empty);
        assert(c2.is_adjacent_to(c));
    }
}

/// Processes one reveal trigger: uncovers the cell at `trigger`, and
/// when it is `Empty`, breadth-first uncovers the connected empty
/// region together with its bordering counted cells. Returns the
/// outcomes in visitation order.
///
/// A trigger on an uncovered or off-grid cell is a no-op. A trigger on
/// a bomb uncovers only that cell and reports the loss, with no
/// further cascading. Whenever an uncover leaves exactly the bombs'
/// worth of cells covered, the win is reported; a win and a loss are
/// never reported together. On a board whose field has no bombs, one
/// reveal of any covered cell uncovers every cell, each exactly once,
/// and reports the win.
pub fn uncover_tiles(board: &mut Board, trigger: Coordinates) -> (events: Vec<RevealEvent>)
    requires
        old(board).wf(),
    ensures
        final(board).wf(),
        final(board).spec_tile_map() == old(board).spec_tile_map(),
        forall|d: Coordinates| #[trigger] final(board).spec_covered(d) ==> old(board).spec_covered(d),
        forall|d: Coordinates|
            (old(board).spec_covered(d) && !final(board).spec_covered(d)) <==> #[trigger] revealed_coords(
                events@,
            ).contains(d),
        revealed_coords(events@).no_duplicates(),
        forall|i: int|
            0 <= i < events@.len() ==> ((#[trigger] events@[i]) matches RevealEvent::TileRevealed {
                coordinates,
                tile,
            } ==> old(board).spec_covered(coordinates) && !final(board).spec_covered(coordinates)
                && tile == old(board).spec_tile_map().spec_tile_at(coordinates)),
        !old(board).spec_covered(trigger) ==> *final(board) == *old(board) && events@.len() == 0,
        old(board).spec_covered(trigger) ==> events@.len() >= 1 && events@[0]
            == (RevealEvent::TileRevealed {
            coordinates: trigger,
            tile: old(board).spec_tile_map().spec_tile_at(trigger),
        }),
        (old(board).spec_covered(trigger) && old(board).spec_tile_map().spec_tile_at(
            trigger,
        ) is Bomb) ==> {
            &&& events@ == seq![
                RevealEvent::TileRevealed {
                    coordinates: trigger,
                    tile: old(board).spec_tile_map().spec_tile_at(trigger),
                },
                RevealEvent::BombExplosion,
            ]
            &&& forall|d: Coordinates|
                #[trigger] final(board).spec_covered(d) == (old(board).spec_covered(d) && d
                    != trigger)
        },
        events@.contains(RevealEvent::BombExplosion) <==> (old(board).spec_covered(trigger)
            && old(board).spec_tile_map().spec_tile_at(trigger) is Bomb),
        !(old(board).spec_covered(trigger) && old(board).spec_tile_map().spec_tile_at(
            trigger,
        ) is Bomb) ==> forall|d: Coordinates|
            old(board).spec_tile_map().spec_tile_at(d) is Bomb
                ==> #[trigger] final(board).spec_covered(d) == old(board).spec_covered(d),
        (bombs_covered(*old(board)) && !(old(board).spec_covered(trigger)
            && old(board).spec_tile_map().spec_tile_at(trigger) is Bomb)) ==> (events@.contains(
            RevealEvent::BoardCompleted,
        ) <==> (final(board).spec_covered_count() == old(board).spec_tile_map().spec_bomb_count()
            && final(board).spec_covered_count() < old(board).spec_covered_count())),
        !(events@.contains(RevealEvent::BoardCompleted) && events@.contains(
            RevealEvent::BombExplosion,
        )),
        cascade_closed(*old(board)) ==> cascade_closed(*final(board)),
        (old(board).all_covered() && old(board).spec_tile_map().spec_bomb_count() == 0
            && old(board).spec_in_bounds(trigger)) ==> (final(board).spec_covered_count() == 0
            && events@.contains(RevealEvent::BoardCompleted)),
{
    let ghost b0 = *old(board);
    let ghost tm = b0.spec_tile_map();
    let mut events: Vec<RevealEvent> = Vec::new();
    let first = board.try_uncover_tile(&trigger);
    let tile = match first {
        None => {
            proof {
                if b0.all_covered() && b0.spec_in_bounds(trigger) {
                    assert(b0.spec_covered(trigger));
                }
                assert(revealed_coords(events@) =~= Seq::<Coordinates>::empty());
            }
            return events;
        },
        Some(t) => t,
    };
    let first_event = RevealEvent::TileRevealed { coordinates: trigger, tile };
    events.push(first_event);
    proof {
        lemma_revealed_coords_push(Seq::<RevealEvent>::empty(), first_event);
        assert(events@ =~= Seq::<RevealEvent>::empty().push(first_event));
        assert(revealed_coords(events@) =~= seq![trigger]);
    }
    if tile.is_bomb() {
        events.push(RevealEvent::BombExplosion);
        proof {
            assert(events@ =~= seq![first_event, RevealEvent::BombExplosion]);
            lemma_revealed_coords_push(seq![first_event], RevealEvent::BombExplosion);
            assert(revealed_coords(seq![first_event]) =~= seq![trigger]) by {
                assert(seq![first_event].drop_last() =~= Seq::<RevealEvent>::empty());
            }
            assert(revealed_coords(events@) =~= seq![trigger]);
            assert forall|d: Coordinates|
                (b0.spec_covered(d) && !board.spec_covered(d)) <==> #[trigger] revealed_coords(
                events@,
            ).contains(d) by {
                lemma_singleton_contains(trigger, d);
            }
            assert(events@.contains(RevealEvent::BombExplosion)) by {
                assert(events@[1] == RevealEvent::BombExplosion);
            }
            assert(!events@.contains(RevealEvent::BoardCompleted)) by {
                if events@.contains(RevealEvent::BoardCompleted) {
                    let i = choose|i: int|
                        0 <= i < events@.len() && #[trigger] events@[i]
                            == RevealEvent::BoardCompleted;
                    assert(false);
                }
            }
            // A bomb tile is not `Empty`, so the closure is untouched.
            if cascade_closed(b0) {
                assert forall|c: Coordinates, d: Coordinates|
                    board.spec_in_bounds(c) && !board.spec_covered(c)
                        && board.spec_tile_map().spec_tile_at(c) == Tile::Empty
                        && board.spec_in_bounds(d) && #[trigger] c.is_adjacent_to(d) implies !board.spec_covered(
                    d,
                ) by {
                    if board.spec_covered(d) {
                        assert(b0.spec_covered(d));
                        assert(c != trigger);
                        assert(!b0.spec_covered(c));
                    }
                }
            }
            // A field without bombs cannot hold one at the trigger.
            if tm.spec_bomb_count() == 0 {
                lemma_count_bombs_zero(tm.tiles());
                lemma_index_range(tm.spec_width(), tm.spec_height(), trigger);
                assert(false);
            }
        }
        return events;
    }
    // The trigger was bomb-free: cascade from it when it is `Empty`.
    let mut queue: Vec<Coordinates> = if matches!(tile, Tile::Empty) {
        board.adjacent_covered_tiles(&trigger)
    } else {
        Vec::new()
    };
    proof {
        assert forall|m: int|
            0 <= m < queue@.len() implies board.spec_in_bounds(#[trigger] queue@[m]) && !(
        tm.spec_tile_at(queue@[m]) is Bomb) by {
            let d = queue@[m];
            assert(queue@.contains(d));
            lemma_covered_only_contains(*board, tm.spec_neighbors(trigger), d);
            lemma_neighbors_exact(tm, trigger, d);
            lemma_empty_has_no_bomb_neighbors(tm, trigger, d);
        }
    }
    let done_now = board.is_completed();
    if done_now {
        events.push(RevealEvent::BoardCompleted);
        proof {
            lemma_revealed_coords_push(seq![first_event], RevealEvent::BoardCompleted);
            assert(revealed_coords(seq![first_event]) =~= seq![trigger]) by {
                assert(seq![first_event].drop_last() =~= Seq::<RevealEvent>::empty());
            }
            assert(revealed_coords(events@) =~= seq![trigger]);
            assert(events@.contains(RevealEvent::BoardCompleted)) by {
                assert(events@[1] == RevealEvent::BoardCompleted);
            }
        }
    } else {
        proof {
            assert(!events@.contains(RevealEvent::BoardCompleted)) by {
                if events@.contains(RevealEvent::BoardCompleted) {
                    let i = choose|i: int|
                        0 <= i < events@.len() && #[trigger] events@[i]
                            == RevealEvent::BoardCompleted;
                    assert(false);
                }
            }
        }
    }
    proof {
        assert forall|d: Coordinates|
            (b0.spec_covered(d) && !board.spec_covered(d)) <==> #[trigger] revealed_coords(
            events@,
        ).contains(d) by {
            lemma_singleton_contains(trigger, d);
        }
        // Any cell uncovered before the call keeps, under the entry
        // closure, no covered neighbors; the trigger's covered
        // neighbors are the initial work list.
        if cascade_closed(b0) {
            assert forall|c: Coordinates, d: Coordinates|
                board.spec_in_bounds(c) && !board.spec_covered(c) && tm.spec_tile_at(c)
                    == Tile::Empty && board.spec_in_bounds(d) && #[trigger] c.is_adjacent_to(d)
                    && board.spec_covered(d) implies in_worklist(queue@, 0, d) by {
                if c == trigger {
                    lemma_covered_only_contains(*board, tm.spec_neighbors(trigger), d);
                    lemma_neighbors_exact(tm, trigger, d);
                    assert(queue@.contains(d));
                    let idx = choose|idx: int|
                        0 <= idx < queue@.len() && #[trigger] queue@[idx] == d;
                    assert(in_worklist(queue@, 0, d));
                } else {
                    assert(b0.spec_covered(d));
                    assert(!b0.spec_covered(c));
                }
            }
        }
    }
    let mut head: usize = 0;
    while head < queue.len()
        invariant
            b0.wf(),
            board.wf(),
            board.spec_tile_map() == tm,
            tm == b0.spec_tile_map(),
            b0.spec_covered(trigger),
            !board.spec_covered(trigger),
            !(tm.spec_tile_at(trigger) is Bomb),
            events@.len() >= 1,
            events@[0] == (RevealEvent::TileRevealed {
                coordinates: trigger,
                tile: tm.spec_tile_at(trigger),
            }),
            head <= queue@.len(),
            board.spec_covered_count() < b0.spec_covered_count(),
            forall|d: Coordinates| #[trigger] board.spec_covered(d) ==> b0.spec_covered(d),
            forall|d: Coordinates|
                (b0.spec_covered(d) && !board.spec_covered(d)) <==> #[trigger] revealed_coords(
                    events@,
                ).contains(d),
            revealed_coords(events@).no_duplicates(),
            forall|i: int|
                0 <= i < events@.len() ==> ((#[trigger] events@[i])
                    matches RevealEvent::TileRevealed {
                    coordinates,
                    tile,
                } ==> b0.spec_covered(coordinates) && !board.spec_covered(coordinates) && tile
                    == tm.spec_tile_at(coordinates)),
            forall|i: int| 0 <= i < events@.len() ==> !((#[trigger] events@[i]) is BombExplosion),
            forall|m: int|
                0 <= m < queue@.len() ==> board.spec_in_bounds(#[trigger] queue@[m]) && !(
                tm.spec_tile_at(queue@[m]) is Bomb),
            forall|d: Coordinates|
                tm.spec_tile_at(d) is Bomb ==> #[trigger] board.spec_covered(d) == b0.spec_covered(
                    d,
                ),
            bombs_covered(b0) ==> (events@.contains(RevealEvent::BoardCompleted)
                <==> board.spec_covered_count() == tm.spec_bomb_count()),
            cascade_closed(b0) ==> (forall|c: Coordinates, d: Coordinates|
                board.spec_in_bounds(c) && !board.spec_covered(c) && tm.spec_tile_at(c)
                    == Tile::Empty && board.spec_in_bounds(d) && #[trigger] c.is_adjacent_to(d)
                    && board.spec_covered(d) ==> in_worklist(queue@, head as int, d)),
        decreases board.spec_covered_count(), queue@.len() - head,
    {
        let ghost q0 = queue@;
        let ghost h0 = head as int;
        let ghost ev0 = events@;
        let c = queue[head];
        head += 1;
        let uncovered = board.try_uncover_tile(&c);
        match uncovered {
            None => {
                proof {
                    if cascade_closed(b0) {
                        assert forall|cc: Coordinates, d: Coordinates|
                            board.spec_in_bounds(cc) && !board.spec_covered(cc) && tm.spec_tile_at(
                                cc,
                            ) == Tile::Empty && board.spec_in_bounds(d)
                                && #[trigger] cc.is_adjacent_to(d) && board.spec_covered(
                            d,
                        ) implies in_worklist(queue@, head as int, d) by {
                            assert(in_worklist(q0, h0, d));
                            let m = choose|m: int| h0 <= m < q0.len() && #[trigger] q0[m] == d;
                            assert(d != c);
                            assert(m != h0);
                            assert(queue@[m] == d);
                        }
                    }
                }
            },
            Some(t) => {
                proof {
                    assert(q0[h0] == c);
                    assert(!(t is Bomb));
                }
                let revealed_event = RevealEvent::TileRevealed { coordinates: c, tile: t };
                events.push(revealed_event);
                proof {
                    lemma_revealed_coords_push(ev0, revealed_event);
                    assert forall|d: Coordinates|
                        (b0.spec_covered(d) && !board.spec_covered(d)) <==> #[trigger] revealed_coords(
                        events@,
                    ).contains(d) by {
                        lemma_add_contains(revealed_coords(ev0), seq![c], d);
                        lemma_singleton_contains(c, d);
                    }
                    assert(!revealed_coords(ev0).contains(c));
                    lemma_append_fresh_distinct(revealed_coords(ev0), c);
                }
                if matches!(t, Tile::Empty) {
                    let mut more = board.adjacent_covered_tiles(&c);
                    let ghost more_snap = more@;
                    queue.append(&mut more);
                    proof {
                        assert(queue@ == q0 + more_snap);
                        assert forall|m: int|
                            0 <= m < queue@.len() implies board.spec_in_bounds(
                            #[trigger] queue@[m],
                        ) && !(tm.spec_tile_at(queue@[m]) is Bomb) by {
                            if m >= q0.len() {
                                let d = more_snap[m - q0.len()];
                                assert(more_snap.contains(d));
                                lemma_covered_only_contains(*board, tm.spec_neighbors(c), d);
                                lemma_neighbors_exact(tm, c, d);
                                lemma_empty_has_no_bomb_neighbors(tm, c, d);
                            }
                        }
                        if cascade_closed(b0) {
                            assert forall|cc: Coordinates, d: Coordinates|
                                board.spec_in_bounds(cc) && !board.spec_covered(cc)
                                    && tm.spec_tile_at(cc) == Tile::Empty && board.spec_in_bounds(d)
                                    && #[trigger] cc.is_adjacent_to(d) && board.spec_covered(
                                d,
                            ) implies in_worklist(queue@, head as int, d) by {
                                if cc == c {
                                    lemma_covered_only_contains(*board, tm.spec_neighbors(c), d);
                                    lemma_neighbors_exact(tm, c, d);
                                    assert(more_snap.contains(d));
                                    let idx = choose|idx: int|
                                        0 <= idx < more_snap.len() && #[trigger] more_snap[idx]
                                            == d;
                                    assert(queue@[q0.len() + idx] == d);
                                } else {
                                    assert(in_worklist(q0, h0, d));
                                    let m = choose|m: int|
                                        h0 <= m < q0.len() && #[trigger] q0[m] == d;
                                    assert(d != c);
                                    assert(m != h0);
                                    assert(queue@[m] == d);
                                }
                            }
                        }
                    }
                } else {
                    proof {
                        if cascade_closed(b0) {
                            assert forall|cc: Coordinates, d: Coordinates|
                                board.spec_in_bounds(cc) && !board.spec_covered(cc)
                                    && tm.spec_tile_at(cc) == Tile::Empty && board.spec_in_bounds(d)
                                    && #[trigger] cc.is_adjacent_to(d) && board.spec_covered(
                                d,
                            ) implies in_worklist(queue@, head as int, d) by {
                                assert(cc != c);
                                assert(in_worklist(q0, h0, d));
                                let m = choose|m: int| h0 <= m < q0.len() && #[trigger] q0[m] == d;
                                assert(d != c);
                                assert(m != h0);
                                assert(queue@[m] == d);
                            }
                        }
                    }
                }
                let ghost ev1 = events@;
                let done = board.is_completed();
                if done {
                    events.push(RevealEvent::BoardCompleted);
                    proof {
                        lemma_revealed_coords_push(ev1, RevealEvent::BoardCompleted);
                        assert(events@.contains(RevealEvent::BoardCompleted)) by {
                            assert(events@[events@.len() - 1] == RevealEvent::BoardCompleted);
                        }
                    }
                }
                proof {
                    if bombs_covered(b0) {
                        assert forall|d: Coordinates|
                            board.spec_in_bounds(d) && board.spec_tile_map().spec_tile_at(
                                d,
                            ) is Bomb implies #[trigger] board.spec_covered(d) by {
                            assert(b0.spec_covered(d));
                        }
                        lemma_covered_at_least_bombs(*board);
                        if !done {
                            // The tally sat above the bomb count before
                            // this uncover, so no win was reported yet.
                            assert(!ev1.contains(RevealEvent::BoardCompleted)) by {
                                if ev1.contains(RevealEvent::BoardCompleted) {
                                    let i = choose|i: int|
                                        0 <= i < ev1.len() && #[trigger] ev1[i]
                                            == RevealEvent::BoardCompleted;
                                    if i < ev0.len() {
                                        assert(ev0[i] == RevealEvent::BoardCompleted);
                                        assert(ev0.contains(RevealEvent::BoardCompleted));
                                        assert(false);
                                    } else {
                                        assert(ev1[i] == revealed_event);
                                        assert(false);
                                    }
                                }
                            }
                            assert(!events@.contains(RevealEvent::BoardCompleted)) by {
                                if events@.contains(RevealEvent::BoardCompleted) {
                                    let i = choose|i: int|
                                        0 <= i < events@.len() && #[trigger] events@[i]
                                            == RevealEvent::BoardCompleted;
                                    assert(ev1.contains(RevealEvent::BoardCompleted));
                                    assert(false);
                                }
                            }
                        }
                    }
                }
            },
        }
    }
    proof {
        assert(!events@.contains(RevealEvent::BombExplosion)) by {
            if events@.contains(RevealEvent::BombExplosion) {
                let i = choose|i: int|
                    0 <= i < events@.len() && #[trigger] events@[i] == RevealEvent::BombExplosion;
                assert(false);
            }
        }
        if cascade_closed(b0) {
            assert forall|c: Coordinates, d: Coordinates|
                board.spec_in_bounds(c) && !board.spec_covered(c) && board.spec_tile_map().spec_tile_at(
                    c,
                ) == Tile::Empty && board.spec_in_bounds(d) && #[trigger] c.is_adjacent_to(
                d,
            ) implies !board.spec_covered(d) by {
                if board.spec_covered(d) {
                    assert(in_worklist(queue@, head as int, d));
                    let m = choose|m: int|
                        head as int <= m < queue@.len() && #[trigger] queue@[m] == d;
                    assert(false);
                }
            }
        }
        if b0.all_covered() && tm.spec_bomb_count() == 0 && b0.spec_in_bounds(trigger) {
            lemma_no_bombs_all_empty(tm);
            assert(cascade_closed(b0)) by {
                assert forall|c: Coordinates, d: Coordinates|
                    b0.spec_in_bounds(c) && !b0.spec_covered(c) && b0.spec_tile_map().spec_tile_at(
                        c,
                    ) == Tile::Empty && b0.spec_in_bounds(d) && #[trigger] c.is_adjacent_to(
                    d,
                ) implies !b0.spec_covered(d) by {
                    assert(b0.spec_covered(c));
                }
            }
            assert forall|d: Coordinates| board.spec_in_bounds(d) implies !(
            #[trigger] board.spec_covered(d)) by {
                lemma_component_uncovered(*board, trigger, d);
            }
            let w = tm.spec_width();
            let h = tm.spec_height();
            assert forall|i: int| 0 <= i < board.covered_seq().len() implies !(
            #[trigger] board.covered_seq()[i]) by {
                lemma_div_mod_coord(i, w, h);
                let cc = coord_of(w, i);
                assert(board.spec_in_bounds(cc));
                assert(!board.spec_covered(cc));
            }
            lemma_count_true_none(board.covered_seq());
            assert(board.spec_covered_count() == 0);
            assert(bombs_covered(b0)) by {
                assert forall|d: Coordinates|
                    b0.spec_in_bounds(d) && b0.spec_tile_map().spec_tile_at(
                        d,
                    ) is Bomb implies #[trigger] b0.spec_covered(d) by {
                    assert(b0.spec_covered(d));
                }
            }
            assert(events@.contains(RevealEvent::BoardCompleted));
        }
    }
    events
}

} // verus!
