//! Covered/uncovered bookkeeping around a generated field.

use vstd::prelude::*;

use crate::components::Coordinates;
use crate::tile::Tile;
use crate::tile_map::TileMap;
use crate::tile_map::lemma_add_contains;
use crate::tile_map::lemma_index_injective;
use crate::tile_map::lemma_index_range;
use crate::tile_map::lemma_total_fits;

verus! {

/// Number of `true` entries in a sequence of booleans.
pub open spec fn count_true(s: Seq<bool>) -> int
    decreases s.len(),
{
    if s.len() == 0 {
        0
    } else {
        count_true(s.drop_last()) + if s.last() {
            1int
        } else {
            0int
        }
    }
}

/// The tally of `true` entries lies between 0 and the length.
pub proof fn lemma_count_true_bounds(s: Seq<bool>)
    ensures
        0 <= count_true(s) <= s.len(),
    decreases s.len(),
{
    if s.len() > 0 {
        lemma_count_true_bounds(s.drop_last());
    }
}

/// An all-`true` sequence counts its full length.
pub proof fn lemma_count_true_all(s: Seq<bool>)
    requires
        forall|i: int| 0 <= i < s.len() ==> #[trigger] s[i],
    ensures
        count_true(s) == s.len(),
    decreases s.len(),
{
    if s.len() > 0 {
        lemma_count_true_all(s.drop_last());
    }
}

/// An all-`false` sequence counts zero.
pub proof fn lemma_count_true_none(s: Seq<bool>)
    requires
        forall|i: int| 0 <= i < s.len() ==> !(#[trigger] s[i]),
    ensures
        count_true(s) == 0,
    decreases s.len(),
{
    if s.len() > 0 {
        lemma_count_true_none(s.drop_last());
    }
}

/// Replacing one entry changes the tally by the difference the two
/// entries contribute.
pub proof fn lemma_count_true_update(s: Seq<bool>, i: int, b: bool)
    requires
        0 <= i < s.len(),
    ensures
        count_true(s.update(i, b)) == count_true(s) - (if s[i] {
            1int
        } else {
            0int
        }) + (if b {
            1int
        } else {
            0int
        }),
    decreases s.len(),
{
    let s2 = s.update(i, b);
    if i == s.len() - 1 {
        assert(s2.drop_last() =~= s.drop_last());
    } else {
        assert(s2.drop_last() =~= s.drop_last().update(i, b));
        lemma_count_true_update(s.drop_last(), i, b);
    }
}

/// A generated field together with per-cell covered state.
///
/// Created once per game session, every cell covered; cells are
/// uncovered one at a time by `try_uncover_tile` and never revert.
#[derive(Debug)]
pub struct Board {
    tile_map: TileMap,
    covered: Vec<bool>,
    covered_count: usize,
}

impl Board {
    /// The wrapped field.
    pub closed spec fn spec_tile_map(self) -> TileMap {
        self.tile_map
    }

    /// Covered flags, in the field's row-major order.
    pub closed spec fn covered_seq(self) -> Seq<bool> {
        self.covered@
    }

    /// Number of cells still covered.
    pub closed spec fn spec_covered_count(self) -> int {
        self.covered_count as int
    }

    /// Whether a coordinate lies on the grid.
    pub open spec fn spec_in_bounds(self, c: Coordinates) -> bool {
        self.spec_tile_map().spec_in_bounds(c)
    }

    /// Whether the cell at `c` is still covered. Cells outside the
    /// grid count as uncovered.
    pub open spec fn spec_covered(self, c: Coordinates) -> bool {
        self.spec_in_bounds(c) && self.covered_seq()[self.spec_tile_map().spec_index(c)]
    }

    /// Whether every cell is still covered.
    pub open spec fn all_covered(self) -> bool {
        forall|c: Coordinates| self.spec_in_bounds(c) ==> #[trigger] self.spec_covered(c)
    }

    /// Well-formedness: a well-formed field, one covered flag per cell,
    /// and a cached tally that matches the flags.
    pub open spec fn wf(self) -> bool {
        &&& self.spec_tile_map().wf()
        &&& self.covered_seq().len() == self.spec_tile_map().spec_width()
            * self.spec_tile_map().spec_height()
        &&& self.spec_covered_count() == count_true(self.covered_seq())
        &&& 0 <= self.spec_covered_count()
    }

    /// Wraps a generated field, marking every cell covered.
    pub fn new(tile_map: TileMap) -> (b: Board)
        requires
            tile_map.wf(),
        ensures
            b.wf(),
            b.spec_tile_map() == tile_map,
            b.all_covered(),
            b.spec_covered_count() == tile_map.spec_width() * tile_map.spec_height(),
    {
        proof {
            lemma_total_fits(tile_map.spec_width(), tile_map.spec_height());
        }
        let total: usize = (tile_map.width() as usize) * (tile_map.height() as usize);
        let covered: Vec<bool> = vec![true; total];
        let b = Board { tile_map, covered, covered_count: total };
        proof {
            lemma_count_true_all(b.covered_seq());
            assert forall|c: Coordinates| b.spec_in_bounds(c) implies #[trigger] b.spec_covered(
                c,
            ) by {
                lemma_index_range(
                    b.spec_tile_map().spec_width(),
                    b.spec_tile_map().spec_height(),
                    c,
                );
            }
        }
        b
    }

    /// The wrapped field.
    pub fn tile_map(&self) -> (r: &TileMap)
        ensures
            *r == self.spec_tile_map(),
    {
        &self.tile_map
    }

    /// Number of cells still covered.
    pub fn covered_count(&self) -> (r: usize)
        ensures
            r == self.spec_covered_count(),
    {
        self.covered_count
    }

    /// Whether the cell at a coordinate is still covered; `false` for
    /// coordinates outside the grid.
    pub fn is_covered(&self, coordinates: &Coordinates) -> (r: bool)
        requires
            self.wf(),
        ensures
            r == self.spec_covered(*coordinates),
    {
        if self.tile_map.in_bounds(coordinates) {
            let pos = self.tile_map.index_of(coordinates);
            self.covered[pos]
        } else {
            false
        }
    }

    /// Uncovers the cell at `coordinates` and returns its tile; `None`
    /// when the cell is already uncovered or off the grid, leaving the
    /// board unchanged.
    ///
    /// Uncovering is idempotent: after a successful call the cell is no
    /// longer covered, so a repeated call returns `None`. The cascade
    /// relies on this to visit each cell at most once.
    pub fn try_uncover_tile(&mut self, coordinates: &Coordinates) -> (r: Option<Tile>)
        requires
            old(self).wf(),
        ensures
            final(self).wf(),
            final(self).spec_tile_map() == old(self).spec_tile_map(),
            r is Some <==> old(self).spec_covered(*coordinates),
            r matches Some(t) ==> t == old(self).spec_tile_map().spec_tile_at(*coordinates),
            r is Some ==> !final(self).spec_covered(*coordinates),
            !old(self).spec_covered(*coordinates) ==> *final(self) == *old(self),
            forall|d: Coordinates|
                #[trigger] final(self).spec_covered(d) == (old(self).spec_covered(d) && d
                    != *coordinates),
            old(self).spec_covered(*coordinates) ==> final(self).spec_covered_count() == old(
                self,
            ).spec_covered_count() - 1,
            !old(self).spec_covered(*coordinates) ==> final(self).spec_covered_count() == old(
                self,
            ).spec_covered_count(),
    {
        if !self.tile_map.in_bounds(coordinates) {
            return None;
        }
        let pos = self.tile_map.index_of(coordinates);
        if !self.covered[pos] {
            return None;
        }
        let tile = self.tile_map.tile_at_in_bounds(coordinates);
        let ghost before = self.covered@;
        proof {
            lemma_count_true_update(before, pos as int, false);
            lemma_count_true_bounds(before.update(pos as int, false));
        }
        self.covered[pos] = false;
        self.covered_count = self.covered_count - 1;
        proof {
            assert forall|d: Coordinates|
                #[trigger] self.spec_covered(d) == (old(self).spec_covered(d) && d
                    != *coordinates) by {
                if self.spec_in_bounds(d) {
                    lemma_index_range(
                        self.spec_tile_map().spec_width(),
                        self.spec_tile_map().spec_height(),
                        d,
                    );
                    if d != *coordinates {
                        lemma_index_injective(
                            self.spec_tile_map().spec_width(),
                            self.spec_tile_map().spec_height(),
                            d,
                            *coordinates,
                        );
                    }
                }
            }
        }
        Some(tile)
    }

    /// Whether the game is won: exactly the bomb cells are still
    /// covered, counted as covered cells == bomb count.
    pub fn is_completed(&self) -> (r: bool)
        requires
            self.wf(),
        ensures
            r <==> self.spec_covered_count() == self.spec_tile_map().spec_bomb_count(),
    {
        self.covered_count == (self.tile_map.bomb_count() as usize)
    }

    /// The subsequence of `s` whose cells are still covered, in order.
    pub open spec fn covered_only(self, s: Seq<Coordinates>) -> Seq<Coordinates>
        decreases s.len(),
    {
        if s.len() == 0 {
            Seq::empty()
        } else {
            self.covered_only(s.drop_last()) + if self.spec_covered(s.last()) {
                seq![s.last()]
            } else {
                Seq::empty()
            }
        }
    }

    /// The neighbors of `c` that are still covered, in the neighbor
    /// list's order.
    pub open spec fn spec_adjacent_covered(self, c: Coordinates) -> Seq<Coordinates> {
        self.covered_only(self.spec_tile_map().spec_neighbors(c))
    }

    /// The neighbors of `coordinates` that are still covered: the
    /// cascade's expansion candidates.
    pub fn adjacent_covered_tiles(&self, coordinates: &Coordinates) -> (r: Vec<Coordinates>)
        requires
            self.wf(),
        ensures
            r@ == self.spec_adjacent_covered(*coordinates),
    {
        let neighbors = self.tile_map.neighbors_of(coordinates);
        let mut r: Vec<Coordinates> = Vec::new();
        let mut i: usize = 0;
        while i < neighbors.len()
            invariant
                i <= neighbors@.len(),
                self.wf(),
                r@ == self.covered_only(neighbors@.take(i as int)),
            decreases neighbors@.len() - i,
        {
            let c = neighbors[i];
            proof {
                assert(neighbors@.take(i + 1).drop_last() =~= neighbors@.take(i as int));
                assert(neighbors@.take(i + 1).last() == c);
            }
            if self.is_covered(&c) {
                r.push(c);
            }
            i += 1;
        }
        proof {
            assert(neighbors@.take(neighbors@.len() as int) =~= neighbors@);
        }
        r
    }
}

/// With a flag set wherever a bomb sits, the flag tally is at least
/// the bomb tally.
proof fn lemma_count_pointwise(tiles: Seq<Tile>, covs: Seq<bool>)
    requires
        tiles.len() == covs.len(),
        forall|i: int| 0 <= i < tiles.len() && (#[trigger] tiles[i]) is Bomb ==> covs[i],
    ensures
        crate::tile_map::count_bombs(tiles) <= count_true(covs),
    decreases tiles.len(),
{
    if tiles.len() > 0 {
        lemma_count_pointwise(tiles.drop_last(), covs.drop_last());
    }
}

/// While every bomb cell is covered, at least as many cells are
/// covered as there are bombs.
pub proof fn lemma_covered_at_least_bombs(b: Board)
    requires
        b.wf(),
        forall|d: Coordinates|
            b.spec_in_bounds(d) && b.spec_tile_map().spec_tile_at(d) is Bomb ==> #[trigger] b.spec_covered(
                d,
            ),
    ensures
        b.spec_covered_count() >= b.spec_tile_map().spec_bomb_count(),
{
    let tm = b.spec_tile_map();
    let w = tm.spec_width();
    let h = tm.spec_height();
    assert forall|i: int|
        0 <= i < tm.tiles().len() && (#[trigger] tm.tiles()[i]) is Bomb implies b.covered_seq()[i] by {
        crate::tile_map::lemma_div_mod_coord(i, w, h);
        let c = crate::tile_map::coord_of(w, i);
        assert(tm.spec_tile_at(c) is Bomb);
        assert(b.spec_covered(c));
    }
    lemma_count_pointwise(tm.tiles(), b.covered_seq());
}

/// A coordinate is among the covered subsequence exactly when it is in
/// the original sequence and covered.
pub proof fn lemma_covered_only_contains(b: Board, s: Seq<Coordinates>, d: Coordinates)
    ensures
        b.covered_only(s).contains(d) <==> s.contains(d) && b.spec_covered(d),
    decreases s.len(),
{
    if s.len() == 0 {
    } else {
        let dl = s.drop_last();
        let tail: Seq<Coordinates> = if b.spec_covered(s.last()) {
            seq![s.last()]
        } else {
            Seq::empty()
        };
        lemma_covered_only_contains(b, dl, d);
        lemma_add_contains(b.covered_only(dl), tail, d);
        if b.spec_covered(s.last()) {
            assert(tail[0] == s.last());
            assert(tail.contains(s.last()));
        }
        assert(s.contains(d) <==> dl.contains(d) || d == s.last()) by {
            if s.contains(d) {
                let i = choose|i: int| 0 <= i < s.len() && #[trigger] s[i] == d;
                if i < s.len() - 1 {
                    assert(dl[i] == d);
                }
            }
            if dl.contains(d) {
                let i = choose|i: int| 0 <= i < dl.len() && #[trigger] dl[i] == d;
                assert(s[i] == d);
            }
            if d == s.last() {
                assert(s[s.len() - 1] == d);
            }
        }
    }
}

} // verus!
