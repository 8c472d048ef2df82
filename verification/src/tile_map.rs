//! The generated field: a rectangular grid of tiles with exact
//! adjacency counts.

use vstd::prelude::*;

use crate::components::Coordinates;
use crate::random::SeededRng;
use crate::tile::Tile;

verus! {

/// Errors of the core operations.
#[derive(Debug, Clone, Copy, PartialEq, Eq, Structural)]
pub enum BoardError {
    /// A field was requested with zero width or zero height.
    InvalidDimensions,
    /// A coordinate lookup fell outside the grid.
    OutOfBounds,
}

/// How many bombs a generated field holds for a request: the requested
/// count, capped so that at least one bomb-free cell remains.
pub open spec fn clamped_bomb_count(requested: int, width: int, height: int) -> int {
    if requested <= width * height - 1 {
        requested
    } else {
        width * height - 1
    }
}

/// Number of `Bomb` tiles in a sequence.
pub open spec fn count_bombs(s: Seq<Tile>) -> int
    decreases s.len(),
{
    if s.len() == 0 {
        0
    } else {
        count_bombs(s.drop_last()) + if s.last() is Bomb {
            1int
        } else {
            0int
        }
    }
}

/// Whether a coordinate lies on a grid of the given dimensions.
pub open spec fn coord_in_bounds(width: int, height: int, c: Coordinates) -> bool {
    c.x < width && c.y < height
}

/// Row-major index of a coordinate: row `y`, column `x`.
pub open spec fn coord_index(width: int, c: Coordinates) -> int {
    c.y * width + c.x
}

/// The cell one step from `c` in the direction `(dx, dy)`, for steps
/// that stay at non-negative coordinates.
pub open spec fn offset_coord(c: Coordinates, dx: int, dy: int) -> Coordinates {
    Coordinates { x: (c.x + dx) as u16, y: (c.y + dy) as u16 }
}

/// Whether stepping from `c` by `(dx, dy)` stays on the grid.
pub open spec fn offset_stays(width: int, height: int, c: Coordinates, dx: int, dy: int) -> bool {
    &&& 0 <= c.x + dx < width
    &&& 0 <= c.y + dy < height
}

/// 1 when the neighbor of `c` in direction `(dx, dy)` exists and holds
/// a bomb, else 0.
pub open spec fn bomb_step(
    tiles: Seq<Tile>,
    width: int,
    height: int,
    c: Coordinates,
    dx: int,
    dy: int,
) -> int {
    if offset_stays(width, height, c, dx, dy) && tiles[coord_index(
        width,
        offset_coord(c, dx, dy),
    )] is Bomb {
        1
    } else {
        0
    }
}

/// Exact number of bombs among the in-bounds neighbors of `c`.
pub open spec fn adjacent_bombs(tiles: Seq<Tile>, width: int, height: int, c: Coordinates) -> int {
    bomb_step(tiles, width, height, c, -1, -1) + bomb_step(tiles, width, height, c, 0, -1)
        + bomb_step(tiles, width, height, c, 1, -1) + bomb_step(tiles, width, height, c, -1, 0)
        + bomb_step(tiles, width, height, c, 1, 0) + bomb_step(tiles, width, height, c, -1, 1)
        + bomb_step(tiles, width, height, c, 0, 1) + bomb_step(tiles, width, height, c, 1, 1)
}

/// A width-by-height grid of tiles, stored row-major: the tile of
/// `(x, y)` sits at index `y * width + x`.
#[derive(Debug)]
pub struct TileMap {
    width: u16,
    height: u16,
    bomb_count: u16,
    map: Vec<Tile>,
}

impl TileMap {
    /// Number of columns.
    pub closed spec fn spec_width(self) -> int {
        self.width as int
    }

    /// Number of rows.
    pub closed spec fn spec_height(self) -> int {
        self.height as int
    }

    /// Number of bombs the field holds.
    pub closed spec fn spec_bomb_count(self) -> int {
        self.bomb_count as int
    }

    /// The tiles, row-major.
    pub closed spec fn tiles(self) -> Seq<Tile> {
        self.map@
    }

    /// Row-major index of a coordinate.
    pub open spec fn spec_index(self, c: Coordinates) -> int {
        coord_index(self.spec_width(), c)
    }

    /// Whether a coordinate lies on the grid.
    pub open spec fn spec_in_bounds(self, c: Coordinates) -> bool {
        coord_in_bounds(self.spec_width(), self.spec_height(), c)
    }

    /// The tile at an in-bounds coordinate.
    pub open spec fn spec_tile_at(self, c: Coordinates) -> Tile {
        self.tiles()[self.spec_index(c)]
    }

    /// Whether stepping from `c` by `(dx, dy)` stays on the grid.
    pub open spec fn offset_in_bounds(self, c: Coordinates, dx: int, dy: int) -> bool {
        offset_stays(self.spec_width(), self.spec_height(), c, dx, dy)
    }

    /// The neighbor one step in direction `(dx, dy)`, as a sequence:
    /// a singleton when the step stays on the grid, else empty.
    pub open spec fn neighbor_seq(self, c: Coordinates, dx: int, dy: int) -> Seq<Coordinates> {
        if self.offset_in_bounds(c, dx, dy) {
            seq![offset_coord(c, dx, dy)]
        } else {
            Seq::empty()
        }
    }

    /// The in-bounds neighbors of `c`, in a fixed row-by-row order:
    /// 8 for an interior cell, fewer at the grid's edge.
    pub open spec fn spec_neighbors(self, c: Coordinates) -> Seq<Coordinates> {
        self.neighbor_seq(c, -1, -1) + self.neighbor_seq(c, 0, -1) + self.neighbor_seq(c, 1, -1)
            + self.neighbor_seq(c, -1, 0) + self.neighbor_seq(c, 1, 0) + self.neighbor_seq(
            c,
            -1,
            1,
        ) + self.neighbor_seq(c, 0, 1) + self.neighbor_seq(c, 1, 1)
    }

    /// Exact number of bombs among the in-bounds neighbors of `c`.
    pub open spec fn spec_adjacent_bombs(self, c: Coordinates) -> int {
        adjacent_bombs(self.tiles(), self.spec_width(), self.spec_height(), c)
    }

    /// The tile a bomb-free cell must hold for a given adjacency count:
    /// `Empty` for zero, else the exact count.
    pub open spec fn count_to_tile(n: int) -> Tile {
        if n == 0 {
            Tile::Empty
        } else {
            Tile::BombNeighbor(n as u8)
        }
    }

    /// Every bomb-free cell reports its exact adjacency count.
    pub open spec fn counts_consistent(self) -> bool {
        forall|c: Coordinates|
            self.spec_in_bounds(c) && !(#[trigger] self.spec_tile_at(c) is Bomb)
                ==> self.spec_tile_at(c) == Self::count_to_tile(self.spec_adjacent_bombs(c))
    }

    /// Well-formedness: positive dimensions, a tile for every cell, a
    /// bomb tally that matches the grid, and exact adjacency counts.
    pub open spec fn wf(self) -> bool {
        &&& 1 <= self.spec_width() <= u16::MAX
        &&& 1 <= self.spec_height() <= u16::MAX
        &&& self.tiles().len() == self.spec_width() * self.spec_height()
        &&& self.spec_bomb_count() == count_bombs(self.tiles())
        &&& self.counts_consistent()
    }

    /// Number of columns.
    pub fn width(&self) -> (r: u16)
        ensures
            r == self.spec_width(),
    {
        self.width
    }

    /// Number of rows.
    pub fn height(&self) -> (r: u16)
        ensures
            r == self.spec_height(),
    {
        self.height
    }

    /// Number of bombs the field holds.
    pub fn bomb_count(&self) -> (r: u16)
        ensures
            r == self.spec_bomb_count(),
    {
        self.bomb_count
    }

    /// Whether a coordinate lies on the grid.
    pub fn in_bounds(&self, c: &Coordinates) -> (r: bool)
        ensures
            r == self.spec_in_bounds(*c),
    {
        c.x < self.width && c.y < self.height
    }

    /// Row-major index of an in-bounds coordinate, as a machine integer.
    pub(crate) fn index_of(&self, c: &Coordinates) -> (r: usize)
        requires
            self.spec_in_bounds(*c),
            self.tiles().len() == self.spec_width() * self.spec_height(),
        ensures
            r == self.spec_index(*c),
            r < self.tiles().len(),
    {
        flat_index(self.width, self.height, c)
    }

    /// A field of the given dimensions with every tile `Empty`.
    ///
    /// Zero width or height is rejected with `InvalidDimensions`.
    pub fn empty(width: u16, height: u16) -> (r: Result<TileMap, BoardError>)
        ensures
            r is Ok <==> width > 0 && height > 0,
            r matches Ok(tm) ==> {
                &&& tm.wf()
                &&& tm.spec_width() == width
                &&& tm.spec_height() == height
                &&& tm.spec_bomb_count() == 0
                &&& forall|c: Coordinates|
                    tm.spec_in_bounds(c) ==> #[trigger] tm.spec_tile_at(c) == Tile::Empty
            },
            r matches Err(e) ==> e == BoardError::InvalidDimensions,
    {
        if width == 0 || height == 0 {
            return Err(BoardError::InvalidDimensions);
        }
        proof {
            lemma_total_fits(width as int, height as int);
        }
        let total: usize = (width as usize) * (height as usize);
        let map: Vec<Tile> = vec![Tile::Empty; total];
        let tm = TileMap { width, height, bomb_count: 0, map };
        proof {
            tm.lemma_all_empty_wf();
        }
        Ok(tm)
    }

    /// In a field without bombs, no cell has adjacent bombs.
    pub proof fn lemma_bomb_free_has_no_adjacent_bombs(self, c: Coordinates)
        requires
            self.tiles().len() == self.spec_width() * self.spec_height(),
            forall|i: int| 0 <= i < self.tiles().len() ==> !(#[trigger] self.tiles()[i] is Bomb),
        ensures
            self.spec_adjacent_bombs(c) == 0,
    {
        assert forall|dx: int, dy: int| -1 <= dx <= 1 && -1 <= dy <= 1 implies #[trigger] bomb_step(
            self.tiles(),
            self.spec_width(),
            self.spec_height(),
            c,
            dx,
            dy,
        ) == 0 by {
            if offset_stays(self.spec_width(), self.spec_height(), c, dx, dy) {
                lemma_index_range(self.spec_width(), self.spec_height(), offset_coord(c, dx, dy));
            }
        }
    }

    /// A grid of `Empty` tiles with a zero tally is well formed.
    proof fn lemma_all_empty_wf(self)
        requires
            1 <= self.spec_width(),
            1 <= self.spec_height(),
            self.tiles().len() == self.spec_width() * self.spec_height(),
            self.spec_bomb_count() == 0,
            forall|i: int| 0 <= i < self.tiles().len() ==> #[trigger] self.tiles()[i] == Tile::Empty,
        ensures
            self.wf(),
            forall|c: Coordinates|
                self.spec_in_bounds(c) ==> #[trigger] self.spec_tile_at(c) == Tile::Empty,
    {
        lemma_count_bombs_bomb_free(self.tiles());
        assert forall|c: Coordinates| self.spec_in_bounds(c) implies #[trigger] self.spec_tile_at(c)
            == Tile::Empty by {
            lemma_index_range(self.spec_width(), self.spec_height(), c);
        }
        assert forall|c: Coordinates|
            self.spec_in_bounds(c) && !(#[trigger] self.spec_tile_at(c) is Bomb) implies self
            .spec_tile_at(c) == Self::count_to_tile(self.spec_adjacent_bombs(c)) by {
            self.lemma_bomb_free_has_no_adjacent_bombs(c);
        }
    }

    /// The tile at a coordinate known to lie on the grid.
    pub(crate) fn tile_at_in_bounds(&self, c: &Coordinates) -> (r: Tile)
        requires
            self.wf(),
            self.spec_in_bounds(*c),
        ensures
            r == self.spec_tile_at(*c),
    {
        let pos = self.index_of(c);
        self.map[pos]
    }

    /// The tile at `c`, or `OutOfBounds` when `c` lies outside the grid.
    pub fn tile_at(&self, c: &Coordinates) -> (r: Result<Tile, BoardError>)
        requires
            self.wf(),
        ensures
            r is Ok <==> self.spec_in_bounds(*c),
            r matches Ok(t) ==> t == self.spec_tile_at(*c),
            r matches Err(e) ==> e == BoardError::OutOfBounds,
    {
        if c.x < self.width && c.y < self.height {
            Ok(self.tile_at_in_bounds(c))
        } else {
            Err(BoardError::OutOfBounds)
        }
    }

    /// The in-bounds neighbors of `c`: the up-to-8 surrounding cells,
    /// fewer at edges and corners.
    pub fn neighbors_of(&self, c: &Coordinates) -> (r: Vec<Coordinates>)
        ensures
            r@ == self.spec_neighbors(*c),
    {
        let mut r: Vec<Coordinates> = Vec::new();
        let w: u32 = self.width as u32;
        let h: u32 = self.height as u32;
        let x: u32 = c.x as u32;
        let y: u32 = c.y as u32;
        if x >= 1 && x - 1 < w && y >= 1 && y - 1 < h {
            r.push(Coordinates { x: c.x - 1, y: c.y - 1 });
        }
        if y >= 1 && x < w && y - 1 < h {
            r.push(Coordinates { x: c.x, y: c.y - 1 });
        }
        if x + 1 < w && y >= 1 && y - 1 < h {
            r.push(Coordinates { x: c.x + 1, y: c.y - 1 });
        }
        if x >= 1 && x - 1 < w && y < h {
            r.push(Coordinates { x: c.x - 1, y: c.y });
        }
        if x + 1 < w && y < h {
            r.push(Coordinates { x: c.x + 1, y: c.y });
        }
        if x >= 1 && x - 1 < w && y + 1 < h {
            r.push(Coordinates { x: c.x - 1, y: c.y + 1 });
        }
        if x < w && y + 1 < h {
            r.push(Coordinates { x: c.x, y: c.y + 1 });
        }
        if x + 1 < w && y + 1 < h {
            r.push(Coordinates { x: c.x + 1, y: c.y + 1 });
        }
        proof {
            assert(r@ =~= self.spec_neighbors(*c));
        }
        r
    }

    /// A field with bombs at exactly the given coordinates, every other
    /// cell holding its exact adjacency count.
    ///
    /// This is the deterministic entry into generation: the coordinates
    /// must be distinct, on the grid, and leave at least one bomb-free
    /// cell.
    pub fn with_bomb_coordinates(width: u16, height: u16, bombs: &Vec<Coordinates>) -> (tm: TileMap)
        requires
            width >= 1,
            height >= 1,
            bombs@.no_duplicates(),
            forall|i: int|
                0 <= i < bombs@.len() ==> coord_in_bounds(
                    width as int,
                    height as int,
                    #[trigger] bombs@[i],
                ),
            bombs@.len() < width * height,
            bombs@.len() <= u16::MAX,
        ensures
            tm.wf(),
            tm.spec_width() == width,
            tm.spec_height() == height,
            tm.spec_bomb_count() == bombs@.len(),
            forall|c: Coordinates|
                tm.spec_in_bounds(c) ==> (#[trigger] tm.spec_tile_at(c) is Bomb <==> bombs@.contains(
                    c,
                )),
    {
        proof {
            lemma_total_fits(width as int, height as int);
        }
        let total: usize = (width as usize) * (height as usize);
        let mut map: Vec<Tile> = vec![Tile::Empty; total];
        place_bombs(&mut map, width, height, bombs);
        let ghost placed = map@;
        fill_counts(&mut map, width, height);
        proof {
            lemma_count_bombs_stable(placed, map@);
        }
        let tm = TileMap { width, height, bomb_count: bombs.len() as u16, map };
        proof {
            assert forall|c: Coordinates| tm.spec_in_bounds(c) implies (
            #[trigger] tm.spec_tile_at(c) is Bomb <==> bombs@.contains(c)) by {
                lemma_index_range(width as int, height as int, c);
            }
            assert forall|c: Coordinates|
                tm.spec_in_bounds(c) && !(#[trigger] tm.spec_tile_at(c) is Bomb) implies tm
                .spec_tile_at(c) == Self::count_to_tile(tm.spec_adjacent_bombs(c)) by {
                lemma_index_range(width as int, height as int, c);
                lemma_coord_of_index(width as int, height as int, c);
            }
        }
        tm
    }

    /// A field with `bomb_count` bombs placed pseudo-randomly from the
    /// seed, capped so that at least one bomb-free cell remains.
    ///
    /// Zero width or height is rejected with `InvalidDimensions`; an
    /// oversized bomb request is clamped, not rejected. The same seed
    /// and dimensions reproduce the same field.
    pub fn generate(width: u16, height: u16, bomb_count: u16, seed: u64) -> (r: Result<
        TileMap,
        BoardError,
    >)
        ensures
            r is Ok <==> width > 0 && height > 0,
            r matches Ok(tm) ==> {
                &&& tm.wf()
                &&& tm.spec_width() == width
                &&& tm.spec_height() == height
                &&& tm.spec_bomb_count() == clamped_bomb_count(
                    bomb_count as int,
                    width as int,
                    height as int,
                )
            },
            r matches Err(e) ==> e == BoardError::InvalidDimensions,
    {
        if width == 0 || height == 0 {
            return Err(BoardError::InvalidDimensions);
        }
        Ok(Self::generate_grid(width, height, bomb_count, seed))
    }

    /// Replaces the field's content with a fresh pseudo-random bomb
    /// layout of the same dimensions, recomputing every adjacency
    /// count; the requested count is clamped as in `generate`.
    pub fn set_bombs(&mut self, bomb_count: u16, seed: u64)
        requires
            old(self).wf(),
        ensures
            final(self).wf(),
            final(self).spec_width() == old(self).spec_width(),
            final(self).spec_height() == old(self).spec_height(),
            final(self).spec_bomb_count() == clamped_bomb_count(
                bomb_count as int,
                old(self).spec_width(),
                old(self).spec_height(),
            ),
    {
        let tm = Self::generate_grid(self.width, self.height, bomb_count, seed);
        *self = tm;
    }

    /// Generation on validated dimensions.
    fn generate_grid(width: u16, height: u16, bomb_count: u16, seed: u64) -> (tm: TileMap)
        requires
            width >= 1,
            height >= 1,
        ensures
            tm.wf(),
            tm.spec_width() == width,
            tm.spec_height() == height,
            tm.spec_bomb_count() == clamped_bomb_count(
                bomb_count as int,
                width as int,
                height as int,
            ),
    {
        proof {
            lemma_total_fits(width as int, height as int);
        }
        let total: usize = (width as usize) * (height as usize);
        let k: usize = if (bomb_count as usize) <= total - 1 {
            bomb_count as usize
        } else {
            total - 1
        };
        let mut rng = SeededRng::new(seed);
        let bombs = pick_bomb_coordinates(width, height, k, &mut rng);
        Self::with_bomb_coordinates(width, height, &bombs)
    }

    /// Some coordinate of an `Empty` tile, in row-major scan order, or
    /// `None` when every bomb-free cell borders a bomb.
    ///
    /// With the safe-start option, the caller reveals this cell before
    /// the first interaction: the first revealed cell is then never a
    /// bomb.
    pub fn safe_start_coordinate(&self) -> (r: Option<Coordinates>)
        requires
            self.wf(),
        ensures
            r matches Some(c) ==> self.spec_in_bounds(c) && self.spec_tile_at(c) == Tile::Empty,
            r is None ==> forall|c: Coordinates|
                self.spec_in_bounds(c) ==> #[trigger] self.spec_tile_at(c) != Tile::Empty,
    {
        let total: usize = self.map.len();
        let mut pos: usize = 0;
        while pos < total
            invariant
                pos <= total,
                self.wf(),
                total == self.tiles().len(),
                forall|idx: int| 0 <= idx < pos ==> #[trigger] self.tiles()[idx] != Tile::Empty,
            decreases total - pos,
        {
            if self.map[pos] == Tile::Empty {
                proof {
                    lemma_div_mod_coord(pos as int, self.spec_width(), self.spec_height());
                }
                let x: u16 = (pos % (self.width as usize)) as u16;
                let y: u16 = (pos / (self.width as usize)) as u16;
                return Some(Coordinates { x, y });
            }
            pos += 1;
        }
        proof {
            assert forall|c: Coordinates| self.spec_in_bounds(c) implies #[trigger] self.spec_tile_at(
                c,
            ) != Tile::Empty by {
                lemma_index_range(self.spec_width(), self.spec_height(), c);
            }
        }
        None
    }
}

/// Every coordinate of the grid, in row-major order: element `i` has
/// row-major index `i`.
fn all_coordinates(width: u16, height: u16) -> (r: Vec<Coordinates>)
    requires
        width >= 1,
        height >= 1,
    ensures
        r@.len() == width as int * height as int,
        forall|i: int|
            0 <= i < r@.len() ==> coord_in_bounds(width as int, height as int, #[trigger] r@[i])
                && coord_index(width as int, r@[i]) == i,
        r@.no_duplicates(),
{
    proof {
        lemma_total_fits(width as int, height as int);
    }
    let total: usize = (width as usize) * (height as usize);
    let mut r: Vec<Coordinates> = Vec::new();
    let mut pos: usize = 0;
    while pos < total
        invariant
            pos <= total,
            r@.len() == pos,
            total == width as int * height as int,
            width >= 1,
            height >= 1,
            forall|i: int|
                0 <= i < pos ==> coord_in_bounds(width as int, height as int, #[trigger] r@[i])
                    && coord_index(width as int, r@[i]) == i,
        decreases total - pos,
    {
        proof {
            lemma_div_mod_coord(pos as int, width as int, height as int);
        }
        let x: u16 = (pos % (width as usize)) as u16;
        let y: u16 = (pos / (width as usize)) as u16;
        r.push(Coordinates { x, y });
        pos += 1;
    }
    r
}

/// `k` distinct in-bounds coordinates, drawn from the seeded generator
/// by a partial shuffle of the full coordinate list.
fn pick_bomb_coordinates(width: u16, height: u16, k: usize, rng: &mut SeededRng) -> (r: Vec<
    Coordinates,
>)
    requires
        width >= 1,
        height >= 1,
        k <= width as int * height as int,
    ensures
        r@.len() == k,
        r@.no_duplicates(),
        forall|i: int|
            0 <= i < r@.len() ==> coord_in_bounds(width as int, height as int, #[trigger] r@[i]),
{
    let mut coords = all_coordinates(width, height);
    let total: usize = coords.len();
    let mut i: usize = 0;
    while i < k
        invariant
            i <= k,
            k <= total,
            coords@.len() == total,
            coords@.no_duplicates(),
            forall|m: int|
                0 <= m < total ==> coord_in_bounds(
                    width as int,
                    height as int,
                    #[trigger] coords@[m],
                ),
        decreases k - i,
    {
        let remaining: u64 = (total - i) as u64;
        let offset = rng.next_below(remaining);
        let j: usize = i + (offset as usize);
        let ghost before = coords@;
        swap_coords(&mut coords, i, j);
        proof {
            lemma_swap_preserves_distinct(before, i as int, j as int);
        }
        i += 1;
    }
    coords.truncate(k);
    coords
}

/// Exchanges two elements of a vector.
fn swap_coords(v: &mut Vec<Coordinates>, i: usize, j: usize)
    requires
        i < old(v).len(),
        j < old(v).len(),
    ensures
        final(v)@ == old(v)@.update(i as int, old(v)@[j as int]).update(j as int, old(v)@[i as int]),
{
    let a = v[i];
    let b = v[j];
    v[i] = b;
    v[j] = a;
}

/// Exchanging two elements keeps a sequence free of duplicates.
pub proof fn lemma_swap_preserves_distinct(s: Seq<Coordinates>, i: int, j: int)
    requires
        0 <= i < s.len(),
        0 <= j < s.len(),
        s.no_duplicates(),
    ensures
        s.update(i, s[j]).update(j, s[i]).no_duplicates(),
{
    let s2 = s.update(i, s[j]).update(j, s[i]);
    assert forall|a: int, b: int|
        0 <= a < s2.len() && 0 <= b < s2.len() && a != b implies s2[a] != s2[b] by {
        if a == j {
            assert(s2[a] == s[i]);
        } else if a == i {
            assert(s2[a] == s[j]);
        } else {
            assert(s2[a] == s[a]);
        }
        if b == j {
            assert(s2[b] == s[i]);
        } else if b == i {
            assert(s2[b] == s[j]);
        } else {
            assert(s2[b] == s[b]);
        }
    }
}

/// Sets `Bomb` at each of the given distinct in-bounds coordinates of
/// an all-`Empty` grid.
fn place_bombs(map: &mut Vec<Tile>, width: u16, height: u16, bombs: &Vec<Coordinates>)
    requires
        width >= 1,
        height >= 1,
        old(map)@.len() == width as int * height as int,
        forall|idx: int| 0 <= idx < old(map)@.len() ==> #[trigger] old(map)@[idx] == Tile::Empty,
        bombs@.no_duplicates(),
        forall|i: int|
            0 <= i < bombs@.len() ==> coord_in_bounds(
                width as int,
                height as int,
                #[trigger] bombs@[i],
            ),
    ensures
        final(map)@.len() == old(map)@.len(),
        forall|c: Coordinates|
            coord_in_bounds(width as int, height as int, c) ==> (#[trigger] final(map)@[coord_index(
                width as int,
                c,
            )] is Bomb <==> bombs@.contains(c)),
        count_bombs(final(map)@) == bombs@.len(),
{
    proof {
        assert forall|idx: int| 0 <= idx < map@.len() implies !(#[trigger] map@[idx] is Bomb) by {}
        lemma_count_bombs_bomb_free(map@);
        assert forall|c: Coordinates| coord_in_bounds(width as int, height as int, c) implies !(
        #[trigger] map@[coord_index(width as int, c)] is Bomb) by {
            lemma_index_range(width as int, height as int, c);
        }
    }
    let mut i: usize = 0;
    while i < bombs.len()
        invariant
            i <= bombs@.len(),
            map@.len() == width as int * height as int,
            width >= 1,
            height >= 1,
            bombs@.no_duplicates(),
            forall|j: int|
                0 <= j < bombs@.len() ==> coord_in_bounds(
                    width as int,
                    height as int,
                    #[trigger] bombs@[j],
                ),
            forall|c: Coordinates|
                coord_in_bounds(width as int, height as int, c) ==> (#[trigger] map@[coord_index(
                    width as int,
                    c,
                )] is Bomb <==> bombs@.take(i as int).contains(c)),
            count_bombs(map@) == i,
        decreases bombs@.len() - i,
    {
        let c = bombs[i];
        let pos = flat_index(width, height, &c);
        let ghost old_map = map@;
        proof {
            // The cell is not yet a bomb: `c` is not among the first `i`.
            if old_map[pos as int] is Bomb {
                let ghost j = choose|j: int|
                    0 <= j < i && #[trigger] bombs@.take(i as int)[j] == c;
                assert(bombs@[j] == c);
                assert(false);
            }
            lemma_count_bombs_update(old_map, pos as int, Tile::Bomb);
        }
        map[pos] = Tile::Bomb;
        proof {
            assert forall|d: Coordinates| coord_in_bounds(width as int, height as int, d) implies (
            #[trigger] map@[coord_index(width as int, d)] is Bomb <==> bombs@.take(
                i as int + 1,
            ).contains(d)) by {
                lemma_index_range(width as int, height as int, d);
                if d == c {
                    assert(bombs@.take(i as int + 1)[i as int] == c);
                } else {
                    lemma_index_injective(width as int, height as int, d, c);
                    assert(map@[coord_index(width as int, d)] == old_map[coord_index(
                        width as int,
                        d,
                    )]);
                    assert(bombs@.take(i as int + 1).contains(d) <==> bombs@.take(
                        i as int,
                    ).contains(d)) by {
                        if bombs@.take(i as int + 1).contains(d) {
                            let j = choose|j: int|
                                0 <= j < i + 1 && #[trigger] bombs@.take(i as int + 1)[j] == d;
                            assert(bombs@.take(i as int)[j] == d);
                        }
                        if bombs@.take(i as int).contains(d) {
                            let j = choose|j: int|
                                0 <= j < i && #[trigger] bombs@.take(i as int)[j] == d;
                            assert(bombs@.take(i as int + 1)[j] == d);
                        }
                    }
                }
            }
        }
        i += 1;
    }
    proof {
        assert(bombs@.take(bombs@.len() as int) =~= bombs@);
    }
}

/// Rewrites every bomb-free cell with its exact adjacency count,
/// leaving the bomb layout as it stands.
fn fill_counts(map: &mut Vec<Tile>, width: u16, height: u16)
    requires
        width >= 1,
        height >= 1,
        old(map)@.len() == width as int * height as int,
    ensures
        final(map)@.len() == old(map)@.len(),
        forall|idx: int|
            0 <= idx < final(map)@.len() ==> ((#[trigger] final(map)@[idx] is Bomb) <==> old(map)@[idx] is Bomb),
        forall|idx: int|
            0 <= idx < final(map)@.len() && !(#[trigger] final(map)@[idx] is Bomb)
                ==> final(map)@[idx] == TileMap::count_to_tile(
                adjacent_bombs(
                    final(map)@,
                    width as int,
                    height as int,
                    coord_of(width as int, idx),
                ),
            ),
{
    let total: usize = map.len();
    let mut pos: usize = 0;
    while pos < total
        invariant
            pos <= total,
            map@.len() == total,
            total == width as int * height as int,
            width >= 1,
            height >= 1,
            forall|idx: int|
                0 <= idx < total ==> ((#[trigger] map@[idx] is Bomb) <==> old(map)@[idx] is Bomb),
            forall|idx: int|
                0 <= idx < pos && !(#[trigger] map@[idx] is Bomb) ==> map@[idx]
                    == TileMap::count_to_tile(
                    adjacent_bombs(map@, width as int, height as int, coord_of(width as int, idx)),
                ),
        decreases total - pos,
    {
        proof {
            lemma_div_mod_coord(pos as int, width as int, height as int);
        }
        let x: u16 = (pos % (width as usize)) as u16;
        let y: u16 = (pos / (width as usize)) as u16;
        let c = Coordinates { x, y };
        proof {
            assert(coord_of(width as int, pos as int) == c);
            assert(coord_index(width as int, c) == pos);
        }
        if !map[pos].is_bomb() {
            let n = count_adjacent_bombs(map, width, height, &c);
            let ghost before = map@;
            let t = if n == 0 {
                Tile::Empty
            } else {
                Tile::BombNeighbor(n)
            };
            map[pos] = t;
            proof {
                assert forall|idx: int|
                    0 <= idx < pos + 1 && !(#[trigger] map@[idx] is Bomb) implies map@[idx]
                    == TileMap::count_to_tile(
                    adjacent_bombs(map@, width as int, height as int, coord_of(width as int, idx)),
                ) by {
                    lemma_adjacent_bombs_stable(
                        before,
                        map@,
                        width as int,
                        height as int,
                        coord_of(width as int, idx),
                    );
                }
            }
        }
        pos += 1;
    }
}


/// The coordinate whose row-major index is `idx`.
pub open spec fn coord_of(width: int, idx: int) -> Coordinates {
    Coordinates { x: (idx % width) as u16, y: (idx / width) as u16 }
}

/// Row-major index and coordinate convert back and forth.
pub proof fn lemma_coord_of_index(width: int, height: int, c: Coordinates)
    requires
        0 <= c.x < width,
        0 <= c.y < height,
    ensures
        coord_of(width, coord_index(width, c)) == c,
{
    let idx = coord_index(width, c);
    assert(idx % width == c.x && idx / width == c.y) by (nonlinear_arith)
        requires
            0 <= c.x < width,
            0 <= c.y,
            idx == c.y * width + c.x,
    ;
}

/// Splitting an index below `width * height` by `width` gives an
/// in-bounds coordinate.
pub proof fn lemma_div_mod_coord(pos: int, width: int, height: int)
    requires
        0 <= pos < width * height,
        1 <= width <= u16::MAX,
        1 <= height <= u16::MAX,
    ensures
        0 <= pos % width < width,
        0 <= pos / width < height,
        (pos / width) * width + (pos % width) == pos,
        coord_index(width, coord_of(width, pos)) == pos,
{
    assert(0 <= pos % width < width && 0 <= pos / width < height && (pos / width) * width + (pos
        % width) == pos) by (nonlinear_arith)
        requires
            0 <= pos < width * height,
            1 <= width,
    ;
    assert((pos % width) as u16 == pos % width);
    assert((pos / width) as u16 == pos / width);
}

/// Row-major index of an in-bounds coordinate, as a machine integer.
fn flat_index(width: u16, height: u16, c: &Coordinates) -> (r: usize)
    requires
        coord_in_bounds(width as int, height as int, *c),
    ensures
        r == coord_index(width as int, *c),
        r < width as int * height as int,
{
    proof {
        lemma_total_fits(width as int, height as int);
        lemma_index_range(width as int, height as int, *c);
    }
    (c.y as usize) * (width as usize) + (c.x as usize)
}

/// Exact number of bombs among the in-bounds neighbors of `c`.
fn count_adjacent_bombs(map: &Vec<Tile>, width: u16, height: u16, c: &Coordinates) -> (n: u8)
    requires
        width >= 1,
        height >= 1,
        map@.len() == width as int * height as int,
        coord_in_bounds(width as int, height as int, *c),
    ensures
        n as int == adjacent_bombs(map@, width as int, height as int, *c),
        n <= 8,
{
    let w: u32 = width as u32;
    let h: u32 = height as u32;
    let x: u32 = c.x as u32;
    let y: u32 = c.y as u32;
    let mut n: u8 = 0;
    if x >= 1 && y >= 1 && bomb_at(map, width, height, c.x - 1, c.y - 1) {
        n += 1;
    }
    if y >= 1 && bomb_at(map, width, height, c.x, c.y - 1) {
        n += 1;
    }
    if x + 1 < w && y >= 1 && bomb_at(map, width, height, c.x + 1, c.y - 1) {
        n += 1;
    }
    if x >= 1 && bomb_at(map, width, height, c.x - 1, c.y) {
        n += 1;
    }
    if x + 1 < w && bomb_at(map, width, height, c.x + 1, c.y) {
        n += 1;
    }
    if x >= 1 && y + 1 < h && bomb_at(map, width, height, c.x - 1, c.y + 1) {
        n += 1;
    }
    if y + 1 < h && bomb_at(map, width, height, c.x, c.y + 1) {
        n += 1;
    }
    if x + 1 < w && y + 1 < h && bomb_at(map, width, height, c.x + 1, c.y + 1) {
        n += 1;
    }
    n
}

/// Whether the in-bounds cell `(x, y)` holds a bomb.
fn bomb_at(map: &Vec<Tile>, width: u16, height: u16, x: u16, y: u16) -> (r: bool)
    requires
        map@.len() == width as int * height as int,
        coord_in_bounds(width as int, height as int, Coordinates { x, y }),
    ensures
        r == map@[coord_index(width as int, Coordinates { x, y })] is Bomb,
{
    let pos = flat_index(width, height, &Coordinates { x, y });
    map[pos].is_bomb()
}

/// Replacing one tile changes the bomb tally by the difference the two
/// tiles contribute.
pub proof fn lemma_count_bombs_update(s: Seq<Tile>, i: int, t: Tile)
    requires
        0 <= i < s.len(),
    ensures
        count_bombs(s.update(i, t)) == count_bombs(s) - (if s[i] is Bomb {
            1int
        } else {
            0int
        }) + (if t is Bomb {
            1int
        } else {
            0int
        }),
    decreases s.len(),
{
    let s2 = s.update(i, t);
    if i == s.len() - 1 {
        assert(s2.drop_last() =~= s.drop_last());
    } else {
        assert(s2.drop_last() =~= s.drop_last().update(i, t));
        lemma_count_bombs_update(s.drop_last(), i, t);
    }
}

/// The adjacency count of a cell depends only on where the bombs are.
pub proof fn lemma_adjacent_bombs_stable(
    t1: Seq<Tile>,
    t2: Seq<Tile>,
    width: int,
    height: int,
    c: Coordinates,
)
    requires
        t1.len() == width * height,
        t2.len() == width * height,
        forall|i: int| 0 <= i < t1.len() ==> ((#[trigger] t1[i] is Bomb) <==> t2[i] is Bomb),
    ensures
        adjacent_bombs(t1, width, height, c) == adjacent_bombs(t2, width, height, c),
{
    assert forall|dx: int, dy: int| -1 <= dx <= 1 && -1 <= dy <= 1 implies #[trigger] bomb_step(
        t1,
        width,
        height,
        c,
        dx,
        dy,
    ) == bomb_step(t2, width, height, c, dx, dy) by {
        if offset_stays(width, height, c, dx, dy) {
            lemma_index_range(width, height, offset_coord(c, dx, dy));
        }
    }
}

/// A grid with dimensions that fit `u16` has fewer cells than fit in
/// 32 bits.
pub proof fn lemma_total_fits(width: int, height: int)
    requires
        0 <= width <= u16::MAX,
        0 <= height <= u16::MAX,
    ensures
        0 <= width * height <= 0xFFFE0001,
        width >= 1 && height >= 1 ==> width * height >= 1,
{
    assert(width * height <= 0xFFFE0001) by (nonlinear_arith)
        requires
            0 <= width <= 0xFFFF,
            0 <= height <= 0xFFFF,
    ;
    assert(0 <= width * height) by (nonlinear_arith)
        requires
            0 <= width,
            0 <= height,
    ;
    if width >= 1 && height >= 1 {
        assert(width * height >= 1) by (nonlinear_arith)
            requires
                width >= 1,
                height >= 1,
        ;
    }
}

/// An in-bounds coordinate's row-major index lies within the grid.
pub proof fn lemma_index_range(width: int, height: int, c: Coordinates)
    requires
        0 <= c.x < width,
        0 <= c.y < height,
    ensures
        0 <= c.y * width + c.x < width * height,
{
    assert(c.y * width + c.x < width * height) by (nonlinear_arith)
        requires
            0 <= c.x < width,
            0 <= c.y < height,
    ;
}

/// Distinct in-bounds coordinates have distinct row-major indices.
pub proof fn lemma_index_injective(width: int, height: int, a: Coordinates, b: Coordinates)
    requires
        0 <= a.x < width,
        0 <= a.y < height,
        0 <= b.x < width,
        0 <= b.y < height,
        a != b,
    ensures
        a.y * width + a.x != b.y * width + b.x,
{
    assert(a.y * width + a.x != b.y * width + b.x) by (nonlinear_arith)
        requires
            0 <= a.x < width,
            0 <= a.y < height,
            0 <= b.x < width,
            0 <= b.y < height,
            a.x != b.x || a.y != b.y,
    ;
}

/// A corner cell of a grid with both dimensions at least 2 has exactly
/// 3 neighbors.
pub proof fn lemma_neighbors_corner(tm: TileMap, c: Coordinates)
    requires
        tm.spec_width() >= 2,
        tm.spec_height() >= 2,
        tm.spec_in_bounds(c),
        c.x == 0 || c.x == tm.spec_width() - 1,
        c.y == 0 || c.y == tm.spec_height() - 1,
    ensures
        tm.spec_neighbors(c).len() == 3,
{
}

/// A non-corner edge cell of a grid with both dimensions at least 2
/// has exactly 5 neighbors.
pub proof fn lemma_neighbors_edge(tm: TileMap, c: Coordinates)
    requires
        tm.spec_width() >= 2,
        tm.spec_height() >= 2,
        tm.spec_in_bounds(c),
        c.x == 0 || c.x == tm.spec_width() - 1 || c.y == 0 || c.y == tm.spec_height() - 1,
        !((c.x == 0 || c.x == tm.spec_width() - 1) && (c.y == 0 || c.y == tm.spec_height() - 1)),
    ensures
        tm.spec_neighbors(c).len() == 5,
{
}

/// An interior cell has exactly 8 neighbors.
pub proof fn lemma_neighbors_interior(tm: TileMap, c: Coordinates)
    requires
        1 <= c.x < tm.spec_width() - 1,
        1 <= c.y < tm.spec_height() - 1,
    ensures
        tm.spec_neighbors(c).len() == 8,
{
}

/// Membership in a concatenation is membership in either part.
pub proof fn lemma_add_contains<A>(a: Seq<A>, b: Seq<A>, x: A)
    ensures
        (a + b).contains(x) <==> a.contains(x) || b.contains(x),
{
    if a.contains(x) {
        let i = choose|i: int| 0 <= i < a.len() && #[trigger] a[i] == x;
        assert((a + b)[i] == x);
    }
    if b.contains(x) {
        let i = choose|i: int| 0 <= i < b.len() && #[trigger] b[i] == x;
        assert((a + b)[a.len() + i] == x);
    }
    if (a + b).contains(x) {
        let i = choose|i: int| 0 <= i < (a + b).len() && #[trigger] (a + b)[i] == x;
        if i < a.len() {
            assert(a[i] == x);
        } else {
            assert(b[i - a.len()] == x);
        }
    }
}

/// The neighbor list holds exactly the in-bounds cells adjacent to `c`.
pub proof fn lemma_neighbors_exact(tm: TileMap, c: Coordinates, d: Coordinates)
    ensures
        tm.spec_neighbors(c).contains(d) <==> tm.spec_in_bounds(d) && c.is_adjacent_to(d),
{
    let s1 = tm.neighbor_seq(c, -1, -1);
    let s2 = tm.neighbor_seq(c, 0, -1);
    let s3 = tm.neighbor_seq(c, 1, -1);
    let s4 = tm.neighbor_seq(c, -1, 0);
    let s5 = tm.neighbor_seq(c, 1, 0);
    let s6 = tm.neighbor_seq(c, -1, 1);
    let s7 = tm.neighbor_seq(c, 0, 1);
    let s8 = tm.neighbor_seq(c, 1, 1);
    let p2 = s1 + s2;
    let p3 = p2 + s3;
    let p4 = p3 + s4;
    let p5 = p4 + s5;
    let p6 = p5 + s6;
    let p7 = p6 + s7;
    let p8 = p7 + s8;
    assert(tm.spec_neighbors(c) == p8);
    lemma_add_contains(s1, s2, d);
    lemma_add_contains(p2, s3, d);
    lemma_add_contains(p3, s4, d);
    lemma_add_contains(p4, s5, d);
    lemma_add_contains(p5, s6, d);
    lemma_add_contains(p6, s7, d);
    lemma_add_contains(p7, s8, d);
    if tm.spec_in_bounds(d) && c.is_adjacent_to(d) {
        let dx = d.x - c.x;
        let dy = d.y - c.y;
        assert(offset_coord(c, dx, dy) == d);
        assert(tm.offset_in_bounds(c, dx, dy));
        assert(tm.neighbor_seq(c, dx, dy)[0] == d);
    }
}

/// Sequences with bombs at the same places count the same tally.
pub proof fn lemma_count_bombs_stable(t1: Seq<Tile>, t2: Seq<Tile>)
    requires
        t1.len() == t2.len(),
        forall|i: int| 0 <= i < t1.len() ==> ((#[trigger] t1[i] is Bomb) <==> t2[i] is Bomb),
    ensures
        count_bombs(t1) == count_bombs(t2),
    decreases t1.len(),
{
    if t1.len() > 0 {
        lemma_count_bombs_stable(t1.drop_last(), t2.drop_last());
    }
}

/// The bomb tally of a sequence is never negative.
pub proof fn lemma_count_bombs_nonneg(s: Seq<Tile>)
    ensures
        count_bombs(s) >= 0,
    decreases s.len(),
{
    if s.len() > 0 {
        lemma_count_bombs_nonneg(s.drop_last());
    }
}

/// A zero bomb tally means no cell holds a bomb.
pub proof fn lemma_count_bombs_zero(s: Seq<Tile>)
    requires
        count_bombs(s) == 0,
    ensures
        forall|i: int| 0 <= i < s.len() ==> !(#[trigger] s[i] is Bomb),
    decreases s.len(),
{
    if s.len() > 0 {
        lemma_count_bombs_nonneg(s.drop_last());
        lemma_count_bombs_zero(s.drop_last());
        assert forall|i: int| 0 <= i < s.len() implies !(#[trigger] s[i] is Bomb) by {
            if i < s.len() - 1 {
                assert(s.drop_last()[i] == s[i]);
            }
        }
    }
}

/// In a well-formed field without bombs, every tile is `Empty`.
pub proof fn lemma_no_bombs_all_empty(tm: TileMap)
    requires
        tm.wf(),
        tm.spec_bomb_count() == 0,
    ensures
        forall|c: Coordinates|
            tm.spec_in_bounds(c) ==> #[trigger] tm.spec_tile_at(c) == Tile::Empty,
{
    lemma_count_bombs_zero(tm.tiles());
    assert forall|c: Coordinates| tm.spec_in_bounds(c) implies #[trigger] tm.spec_tile_at(c)
        == Tile::Empty by {
        lemma_index_range(tm.spec_width(), tm.spec_height(), c);
        tm.lemma_bomb_free_has_no_adjacent_bombs(c);
    }
}

/// No neighbor of an `Empty` cell holds a bomb.
pub proof fn lemma_empty_has_no_bomb_neighbors(tm: TileMap, c: Coordinates, d: Coordinates)
    requires
        tm.wf(),
        tm.spec_in_bounds(c),
        tm.spec_tile_at(c) == Tile::Empty,
        tm.spec_in_bounds(d),
        c.is_adjacent_to(d),
    ensures
        !(tm.spec_tile_at(d) is Bomb),
{
    let w = tm.spec_width();
    let h = tm.spec_height();
    let tiles = tm.tiles();
    assert(tm.spec_adjacent_bombs(c) == 0);
    let dx = d.x - c.x;
    let dy = d.y - c.y;
    assert(offset_coord(c, dx, dy) == d);
    assert(offset_stays(w, h, c, dx, dy));
    if dx == -1 && dy == -1 {
        assert(bomb_step(tiles, w, h, c, -1, -1) == 0);
    } else if dx == 0 && dy == -1 {
        assert(bomb_step(tiles, w, h, c, 0, -1) == 0);
    } else if dx == 1 && dy == -1 {
        assert(bomb_step(tiles, w, h, c, 1, -1) == 0);
    } else if dx == -1 && dy == 0 {
        assert(bomb_step(tiles, w, h, c, -1, 0) == 0);
    } else if dx == 1 && dy == 0 {
        assert(bomb_step(tiles, w, h, c, 1, 0) == 0);
    } else if dx == -1 && dy == 1 {
        assert(bomb_step(tiles, w, h, c, -1, 1) == 0);
    } else if dx == 0 && dy == 1 {
        assert(bomb_step(tiles, w, h, c, 0, 1) == 0);
    } else {
        assert(dx == 1 && dy == 1);
        assert(bomb_step(tiles, w, h, c, 1, 1) == 0);
    }
    assert(bomb_step(tiles, w, h, c, dx, dy) == 0);
}

/// A sequence without `Bomb` tiles counts zero bombs.
pub proof fn lemma_count_bombs_bomb_free(s: Seq<Tile>)
    requires
        forall|i: int| 0 <= i < s.len() ==> !(#[trigger] s[i] is Bomb),
    ensures
        count_bombs(s) == 0,
    decreases s.len(),
{
    if s.len() > 0 {
        lemma_count_bombs_bomb_free(s.drop_last());
    }
}

} // verus!
