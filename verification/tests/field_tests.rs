use board_plugin::BoardError;
use board_plugin::BoardOptions;
use board_plugin::Bomb;
use board_plugin::BombNeighbor;
use board_plugin::Coordinates;
use board_plugin::SeededRng;
use board_plugin::Tile;
use board_plugin::TileMap;

fn coord(x: u16, y: u16) -> Coordinates {
    Coordinates { x, y }
}

fn tile(tm: &TileMap, x: u16, y: u16) -> Tile {
    tm.tile_at(&coord(x, y)).unwrap()
}

fn count_bomb_tiles(tm: &TileMap) -> u32 {
    let mut n: u32 = 0;
    for y in 0..tm.height() {
        for x in 0..tm.width() {
            if tile(tm, x, y) == Tile::Bomb {
                n += 1;
            }
        }
    }
    n
}

#[test]
fn generate_clamps_bomb_count() {
    let tm = TileMap::generate(3, 3, 20, 7).unwrap();
    assert_eq!(tm.bomb_count(), 8);
    assert_eq!(count_bomb_tiles(&tm), 8);
}

#[test]
fn generate_keeps_requested_count_when_it_fits() {
    let tm = TileMap::generate(8, 8, 10, 42).unwrap();
    assert_eq!(tm.bomb_count(), 10);
    assert_eq!(count_bomb_tiles(&tm), 10);
}

#[test]
fn generate_rejects_zero_dimensions() {
    assert!(matches!(TileMap::generate(0, 5, 3, 1), Err(BoardError::InvalidDimensions)));
    assert!(matches!(TileMap::generate(5, 0, 3, 1), Err(BoardError::InvalidDimensions)));
    assert!(matches!(TileMap::empty(0, 1), Err(BoardError::InvalidDimensions)));
}

#[test]
fn generate_zero_bombs_leaves_all_empty() {
    let tm = TileMap::generate(4, 3, 0, 1).unwrap();
    assert_eq!(tm.bomb_count(), 0);
    for y in 0..3 {
        for x in 0..4 {
            assert_eq!(tile(&tm, x, y), Tile::Empty);
        }
    }
}

#[test]
fn generate_is_deterministic_for_a_seed() {
    let a = TileMap::generate(8, 8, 10, 42).unwrap();
    let b = TileMap::generate(8, 8, 10, 42).unwrap();
    for y in 0..8 {
        for x in 0..8 {
            assert_eq!(tile(&a, x, y), tile(&b, x, y));
        }
    }
}

#[test]
fn adjacency_counts_are_exact() {
    let bombs = vec![coord(0, 0), coord(2, 2)];
    let tm = TileMap::with_bomb_coordinates(3, 3, &bombs);
    assert_eq!(tm.bomb_count(), 2);
    assert_eq!(tile(&tm, 0, 0), Tile::Bomb);
    assert_eq!(tile(&tm, 1, 0), Tile::BombNeighbor(1));
    assert_eq!(tile(&tm, 2, 0), Tile::Empty);
    assert_eq!(tile(&tm, 0, 1), Tile::BombNeighbor(1));
    assert_eq!(tile(&tm, 1, 1), Tile::BombNeighbor(2));
    assert_eq!(tile(&tm, 2, 1), Tile::BombNeighbor(1));
    assert_eq!(tile(&tm, 0, 2), Tile::Empty);
    assert_eq!(tile(&tm, 1, 2), Tile::BombNeighbor(1));
    assert_eq!(tile(&tm, 2, 2), Tile::Bomb);
}

#[test]
fn neighbor_counts_by_position() {
    let tm = TileMap::empty(4, 5).unwrap();
    // Corners have 3 neighbors.
    assert_eq!(tm.neighbors_of(&coord(0, 0)).len(), 3);
    assert_eq!(tm.neighbors_of(&coord(3, 0)).len(), 3);
    assert_eq!(tm.neighbors_of(&coord(0, 4)).len(), 3);
    assert_eq!(tm.neighbors_of(&coord(3, 4)).len(), 3);
    // Non-corner edge cells have 5.
    assert_eq!(tm.neighbors_of(&coord(1, 0)).len(), 5);
    assert_eq!(tm.neighbors_of(&coord(0, 2)).len(), 5);
    assert_eq!(tm.neighbors_of(&coord(3, 3)).len(), 5);
    assert_eq!(tm.neighbors_of(&coord(2, 4)).len(), 5);
    // Interior cells have 8.
    assert_eq!(tm.neighbors_of(&coord(1, 1)).len(), 8);
    assert_eq!(tm.neighbors_of(&coord(2, 3)).len(), 8);
}

#[test]
fn neighbors_of_corner_content() {
    let tm = TileMap::empty(4, 5).unwrap();
    let n = tm.neighbors_of(&coord(0, 0));
    assert_eq!(n, vec![coord(1, 0), coord(0, 1), coord(1, 1)]);
}

#[test]
fn tile_at_out_of_bounds_is_rejected() {
    let tm = TileMap::empty(3, 3).unwrap();
    assert_eq!(tm.tile_at(&coord(3, 0)), Err(BoardError::OutOfBounds));
    assert_eq!(tm.tile_at(&coord(0, 3)), Err(BoardError::OutOfBounds));
    assert!(tm.tile_at(&coord(2, 2)).is_ok());
}

#[test]
fn safe_start_picks_an_empty_cell() {
    let bombs = vec![coord(0, 0), coord(2, 2)];
    let tm = TileMap::with_bomb_coordinates(3, 3, &bombs);
    let c = tm.safe_start_coordinate().unwrap();
    assert_eq!(tm.tile_at(&c).unwrap(), Tile::Empty);
}

#[test]
fn safe_start_is_none_without_empty_cells() {
    let bombs = vec![coord(0, 0)];
    let tm = TileMap::with_bomb_coordinates(2, 2, &bombs);
    assert_eq!(tm.safe_start_coordinate(), None);
}

#[test]
fn set_bombs_replaces_the_layout() {
    let mut tm = TileMap::empty(5, 5).unwrap();
    assert_eq!(tm.bomb_count(), 0);
    tm.set_bombs(6, 3);
    assert_eq!(tm.bomb_count(), 6);
    assert_eq!(count_bomb_tiles(&tm), 6);
    assert_eq!(tm.width(), 5);
    assert_eq!(tm.height(), 5);
}

#[test]
fn seeded_rng_is_deterministic_and_bounded() {
    let mut a = SeededRng::new(5);
    let mut b = SeededRng::new(5);
    for _ in 0..10 {
        let x = a.next_below(10);
        let y = b.next_below(10);
        assert_eq!(x, y);
        assert!(x < 10);
    }
}

#[test]
fn default_options_match_the_classic_board() {
    let o = BoardOptions::default();
    assert_eq!(o.map_size, (15, 15));
    assert_eq!(o.bomb_count, 30);
    assert!(!o.safe_start);
    assert_eq!(o.seed, 0);
}

#[test]
fn cell_markers_carry_their_data() {
    let marker = Bomb;
    assert_eq!(marker, Bomb);
    let neighbor = BombNeighbor { count: 2 };
    assert_eq!(neighbor.count, 2);
    assert!(Tile::Bomb.is_bomb());
    assert!(!Tile::Empty.is_bomb());
    assert!(!Tile::BombNeighbor(1).is_bomb());
}
