use board_plugin::Board;
use board_plugin::BoardError;
use board_plugin::BoardOptions;
use board_plugin::Coordinates;
use board_plugin::RevealEvent;
use board_plugin::Tile;
use board_plugin::TileMap;
use board_plugin::create_board;
use board_plugin::uncover_tiles;

fn coord(x: u16, y: u16) -> Coordinates {
    Coordinates { x, y }
}

fn corner_board() -> Board {
    let bombs = vec![coord(0, 0), coord(2, 2)];
    Board::new(TileMap::with_bomb_coordinates(3, 3, &bombs))
}

fn single_bomb_board() -> Board {
    let bombs = vec![coord(0, 0)];
    Board::new(TileMap::with_bomb_coordinates(2, 2, &bombs))
}

fn revealed_cells(events: &Vec<RevealEvent>) -> Vec<Coordinates> {
    let mut cells = Vec::new();
    for e in events {
        if let RevealEvent::TileRevealed { coordinates, .. } = e {
            cells.push(*coordinates);
        }
    }
    cells
}

#[test]
fn try_uncover_is_idempotent() {
    let mut board = corner_board();
    assert_eq!(board.try_uncover_tile(&coord(1, 1)), Some(Tile::BombNeighbor(2)));
    assert_eq!(board.try_uncover_tile(&coord(1, 1)), None);
}

#[test]
fn try_uncover_out_of_bounds_is_noop() {
    let mut board = corner_board();
    assert_eq!(board.try_uncover_tile(&coord(5, 5)), None);
    assert_eq!(board.covered_count(), 9);
}

#[test]
fn new_board_is_fully_covered() {
    let board = corner_board();
    assert_eq!(board.covered_count(), 9);
    for y in 0..3 {
        for x in 0..3 {
            assert!(board.is_covered(&coord(x, y)));
        }
    }
    assert!(!board.is_completed());
}

#[test]
fn adjacent_covered_tiles_shrink_as_cells_open() {
    let mut board = corner_board();
    assert_eq!(board.adjacent_covered_tiles(&coord(0, 2)).len(), 3);
    board.try_uncover_tile(&coord(1, 1)).unwrap();
    let remaining = board.adjacent_covered_tiles(&coord(0, 2));
    assert_eq!(remaining, vec![coord(0, 1), coord(1, 2)]);
}

#[test]
fn cascade_on_bomb_free_field_opens_everything_once() {
    let board_map = TileMap::generate(4, 3, 0, 9).unwrap();
    let mut board = Board::new(board_map);
    let events = uncover_tiles(&mut board, coord(0, 0));
    let cells = revealed_cells(&events);
    assert_eq!(cells.len(), 12);
    let mut sorted = cells.clone();
    sorted.sort();
    sorted.dedup();
    assert_eq!(sorted.len(), 12, "every cell uncovered exactly once");
    assert_eq!(board.covered_count(), 0);
    assert!(board.is_completed());
    assert_eq!(events.last(), Some(&RevealEvent::BoardCompleted));
    assert_eq!(events.len(), 13);
    assert!(!events.contains(&RevealEvent::BombExplosion));
}

#[test]
fn cascade_scales_to_a_large_field() {
    let board_map = TileMap::generate(50, 50, 0, 3).unwrap();
    let mut board = Board::new(board_map);
    let events = uncover_tiles(&mut board, coord(25, 25));
    assert_eq!(
        events[0],
        RevealEvent::TileRevealed { coordinates: coord(25, 25), tile: Tile::Empty }
    );
    assert_eq!(revealed_cells(&events).len(), 2500);
    assert_eq!(board.covered_count(), 0);
    assert_eq!(events.last(), Some(&RevealEvent::BoardCompleted));
}

#[test]
fn win_comes_exactly_when_covered_equals_bombs() {
    let mut board = single_bomb_board();
    let e1 = uncover_tiles(&mut board, coord(1, 0));
    assert!(!e1.contains(&RevealEvent::BoardCompleted));
    assert!(!board.is_completed());
    let e2 = uncover_tiles(&mut board, coord(0, 1));
    assert!(!e2.contains(&RevealEvent::BoardCompleted));
    assert!(!board.is_completed());
    let e3 = uncover_tiles(&mut board, coord(1, 1));
    assert_eq!(
        e3,
        vec![
            RevealEvent::TileRevealed { coordinates: coord(1, 1), tile: Tile::BombNeighbor(1) },
            RevealEvent::BoardCompleted,
        ]
    );
    assert!(board.is_completed());
    assert_eq!(board.covered_count(), 1);
}

#[test]
fn revealing_a_bomb_explodes_without_cascading() {
    let mut board = single_bomb_board();
    let events = uncover_tiles(&mut board, coord(0, 0));
    assert_eq!(
        events,
        vec![
            RevealEvent::TileRevealed { coordinates: coord(0, 0), tile: Tile::Bomb },
            RevealEvent::BombExplosion,
        ]
    );
    assert_eq!(board.covered_count(), 3);
    assert!(!board.is_covered(&coord(0, 0)));
    assert!(board.is_covered(&coord(1, 0)));
    assert!(board.is_covered(&coord(0, 1)));
    assert!(board.is_covered(&coord(1, 1)));
}

#[test]
fn repeated_trigger_is_a_noop() {
    let mut board = corner_board();
    let first = uncover_tiles(&mut board, coord(1, 1));
    assert_eq!(first.len(), 1);
    let covered_after = board.covered_count();
    let second = uncover_tiles(&mut board, coord(1, 1));
    assert!(second.is_empty());
    assert_eq!(board.covered_count(), covered_after);
}

#[test]
fn corner_cascade_opens_the_reachable_region() {
    let mut board = corner_board();
    let events = uncover_tiles(&mut board, coord(0, 2));
    assert_eq!(
        events[0],
        RevealEvent::TileRevealed { coordinates: coord(0, 2), tile: Tile::Empty }
    );
    let mut cells = revealed_cells(&events);
    cells.sort();
    assert_eq!(cells, vec![coord(0, 1), coord(0, 2), coord(1, 1), coord(1, 2)]);
    assert_eq!(board.covered_count(), 5);
    assert!(!events.contains(&RevealEvent::BoardCompleted));
    assert!(!events.contains(&RevealEvent::BombExplosion));
    // The far empty cell at (2, 0) is not 8-connected to (0, 2)
    // through empty cells, so it stays covered.
    assert!(board.is_covered(&coord(2, 0)));
}

#[test]
fn create_board_wraps_a_generated_field() {
    let options = BoardOptions { map_size: (6, 4), bomb_count: 5, safe_start: false, seed: 11 };
    let (board, safe) = create_board(&options).unwrap();
    assert_eq!(safe, None);
    assert_eq!(board.covered_count(), 24);
    assert_eq!(board.tile_map().bomb_count(), 5);
    assert_eq!(board.tile_map().width(), 6);
    assert_eq!(board.tile_map().height(), 4);
}

#[test]
fn create_board_safe_start_names_an_empty_cell() {
    let options = BoardOptions { map_size: (5, 5), bomb_count: 1, safe_start: true, seed: 2 };
    let (board, safe) = create_board(&options).unwrap();
    let c = safe.unwrap();
    assert_eq!(board.tile_map().tile_at(&c).unwrap(), Tile::Empty);
}

#[test]
fn create_board_rejects_zero_dimensions() {
    let options = BoardOptions { map_size: (0, 4), bomb_count: 5, safe_start: false, seed: 1 };
    assert_eq!(create_board(&options).unwrap_err(), BoardError::InvalidDimensions);
}
