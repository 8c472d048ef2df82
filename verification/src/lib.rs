//! Core model of a minesweeper-style board game.
//!
//! The crate owns the game's data and algorithms only: grid coordinates,
//! per-cell tiles, pseudo-random bomb placement with exact adjacency
//! counts, covered/uncovered bookkeeping, and the flood-fill reveal with
//! win and loss detection. Rendering, windowing and input handling are
//! left to the embedding application, which drives this crate through
//! plain values.

pub mod board;
pub mod board_options;
pub mod components;
pub mod events;
pub mod random;
pub mod tile;
pub mod tile_map;
pub mod uncover;

pub use board::Board;
pub use board_options::BoardOptions;
pub use board_options::create_board;
pub use components::Bomb;
pub use components::BombNeighbor;
pub use components::Coordinates;
pub use events::RevealEvent;
pub use random::SeededRng;
pub use tile::Tile;
pub use tile_map::BoardError;
pub use tile_map::TileMap;
pub use uncover::uncover_tiles;
