use vstd::prelude::*;

pub mod board;
pub mod counting;
pub mod coordinates;
pub mod events;
mod rng;
pub mod tile;
pub mod tile_cube;
pub mod tile_map;

pub use board::{create_board, lemma_flag_toggle_roundtrip, lemma_uncover_idempotent, Board, FlagToggle, RevealOutcome};
pub use coordinates::Coordinates;
pub use events::{
    EndgameEvent, GameLose, GameLoseEvent, GameWin, GameWinEvent, TileFlaggedEvent,
    TileTriggerEvent,
};
pub use tile::{BombNeighbor, Tile};
pub use tile_cube::{FaceIndex, TileCube};
pub use tile_map::TileMap;

verus! {

} // verus!
