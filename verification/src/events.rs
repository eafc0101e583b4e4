use vstd::prelude::*;
use crate::coordinates::Coordinates;

verus! {

/// A request from the input layer to reveal the tile at a coordinate.
#[derive(Debug, Clone, Copy)]
pub struct TileTriggerEvent {
    pub coordinates: Coordinates,
}

/// A request from the input layer to toggle the flag at a coordinate.
#[derive(Debug, Clone, Copy)]
pub struct TileFlaggedEvent {
    pub coordinates: Coordinates,
}

/// Raised when the win condition is met.
#[derive(Debug, Clone, Copy)]
pub struct GameWinEvent;

/// Raised when a mine is revealed.
#[derive(Debug, Clone, Copy)]
pub struct GameLoseEvent;

/// Raised when the session ends for any reason.
#[derive(Debug, Clone, Copy)]
pub struct EndgameEvent;

/// Compact form of the win notification used by the session scenes.
#[derive(Debug, Clone, Copy)]
pub struct GameWin;

/// Compact form of the loss notification used by the session scenes.
#[derive(Debug, Clone, Copy)]
pub struct GameLose;

} // verus!
