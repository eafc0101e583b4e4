use vstd::prelude::*;

verus! {

/// The classification of one grid cell: a mine, a cell next to `n` mines
/// (`n` in `[1, 8]`), or an empty cell with no adjacent mine. A cell with
/// zero adjacent mines is always `Empty`, never `BombNeighbour(0)`.
#[derive(Debug, Clone, Copy, PartialEq, Eq, Structural)]
pub enum Tile {
    Bomb,
    BombNeighbour(u8),
    Empty,
}

impl Tile {
    pub fn is_bomb(&self) -> (r: bool)
        ensures
            r == (*self is Bomb),
    {
        matches!(self, Self::Bomb)
    }
}

/// The adjacency count that the presentation layer attaches to a revealed
/// cell bordering at least one mine.
#[derive(Debug, Clone, Copy, PartialEq, Eq, PartialOrd, Ord, Hash, Structural)]
pub struct BombNeighbor {
    pub count: u8,
}

} // verus!
