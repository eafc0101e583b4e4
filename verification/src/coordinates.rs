use vstd::prelude::*;

verus! {

/// A 2D grid position. Identifies one cell of the board; immutable once
/// created. Offset addition saturates at the numeric bounds so that neighbor
/// enumeration near the grid edge can never wrap around; results that fall
/// outside the board are filtered by the bounds checks of the lookups that
/// consume them.
#[derive(Clone, Copy, Hash, PartialEq, Eq, Structural, Debug)]
pub struct Coordinates {
    pub x: u16,
    pub y: u16,
}

impl Coordinates {
    /// The mathematical result of applying a signed offset, before clamping.
    pub open spec fn offset_spec(self, dx: int, dy: int) -> (int, int) {
        (self.x + dx, self.y + dy)
    }

    /// Saturating addition of a signed offset: the result is the true sum
    /// clamped into the `u16` range in each component.
    pub fn offset(self, dx: i8, dy: i8) -> (r: Coordinates)
        ensures
            r.x == crate::coordinates::clamp_u16(self.x + dx),
            r.y == crate::coordinates::clamp_u16(self.y + dy),
    {
        let x32: i32 = self.x as i32 + dx as i32;
        let y32: i32 = self.y as i32 + dy as i32;
        let x: u16 = if x32 < 0 {
            0
        } else if x32 > u16::MAX as i32 {
            u16::MAX
        } else {
            x32 as u16
        };
        let y: u16 = if y32 < 0 {
            0
        } else if y32 > u16::MAX as i32 {
            u16::MAX
        } else {
            y32 as u16
        };
        Coordinates { x, y }
    }
}

/// Two distinct coordinates whose components differ by at most one in each
/// direction: the 8-neighborhood relation of the grid.
pub open spec fn is_adjacent(a: Coordinates, b: Coordinates) -> bool {
    &&& a != b
    &&& -1 <= b.x - a.x <= 1
    &&& -1 <= b.y - a.y <= 1
}

/// Clamp an unbounded integer into the `u16` range.
pub open spec fn clamp_u16(v: int) -> int {
    if v < 0 {
        0
    } else if v > u16::MAX {
        u16::MAX as int
    } else {
        v
    }
}

} // verus!
