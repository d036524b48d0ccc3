use vstd::prelude::*;

verus! {

/// An integer (x, y) pair: a pixel coordinate, or, when snapped to the tile
/// grid, a tile identifier.
#[derive(Debug, Clone, Copy, PartialEq, Eq, Structural)]
pub struct Offset {
    pub x: i32,
    pub y: i32,
}

impl Default for Offset {
    fn default() -> (r: Offset)
        ensures
            r.x == 0 && r.y == 0,
    {
        Offset { x: 0, y: 0 }
    }
}

impl Offset {
    /// Componentwise translation.
    pub fn add(self, rhs: Offset) -> (r: Offset)
        requires
            i32::MIN <= self.x + rhs.x <= i32::MAX,
            i32::MIN <= self.y + rhs.y <= i32::MAX,
        ensures
            r.x == self.x + rhs.x,
            r.y == self.y + rhs.y,
    {
        Offset { x: self.x + rhs.x, y: self.y + rhs.y }
    }

    /// Componentwise difference.
    pub fn sub(self, rhs: Offset) -> (r: Offset)
        requires
            i32::MIN <= self.x - rhs.x <= i32::MAX,
            i32::MIN <= self.y - rhs.y <= i32::MAX,
        ensures
            r.x == self.x - rhs.x,
            r.y == self.y - rhs.y,
    {
        Offset { x: self.x - rhs.x, y: self.y - rhs.y }
    }

    /// Componentwise negation.
    pub fn neg(self) -> (r: Offset)
        requires
            self.x != i32::MIN,
            self.y != i32::MIN,
        ensures
            r.x == -self.x,
            r.y == -self.y,
    {
        Offset { x: -self.x, y: -self.y }
    }
}

} // verus!

