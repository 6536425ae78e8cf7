use vstd::prelude::*;

verus! {

/// The integer type of grid coordinates and grid dimensions.
pub type GridNum = isize;

/// A position or offset on the grid.
#[derive(Copy, Clone, Debug, PartialEq, Eq, Structural, Hash)]
pub struct Vec2 {
    pub x: GridNum,
    pub y: GridNum,
}

/// Builds a grid vector.
pub fn vec2(x: GridNum, y: GridNum) -> (v: Vec2)
    ensures
        v.x == x,
        v.y == y,
{
    Vec2 { x, y }
}

impl Vec2 {
    /// The pair of coordinates as mathematical integers.
    pub open spec fn pair(self) -> (int, int) {
        (self.x as int, self.y as int)
    }

    /// Component-wise sum.
    pub fn add(self, other: Vec2) -> (r: Vec2)
        requires
            isize::MIN <= self.x + other.x <= isize::MAX,
            isize::MIN <= self.y + other.y <= isize::MAX,
        ensures
            r.x == self.x + other.x,
            r.y == self.y + other.y,
    {
        Vec2 { x: self.x + other.x, y: self.y + other.y }
    }

    /// Component-wise difference.
    pub fn sub(self, other: Vec2) -> (r: Vec2)
        requires
            isize::MIN <= self.x - other.x <= isize::MAX,
            isize::MIN <= self.y - other.y <= isize::MAX,
        ensures
            r.x == self.x - other.x,
            r.y == self.y - other.y,
    {
        Vec2 { x: self.x - other.x, y: self.y - other.y }
    }
}

} // verus!
