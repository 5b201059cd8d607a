use vstd::prelude::*;

verus! {

/// A cell address in a regular 3D partition of space: an integer 3-vector.
///
/// The grid is unbounded by the cell type itself; choosing coordinates wide
/// enough that offset arithmetic cannot overflow is the caller's
/// responsibility.
#[derive(Clone, Copy, Debug, PartialEq, Eq, Structural, Hash)]
pub struct GridCell {
    pub x: i64,
    pub y: i64,
    pub z: i64,
}

impl GridCell {
    /// Build a cell address from its three components.
    pub fn new(x: i64, y: i64, z: i64) -> (r: GridCell)
        ensures
            r == (GridCell { x, y, z }),
    {
        GridCell { x, y, z }
    }

    /// Component-wise addition of an integer offset vector.
    pub fn offset(&self, dx: i64, dy: i64, dz: i64) -> (r: GridCell)
        requires
            i64::MIN <= self.x + dx <= i64::MAX,
            i64::MIN <= self.y + dy <= i64::MAX,
            i64::MIN <= self.z + dz <= i64::MAX,
        ensures
            r.x == self.x + dx,
            r.y == self.y + dy,
            r.z == self.z + dz,
    {
        GridCell { x: self.x + dx, y: self.y + dy, z: self.z + dz }
    }
}

/// `c` lies in the cube of Chebyshev radius `r` centered on `origin`.
pub open spec fn chebyshev_within(c: GridCell, origin: GridCell, r: int) -> bool {
    &&& origin.x - r <= c.x <= origin.x + r
    &&& origin.y - r <= c.y <= origin.y + r
    &&& origin.z - r <= c.z <= origin.z + r
}

} // verus!
