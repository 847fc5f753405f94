use vstd::prelude::*;

verus! {

/// A pair of signed integer coordinates.
#[derive(Clone, Copy, PartialEq, Eq, Hash, Debug, Structural)]
pub struct IVec2 {
    pub x: i32,
    pub y: i32,
}

/// A pair of unsigned integer coordinates or sizes.
#[derive(Clone, Copy, PartialEq, Eq, Hash, Debug, Structural)]
pub struct UVec2 {
    pub x: u32,
    pub y: u32,
}

/// Tile position on the map grid.
#[derive(Clone, Copy, PartialEq, Eq, Hash, Debug, Structural)]
pub struct GridPos(pub IVec2);

impl GridPos {
    /// Creates a grid position from integer coordinates.
    pub fn new(x: i32, y: i32) -> (r: Self)
        ensures
            r.0.x == x,
            r.0.y == y,
    {
        GridPos(IVec2 { x, y })
    }
}

} // verus!
