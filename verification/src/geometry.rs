//! Positions and dimensions in a raster, and the integer geometry on them.

use vstd::prelude::*;

verus! {

/// A pixel coordinate: column `x`, row `y`.
#[derive(Clone, Copy, Debug, PartialEq, Eq, Structural)]
pub struct Position {
    pub x: u32,
    pub y: u32,
}

impl Position {
    pub fn new(x: u32, y: u32) -> (p: Self)
        ensures
            p.x == x,
            p.y == y,
    {
        Position { x, y }
    }

    /// The coordinate as the pair `(x, y)`.
    pub fn tuplexy(&self) -> (t: (u32, u32))
        ensures
            t.0 == self.x,
            t.1 == self.y,
    {
        (self.x, self.y)
    }
}

/// The size of a raster in pixels. `new` takes the height first.
#[derive(Clone, Copy, Debug, PartialEq, Eq, Structural)]
pub struct Dimensions {
    pub height: u32,
    pub width: u32,
}

impl Dimensions {
    pub fn new(height: u32, width: u32) -> (d: Self)
        ensures
            d.height == height,
            d.width == width,
    {
        Dimensions { height, width }
    }

    /// The size as the pair `(height, width)`.
    pub fn tuplehw(&self) -> (t: (u32, u32))
        ensures
            t.0 == self.height,
            t.1 == self.width,
    {
        (self.height, self.width)
    }

    pub fn from_tuplehw(t: (u32, u32)) -> (d: Self)
        ensures
            d.height == t.0,
            d.width == t.1,
    {
        Dimensions { height: t.0, width: t.1 }
    }
}

} // verus!
