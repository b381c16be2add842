//! Integer grid coordinates used to keep atoms of a compound apart.

use vstd::prelude::*;

verus! {

/// A point of the two-dimensional placement grid.
#[derive(Clone, Copy, Debug, PartialEq, Eq, Hash, Structural)]
pub struct Location {
    pub x: i16,
    pub y: i16,
}

impl Location {
    pub fn new(x: i16, y: i16) -> (r: Self)
        ensures
            r.x == x,
            r.y == y,
    {
        Self { x, y }
    }

    /// The location moved by `dx` along x and `dy` along y.
    pub fn shift(&self, dx: i16, dy: i16) -> (r: Self)
        requires
            i16::MIN <= self.x + dx <= i16::MAX,
            i16::MIN <= self.y + dy <= i16::MAX,
        ensures
            r.x == self.x + dx,
            r.y == self.y + dy,
    {
        Self { x: self.x + dx, y: self.y + dy }
    }
}

} // verus!
