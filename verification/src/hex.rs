//! The cells of a grid.

use crate::point::Point;
use vstd::prelude::*;

verus! {

/// A cell of the grid, known by where it lies. Two cells are equal when
/// their locations are.
#[derive(Clone, Copy, Debug, PartialEq, Eq, Structural)]
pub struct Hex {
    pub location: Point,
}

impl Hex {
    /// The cell at `location`.
    pub fn new(location: Point) -> (r: Hex)
        ensures
            r.location == location,
    {
        Hex { location }
    }
}

} // verus!
