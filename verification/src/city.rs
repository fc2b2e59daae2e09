//! Cities as points with integer coordinates.

use vstd::prelude::*;

verus! {

/// Largest coordinate magnitude accepted by the solvers.  Keeping
/// coordinates in this range lets every squared distance, every truncated
/// distance, and every tour length fit comfortably in the integer types
/// used for cost comparisons.
pub const MAX_COORD: i64 = 1_000_000;

/// A city: an immutable point in the plane, identified by its position in
/// the input sequence (its city index).
#[derive(Clone, Copy, PartialEq, Eq, Structural, Debug)]
pub struct City {
    pub x: i64,
    pub y: i64,
}

impl City {
    /// The coordinates lie within `[-MAX_COORD, MAX_COORD]`.
    pub open spec fn in_bounds(self) -> bool {
        -MAX_COORD <= self.x <= MAX_COORD && -MAX_COORD <= self.y <= MAX_COORD
    }

    pub fn new(x: i64, y: i64) -> (c: City)
        ensures
            c.x == x,
            c.y == y,
    {
        City { x, y }
    }
}

/// Every city of the sequence lies within the coordinate bounds.
pub open spec fn all_in_bounds(s: Seq<City>) -> bool {
    forall|i: int| 0 <= i < s.len() ==> #[trigger] s[i].in_bounds()
}

} // verus!
