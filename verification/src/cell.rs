//! The grid coordinate type.
//!
//! A `Cell` is an immutable pair of signed 64-bit coordinates. All
//! arithmetic produces a new `Cell`; overflow is excluded by precondition,
//! so every operation that verifies returns the exact mathematical result.

use vstd::prelude::*;

verus! {

/// One position of the unbounded grid: an integer coordinate pair.
///
/// Two cells are equal exactly when their coordinate pairs are equal.
#[derive(PartialEq, Eq, Structural, Clone, Copy, Hash, Debug)]
pub struct Cell {
    pub x: i64,
    pub y: i64,
}

impl View for Cell {
    type V = (int, int);

    /// A cell viewed as its mathematical coordinate pair.
    open spec fn view(&self) -> (int, int) {
        (self.x as int, self.y as int)
    }
}

impl Cell {
    /// Constructs the coordinate `(x, y)`. Any pair is valid.
    pub fn new(x: i64, y: i64) -> (c: Cell)
        ensures
            c@ == (x as int, y as int),
    {
        Cell { x, y }
    }

    /// Component-wise sum of the two coordinates.
    pub fn add(&self, other: &Cell) -> (r: Cell)
        requires
            i64::MIN <= self.x + other.x <= i64::MAX,
            i64::MIN <= self.y + other.y <= i64::MAX,
        ensures
            r@ == (self@.0 + other@.0, self@.1 + other@.1),
    {
        Cell { x: self.x + other.x, y: self.y + other.y }
    }

    /// Component-wise product of the two coordinates (not a dot product).
    pub fn mul(&self, other: &Cell) -> (r: Cell)
        requires
            i64::MIN <= self.x * other.x <= i64::MAX,
            i64::MIN <= self.y * other.y <= i64::MAX,
        ensures
            r@ == (self@.0 * other@.0, self@.1 * other@.1),
    {
        Cell { x: self.x * other.x, y: self.y * other.y }
    }

    /// Scales both coordinates by the integer `k`.
    pub fn scale(&self, k: i64) -> (r: Cell)
        requires
            i64::MIN <= self.x * k <= i64::MAX,
            i64::MIN <= self.y * k <= i64::MAX,
        ensures
            r@ == (self@.0 * k, self@.1 * k),
    {
        Cell { x: self.x * k, y: self.y * k }
    }
}

} // verus!
