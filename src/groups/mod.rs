//! Coordinates and the modules of the simulation engine.
use vstd::prelude::*;

pub mod block;
pub mod field;
pub mod group;

verus! {

/// A signed position in the plane, ordered by x and then by y.
#[derive(Debug, Clone, Copy, PartialEq, Eq, Structural, PartialOrd, Ord)]
pub struct Coord {
    pub x: i64,
    pub y: i64,
}

/// An unsigned position inside a block.
#[derive(Debug, Clone, Copy, PartialEq, Eq, Structural)]
pub struct UCoord {
    pub x: u32,
    pub y: u32,
}

impl Coord {
    /// Componentwise sum.
    pub fn add(self, other: Coord) -> (r: Coord)
        requires
            i64::MIN <= self.x + other.x <= i64::MAX,
            i64::MIN <= self.y + other.y <= i64::MAX,
        ensures
            r.x == self.x + other.x,
            r.y == self.y + other.y,
    {
        Coord { x: self.x + other.x, y: self.y + other.y }
    }
}

impl UCoord {
    /// Componentwise sum.
    pub fn add(self, other: UCoord) -> (r: UCoord)
        requires
            self.x + other.x <= u32::MAX,
            self.y + other.y <= u32::MAX,
        ensures
            r.x == self.x + other.x,
            r.y == self.y + other.y,
    {
        UCoord { x: self.x + other.x, y: self.y + other.y }
    }
}

impl From<UCoord> for Coord {
    fn from(other: UCoord) -> (r: Coord) {
        Coord { x: other.x as i64, y: other.y as i64 }
    }
}

impl vstd::std_specs::convert::FromSpecImpl<UCoord> for Coord {
    open spec fn obeys_from_spec() -> bool {
        true
    }

    open spec fn from_spec(v: UCoord) -> Coord {
        Coord { x: v.x as i64, y: v.y as i64 }
    }
}

/// An axis-aligned box given by its two corners, both inclusive.
#[derive(Debug, Clone, Copy, PartialEq, Eq, Structural)]
pub struct Envelope {
    pub lower: Coord,
    pub upper: Coord,
}

impl Envelope {
    /// Two boxes share at least one cell.
    pub open spec fn overlaps(self, other: Envelope) -> bool {
        &&& self.lower.x <= other.upper.x
        &&& other.lower.x <= self.upper.x
        &&& self.lower.y <= other.upper.y
        &&& other.lower.y <= self.upper.y
    }

    /// Whether the two boxes share at least one cell.
    pub fn intersects(&self, other: &Envelope) -> (r: bool)
        ensures
            r == self.overlaps(*other),
    {
        self.lower.x <= other.upper.x && other.lower.x <= self.upper.x && self.lower.y
            <= other.upper.y && other.lower.y <= self.upper.y
    }
}

} // verus!
