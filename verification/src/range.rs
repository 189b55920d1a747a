use vstd::prelude::*;

use crate::coordinate::world::WorldPosition;

verus! {

/// A single position, or the cuboid between two corner positions.
#[derive(Debug, Copy, Clone, PartialEq, Eq, Hash, Structural)]
pub enum WorldRange<P> {
    Single(P),
    Range(P, P),
}

/// The lower and the higher of two values.
pub open spec fn ordered(a: i32, b: i32) -> (i32, i32) {
    if a <= b {
        (a, b)
    } else {
        (b, a)
    }
}

/// The extent of a range of world positions on each axis, lowest first.
pub open spec fn world_range_bounds(r: WorldRange<WorldPosition>) -> ((i32, i32), (i32, i32), (
    i32,
    i32,
)) {
    match r {
        WorldRange::Single(p) => ((p.0, p.0), (p.1, p.1), (p.2, p.2)),
        WorldRange::Range(a, b) => (ordered(a.0, b.0), ordered(a.1, b.1), ordered(a.2, b.2)),
    }
}

fn ordered_pair(a: i32, b: i32) -> (r: (i32, i32))
    ensures
        r == ordered(a, b),
{
    if a <= b {
        (a, b)
    } else {
        (b, a)
    }
}

impl WorldRange<WorldPosition> {
    /// The range's extent on each axis, lowest first.
    pub fn ranges(self) -> (r: ((i32, i32), (i32, i32), (i32, i32)))
        ensures
            r == world_range_bounds(self),
    {
        match self {
            WorldRange::Single(p) => ((p.0, p.0), (p.1, p.1), (p.2, p.2)),
            WorldRange::Range(a, b) => (
                ordered_pair(a.0, b.0),
                ordered_pair(a.1, b.1),
                ordered_pair(a.2, b.2),
            ),
        }
    }

    /// The only position of a range that holds one.
    pub fn as_single(self) -> (r: Option<WorldPosition>)
        ensures
            r == match self {
                WorldRange::Single(p) => Some(p),
                WorldRange::Range(_, _) => None::<WorldPosition>,
            },
    {
        match self {
            WorldRange::Single(p) => Some(p),
            WorldRange::Range(_, _) => None,
        }
    }
}

} // verus!
