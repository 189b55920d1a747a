use vstd::prelude::*;

use crate::range::WorldRange;
use crate::slab::{slab_range_valid, SlabPosition, SlabPositionRange, SLAB_SIZE_I32};

verus! {

/// The number of slabs around a slab whose occlusion a change of its blocks can affect.
pub const NEIGHBOUR_SLAB_COUNT: usize = 26;

#[derive(Copy, Clone, Debug, Eq, PartialEq, Structural)]
pub enum OcclusionAffectedNeighbourSlab {
    BelowSouth,
    BelowSouthEast,
    BelowEast,
    BelowNorthEast,
    BelowNorth,
    BelowNorthWest,
    BelowWest,
    BelowSouthWest,
    Below,
    South,
    SouthEast,
    East,
    NorthEast,
    North,
    NorthWest,
    West,
    SouthWest,
    AboveSouth,
    AboveSouthEast,
    AboveEast,
    AboveNorthEast,
    AboveNorth,
    AboveNorthWest,
    AboveWest,
    AboveSouthWest,
    Above,
}

/// The offset of a neighbouring slab, in slabs on the x, y and z axes.
pub open spec fn offset_spec(n: OcclusionAffectedNeighbourSlab) -> (int, int, int) {
    match n {
        OcclusionAffectedNeighbourSlab::BelowSouth => (0, -1, -1),
        OcclusionAffectedNeighbourSlab::BelowSouthEast => (1, -1, -1),
        OcclusionAffectedNeighbourSlab::BelowEast => (1, 0, -1),
        OcclusionAffectedNeighbourSlab::BelowNorthEast => (1, 1, -1),
        OcclusionAffectedNeighbourSlab::BelowNorth => (0, 1, -1),
        OcclusionAffectedNeighbourSlab::BelowNorthWest => (-1, 1, -1),
        OcclusionAffectedNeighbourSlab::BelowWest => (-1, 0, -1),
        OcclusionAffectedNeighbourSlab::BelowSouthWest => (-1, -1, -1),
        OcclusionAffectedNeighbourSlab::Below => (0, 0, -1),
        OcclusionAffectedNeighbourSlab::South => (0, -1, 0),
        OcclusionAffectedNeighbourSlab::SouthEast => (1, -1, 0),
        OcclusionAffectedNeighbourSlab::East => (1, 0, 0),
        OcclusionAffectedNeighbourSlab::NorthEast => (1, 1, 0),
        OcclusionAffectedNeighbourSlab::North => (0, 1, 0),
        OcclusionAffectedNeighbourSlab::NorthWest => (-1, 1, 0),
        OcclusionAffectedNeighbourSlab::West => (-1, 0, 0),
        OcclusionAffectedNeighbourSlab::SouthWest => (-1, -1, 0),
        OcclusionAffectedNeighbourSlab::AboveSouth => (0, -1, 1),
        OcclusionAffectedNeighbourSlab::AboveSouthEast => (1, -1, 1),
        OcclusionAffectedNeighbourSlab::AboveEast => (1, 0, 1),
        OcclusionAffectedNeighbourSlab::AboveNorthEast => (1, 1, 1),
        OcclusionAffectedNeighbourSlab::AboveNorth => (0, 1, 1),
        OcclusionAffectedNeighbourSlab::AboveNorthWest => (-1, 1, 1),
        OcclusionAffectedNeighbourSlab::AboveWest => (-1, 0, 1),
        OcclusionAffectedNeighbourSlab::AboveSouthWest => (-1, -1, 1),
        OcclusionAffectedNeighbourSlab::Above => (0, 0, 1),
    }
}

/// The position of a neighbour in declaration order.
pub open spec fn ordinal_spec(n: OcclusionAffectedNeighbourSlab) -> int {
    match n {
        OcclusionAffectedNeighbourSlab::BelowSouth => 0,
        OcclusionAffectedNeighbourSlab::BelowSouthEast => 1,
        OcclusionAffectedNeighbourSlab::BelowEast => 2,
        OcclusionAffectedNeighbourSlab::BelowNorthEast => 3,
        OcclusionAffectedNeighbourSlab::BelowNorth => 4,
        OcclusionAffectedNeighbourSlab::BelowNorthWest => 5,
        OcclusionAffectedNeighbourSlab::BelowWest => 6,
        OcclusionAffectedNeighbourSlab::BelowSouthWest => 7,
        OcclusionAffectedNeighbourSlab::Below => 8,
        OcclusionAffectedNeighbourSlab::South => 9,
        OcclusionAffectedNeighbourSlab::SouthEast => 10,
        OcclusionAffectedNeighbourSlab::East => 11,
        OcclusionAffectedNeighbourSlab::NorthEast => 12,
        OcclusionAffectedNeighbourSlab::North => 13,
        OcclusionAffectedNeighbourSlab::NorthWest => 14,
        OcclusionAffectedNeighbourSlab::West => 15,
        OcclusionAffectedNeighbourSlab::SouthWest => 16,
        OcclusionAffectedNeighbourSlab::AboveSouth => 17,
        OcclusionAffectedNeighbourSlab::AboveSouthEast => 18,
        OcclusionAffectedNeighbourSlab::AboveEast => 19,
        OcclusionAffectedNeighbourSlab::AboveNorthEast => 20,
        OcclusionAffectedNeighbourSlab::AboveNorth => 21,
        OcclusionAffectedNeighbourSlab::AboveNorthWest => 22,
        OcclusionAffectedNeighbourSlab::AboveWest => 23,
        OcclusionAffectedNeighbourSlab::AboveSouthWest => 24,
        OcclusionAffectedNeighbourSlab::Above => 25,
    }
}

/// The neighbour at a position in declaration order.
pub open spec fn from_ordinal_spec(i: int) -> OcclusionAffectedNeighbourSlab {
    if i == 0 {
        OcclusionAffectedNeighbourSlab::BelowSouth
    } else if i == 1 {
        OcclusionAffectedNeighbourSlab::BelowSouthEast
    } else if i == 2 {
        OcclusionAffectedNeighbourSlab::BelowEast
    } else if i == 3 {
        OcclusionAffectedNeighbourSlab::BelowNorthEast
    } else if i == 4 {
        OcclusionAffectedNeighbourSlab::BelowNorth
    } else if i == 5 {
        OcclusionAffectedNeighbourSlab::BelowNorthWest
    } else if i == 6 {
        OcclusionAffectedNeighbourSlab::BelowWest
    } else if i == 7 {
        OcclusionAffectedNeighbourSlab::BelowSouthWest
    } else if i == 8 {
        OcclusionAffectedNeighbourSlab::Below
    } else if i == 9 {
        OcclusionAffectedNeighbourSlab::South
    } else if i == 10 {
        OcclusionAffectedNeighbourSlab::SouthEast
    } else if i == 11 {
        OcclusionAffectedNeighbourSlab::East
    } else if i == 12 {
        OcclusionAffectedNeighbourSlab::NorthEast
    } else if i == 13 {
        OcclusionAffectedNeighbourSlab::North
    } else if i == 14 {
        OcclusionAffectedNeighbourSlab::NorthWest
    } else if i == 15 {
        OcclusionAffectedNeighbourSlab::West
    } else if i == 16 {
        OcclusionAffectedNeighbourSlab::SouthWest
    } else if i == 17 {
        OcclusionAffectedNeighbourSlab::AboveSouth
    } else if i == 18 {
        OcclusionAffectedNeighbourSlab::AboveSouthEast
    } else if i == 19 {
        OcclusionAffectedNeighbourSlab::AboveEast
    } else if i == 20 {
        OcclusionAffectedNeighbourSlab::AboveNorthEast
    } else if i == 21 {
        OcclusionAffectedNeighbourSlab::AboveNorth
    } else if i == 22 {
        OcclusionAffectedNeighbourSlab::AboveNorthWest
    } else if i == 23 {
        OcclusionAffectedNeighbourSlab::AboveWest
    } else if i == 24 {
        OcclusionAffectedNeighbourSlab::AboveSouthWest
    } else {
        OcclusionAffectedNeighbourSlab::Above
    }
}

impl OcclusionAffectedNeighbourSlab {
    pub fn offset(self) -> (r: [i8; 3])
        ensures
            (r[0] as int, r[1] as int, r[2] as int) == offset_spec(self),
    {
        match self {
            OcclusionAffectedNeighbourSlab::BelowSouth => [0, -1, -1],
            OcclusionAffectedNeighbourSlab::BelowSouthEast => [1, -1, -1],
            OcclusionAffectedNeighbourSlab::BelowEast => [1, 0, -1],
            OcclusionAffectedNeighbourSlab::BelowNorthEast => [1, 1, -1],
            OcclusionAffectedNeighbourSlab::BelowNorth => [0, 1, -1],
            OcclusionAffectedNeighbourSlab::BelowNorthWest => [-1, 1, -1],
            OcclusionAffectedNeighbourSlab::BelowWest => [-1, 0, -1],
            OcclusionAffectedNeighbourSlab::BelowSouthWest => [-1, -1, -1],
            OcclusionAffectedNeighbourSlab::Below => [0, 0, -1],
            OcclusionAffectedNeighbourSlab::South => [0, -1, 0],
            OcclusionAffectedNeighbourSlab::SouthEast => [1, -1, 0],
            OcclusionAffectedNeighbourSlab::East => [1, 0, 0],
            OcclusionAffectedNeighbourSlab::NorthEast => [1, 1, 0],
            OcclusionAffectedNeighbourSlab::North => [0, 1, 0],
            OcclusionAffectedNeighbourSlab::NorthWest => [-1, 1, 0],
            OcclusionAffectedNeighbourSlab::West => [-1, 0, 0],
            OcclusionAffectedNeighbourSlab::SouthWest => [-1, -1, 0],
            OcclusionAffectedNeighbourSlab::AboveSouth => [0, -1, 1],
            OcclusionAffectedNeighbourSlab::AboveSouthEast => [1, -1, 1],
            OcclusionAffectedNeighbourSlab::AboveEast => [1, 0, 1],
            OcclusionAffectedNeighbourSlab::AboveNorthEast => [1, 1, 1],
            OcclusionAffectedNeighbourSlab::AboveNorth => [0, 1, 1],
            OcclusionAffectedNeighbourSlab::AboveNorthWest => [-1, 1, 1],
            OcclusionAffectedNeighbourSlab::AboveWest => [-1, 0, 1],
            OcclusionAffectedNeighbourSlab::AboveSouthWest => [-1, -1, 1],
            OcclusionAffectedNeighbourSlab::Above => [0, 0, 1],
        }
    }

    /// The neighbour at an offset; none at the slab itself.
    pub fn from_offset(offset: [i8; 3]) -> (r: Option<OcclusionAffectedNeighbourSlab>)
        requires
            -1 <= offset[0] <= 1,
            -1 <= offset[1] <= 1,
            -1 <= offset[2] <= 1,
        ensures
            (offset[0] == 0 && offset[1] == 0 && offset[2] == 0) ==> r is None,
            !(offset[0] == 0 && offset[1] == 0 && offset[2] == 0) ==> r is Some && offset_spec(
                r->0,
            ) == (offset[0] as int, offset[1] as int, offset[2] as int),
    {
        match (offset[0], offset[1], offset[2]) {
            (0, -1, -1) => Some(OcclusionAffectedNeighbourSlab::BelowSouth),
            (1, -1, -1) => Some(OcclusionAffectedNeighbourSlab::BelowSouthEast),
            (1, 0, -1) => Some(OcclusionAffectedNeighbourSlab::BelowEast),
            (1, 1, -1) => Some(OcclusionAffectedNeighbourSlab::BelowNorthEast),
            (0, 1, -1) => Some(OcclusionAffectedNeighbourSlab::BelowNorth),
            (-1, 1, -1) => Some(OcclusionAffectedNeighbourSlab::BelowNorthWest),
            (-1, 0, -1) => Some(OcclusionAffectedNeighbourSlab::BelowWest),
            (-1, -1, -1) => Some(OcclusionAffectedNeighbourSlab::BelowSouthWest),
            (0, 0, -1) => Some(OcclusionAffectedNeighbourSlab::Below),
            (0, -1, 0) => Some(OcclusionAffectedNeighbourSlab::South),
            (1, -1, 0) => Some(OcclusionAffectedNeighbourSlab::SouthEast),
            (1, 0, 0) => Some(OcclusionAffectedNeighbourSlab::East),
            (1, 1, 0) => Some(OcclusionAffectedNeighbourSlab::NorthEast),
            (0, 1, 0) => Some(OcclusionAffectedNeighbourSlab::North),
            (-1, 1, 0) => Some(OcclusionAffectedNeighbourSlab::NorthWest),
            (-1, 0, 0) => Some(OcclusionAffectedNeighbourSlab::West),
            (-1, -1, 0) => Some(OcclusionAffectedNeighbourSlab::SouthWest),
            (0, -1, 1) => Some(OcclusionAffectedNeighbourSlab::AboveSouth),
            (1, -1, 1) => Some(OcclusionAffectedNeighbourSlab::AboveSouthEast),
            (1, 0, 1) => Some(OcclusionAffectedNeighbourSlab::AboveEast),
            (1, 1, 1) => Some(OcclusionAffectedNeighbourSlab::AboveNorthEast),
            (0, 1, 1) => Some(OcclusionAffectedNeighbourSlab::AboveNorth),
            (-1, 1, 1) => Some(OcclusionAffectedNeighbourSlab::AboveNorthWest),
            (-1, 0, 1) => Some(OcclusionAffectedNeighbourSlab::AboveWest),
            (-1, -1, 1) => Some(OcclusionAffectedNeighbourSlab::AboveSouthWest),
            (0, 0, 1) => Some(OcclusionAffectedNeighbourSlab::Above),
            _ => None,
        }
    }

    /// The position of this neighbour in declaration order.
    pub fn ordinal(self) -> (r: usize)
        ensures
            r == ordinal_spec(self),
            r < NEIGHBOUR_SLAB_COUNT,
    {
        match self {
            OcclusionAffectedNeighbourSlab::BelowSouth => 0,
            OcclusionAffectedNeighbourSlab::BelowSouthEast => 1,
            OcclusionAffectedNeighbourSlab::BelowEast => 2,
            OcclusionAffectedNeighbourSlab::BelowNorthEast => 3,
            OcclusionAffectedNeighbourSlab::BelowNorth => 4,
            OcclusionAffectedNeighbourSlab::BelowNorthWest => 5,
            OcclusionAffectedNeighbourSlab::BelowWest => 6,
            OcclusionAffectedNeighbourSlab::BelowSouthWest => 7,
            OcclusionAffectedNeighbourSlab::Below => 8,
            OcclusionAffectedNeighbourSlab::South => 9,
            OcclusionAffectedNeighbourSlab::SouthEast => 10,
            OcclusionAffectedNeighbourSlab::East => 11,
            OcclusionAffectedNeighbourSlab::NorthEast => 12,
            OcclusionAffectedNeighbourSlab::North => 13,
            OcclusionAffectedNeighbourSlab::NorthWest => 14,
            OcclusionAffectedNeighbourSlab::West => 15,
            OcclusionAffectedNeighbourSlab::SouthWest => 16,
            OcclusionAffectedNeighbourSlab::AboveSouth => 17,
            OcclusionAffectedNeighbourSlab::AboveSouthEast => 18,
            OcclusionAffectedNeighbourSlab::AboveEast => 19,
            OcclusionAffectedNeighbourSlab::AboveNorthEast => 20,
            OcclusionAffectedNeighbourSlab::AboveNorth => 21,
            OcclusionAffectedNeighbourSlab::AboveNorthWest => 22,
            OcclusionAffectedNeighbourSlab::AboveWest => 23,
            OcclusionAffectedNeighbourSlab::AboveSouthWest => 24,
            OcclusionAffectedNeighbourSlab::Above => 25,
        }
    }

    /// The neighbour at a position in declaration order.
    pub fn from_ordinal(i: usize) -> (r: OcclusionAffectedNeighbourSlab)
        requires
            i < NEIGHBOUR_SLAB_COUNT,
        ensures
            ordinal_spec(r) == i,
            r == from_ordinal_spec(i as int),
    {
        match i {
            0 => OcclusionAffectedNeighbourSlab::BelowSouth,
            1 => OcclusionAffectedNeighbourSlab::BelowSouthEast,
            2 => OcclusionAffectedNeighbourSlab::BelowEast,
            3 => OcclusionAffectedNeighbourSlab::BelowNorthEast,
            4 => OcclusionAffectedNeighbourSlab::BelowNorth,
            5 => OcclusionAffectedNeighbourSlab::BelowNorthWest,
            6 => OcclusionAffectedNeighbourSlab::BelowWest,
            7 => OcclusionAffectedNeighbourSlab::BelowSouthWest,
            8 => OcclusionAffectedNeighbourSlab::Below,
            9 => OcclusionAffectedNeighbourSlab::South,
            10 => OcclusionAffectedNeighbourSlab::SouthEast,
            11 => OcclusionAffectedNeighbourSlab::East,
            12 => OcclusionAffectedNeighbourSlab::NorthEast,
            13 => OcclusionAffectedNeighbourSlab::North,
            14 => OcclusionAffectedNeighbourSlab::NorthWest,
            15 => OcclusionAffectedNeighbourSlab::West,
            16 => OcclusionAffectedNeighbourSlab::SouthWest,
            17 => OcclusionAffectedNeighbourSlab::AboveSouth,
            18 => OcclusionAffectedNeighbourSlab::AboveSouthEast,
            19 => OcclusionAffectedNeighbourSlab::AboveEast,
            20 => OcclusionAffectedNeighbourSlab::AboveNorthEast,
            21 => OcclusionAffectedNeighbourSlab::AboveNorth,
            22 => OcclusionAffectedNeighbourSlab::AboveNorthWest,
            23 => OcclusionAffectedNeighbourSlab::AboveWest,
            24 => OcclusionAffectedNeighbourSlab::AboveSouthWest,
            _ => OcclusionAffectedNeighbourSlab::Above,
        }
    }
}

/// The lowest offset, along one axis, of a neighbour that a block at `v` can affect: the one
/// below when the block is on the lowest edge.
pub open spec fn reach_low(v: int) -> int {
    if v == 0 {
        -1
    } else {
        0
    }
}

/// The highest offset, along one axis, of a neighbour that a block at `v` can affect: the
/// one above when the block is on the highest edge `limit` (and not also on the lowest).
pub open spec fn reach_high(v: int, limit: int) -> int {
    if v == 0 {
        0
    } else if v == limit {
        1
    } else {
        0
    }
}

/// A change of the block at `p` can affect the occlusion of neighbour `n`.
pub open spec fn block_affects(p: SlabPosition, n: OcclusionAffectedNeighbourSlab) -> bool {
    let (ox, oy, oz) = offset_spec(n);
    &&& reach_low(p.0 as int) <= ox <= reach_high(p.0 as int, 15)
    &&& reach_low(p.1 as int) <= oy <= reach_high(p.1 as int, 15)
    &&& reach_low(p.2 as int) <= oz <= reach_high(p.2 as int, SLAB_SIZE_I32 - 1)
}

/// The blocks of a range whose change decides which neighbours are affected: its corners.
pub open spec fn range_corners(r: SlabPositionRange) -> Set<SlabPosition> {
    match r {
        WorldRange::Single(b) => set![b],
        WorldRange::Range(a, b) => Set::new(
            |p: SlabPosition|
                (p.0 == a.0 || p.0 == b.0) && (p.1 == a.1 || p.1 == b.1) && (p.2 == a.2 || p.2
                    == b.2),
        ),
    }
}

/// A change of the blocks in range `r` can affect the occlusion of neighbour `n`.
pub open spec fn range_affects(r: SlabPositionRange, n: OcclusionAffectedNeighbourSlab) -> bool {
    exists|p: SlabPosition| #[trigger] range_corners(r).contains(p) && block_affects(p, n)
}

/// The neighbours marked in `affected`, among the first `k` in declaration order, in that
/// order.
pub open spec fn marked_prefix(affected: Seq<bool>, k: int) -> Seq<OcclusionAffectedNeighbourSlab>
    decreases k,
{
    if k <= 0 {
        Seq::empty()
    } else if affected[k - 1] {
        marked_prefix(affected, k - 1).push(from_ordinal_spec(k - 1))
    } else {
        marked_prefix(affected, k - 1)
    }
}

/// Which neighbouring slabs have had their occlusion affected by block changes.
pub struct OcclusionAffectedNeighbourSlabs {
    /// Maps to ordinals
    affected: [bool; 26],
}

impl View for OcclusionAffectedNeighbourSlabs {
    /// Whether each neighbour, by ordinal, is affected.
    type V = Seq<bool>;

    closed spec fn view(&self) -> Seq<bool> {
        self.affected@
    }
}

impl Default for OcclusionAffectedNeighbourSlabs {
    fn default() -> (r: Self)
        ensures
            r@ == Seq::new(26, |_i: int| false),
    {
        let r = OcclusionAffectedNeighbourSlabs { affected: [false; 26] };
        assert(r@ =~= Seq::new(26, |_i: int| false));
        r
    }
}

impl OcclusionAffectedNeighbourSlabs {
    /// Marks every neighbour that a change of the blocks in the range can affect.
    pub fn update(&mut self, changed_blocks: SlabPositionRange)
        requires
            old(self)@.len() == NEIGHBOUR_SLAB_COUNT,
            slab_range_valid(changed_blocks),
        ensures
            final(self)@.len() == NEIGHBOUR_SLAB_COUNT,
            forall|i: int|
                0 <= i < NEIGHBOUR_SLAB_COUNT ==> #[trigger] final(self)@[i] == (old(self)@[i]
                    || range_affects(changed_blocks, from_ordinal_spec(i))),
    {
        match changed_blocks {
            WorldRange::Single(b) => {
                self.update_block(b);
                proof {
                    assert forall|i: int| 0 <= i < NEIGHBOUR_SLAB_COUNT implies #[trigger] self@[i]
                        == (old(self)@[i] || range_affects(changed_blocks, from_ordinal_spec(i))) by {
                        if range_affects(changed_blocks, from_ordinal_spec(i)) {
                            let p = choose|p: SlabPosition| #[trigger] range_corners(changed_blocks).contains(p)
                                && block_affects(p, from_ordinal_spec(i));
                            assert(p == b);
                        }
                        assert(range_corners(changed_blocks).contains(b));
                    }
                }
            },
            WorldRange::Range(from, to) => {
                let (x1, x2) = (from.0, to.0);
                let (y1, y2) = (from.1, to.1);
                let (z1, z2) = (from.2, to.2);
                let ghost before = self@;
                self.update_block(SlabPosition(x1, y1, z1));

                let expand_x = x1 != x2;
                let expand_y = y1 != y2;
                let expand_z = z1 != z2;
                if expand_x {
                    self.update_block(SlabPosition(x2, y1, z1));
                }
                if expand_y {
                    self.update_block(SlabPosition(x1, y2, z1));
                }
                if expand_z {
                    self.update_block(SlabPosition(x1, y1, z2));
                }
                if expand_x && expand_y {
                    self.update_block(SlabPosition(x2, y2, z1));
                }
                if expand_x && expand_z {
                    self.update_block(SlabPosition(x2, y1, z2));
                }
                if expand_y && expand_z {
                    self.update_block(SlabPosition(x1, y2, z2));
                }
                if expand_x && expand_y && expand_z {
                    self.update_block(SlabPosition(x2, y2, z2));
                }
                proof {
                    assert forall|i: int| 0 <= i < NEIGHBOUR_SLAB_COUNT implies #[trigger] self@[i]
                        == (before[i] || range_affects(changed_blocks, from_ordinal_spec(i))) by {
                        let n = from_ordinal_spec(i);
                        let cs = range_corners(changed_blocks);
                        assert(cs.contains(SlabPosition(x1, y1, z1)));
                        assert(cs.contains(SlabPosition(x2, y1, z1)));
                        assert(cs.contains(SlabPosition(x1, y2, z1)));
                        assert(cs.contains(SlabPosition(x1, y1, z2)));
                        assert(cs.contains(SlabPosition(x2, y2, z1)));
                        assert(cs.contains(SlabPosition(x2, y1, z2)));
                        assert(cs.contains(SlabPosition(x1, y2, z2)));
                        assert(cs.contains(SlabPosition(x2, y2, z2)));
                        if range_affects(changed_blocks, n) {
                            let p = choose|p: SlabPosition| #[trigger] cs.contains(p)
                                && block_affects(p, n);
                            assert(p == SlabPosition(p.0, p.1, p.2));
                        }
                    }
                }
            },
        }
    }

    fn update_block(&mut self, changed_block: SlabPosition)
        requires
            old(self)@.len() == NEIGHBOUR_SLAB_COUNT,
            changed_block.valid(),
        ensures
            final(self)@.len() == NEIGHBOUR_SLAB_COUNT,
            forall|i: int|
                0 <= i < NEIGHBOUR_SLAB_COUNT ==> #[trigger] final(self)@[i] == (old(self)@[i]
                    || block_affects(changed_block, from_ordinal_spec(i))),
    {
        let SlabPosition(x, y, z) = changed_block;
        let (dx_lo, dx_hi) = Self::reach(x as i32, 15);
        let (dy_lo, dy_hi) = Self::reach(y as i32, 15);
        let (dz_lo, dz_hi) = Self::reach(z, SLAB_SIZE_I32 - 1);
        let ghost before = self@;
        let mut dz = dz_lo;
        while dz <= dz_hi
            invariant
                dz_lo <= dz <= dz_hi + 1,
                -1 <= dz_lo <= dz_hi <= 1,
                -1 <= dy_lo <= dy_hi <= 1,
                -1 <= dx_lo <= dx_hi <= 1,
                dx_lo == reach_low(x as int) && dx_hi == reach_high(x as int, 15),
                dy_lo == reach_low(y as int) && dy_hi == reach_high(y as int, 15),
                dz_lo == reach_low(z as int) && dz_hi == reach_high(z as int, SLAB_SIZE_I32 - 1),
                changed_block == SlabPosition(x, y, z),
                self@.len() == NEIGHBOUR_SLAB_COUNT,
                forall|i: int|
                    0 <= i < NEIGHBOUR_SLAB_COUNT ==> #[trigger] self@[i] == (before[i] || (
                    block_affects(changed_block, from_ordinal_spec(i)) && offset_spec(
                        from_ordinal_spec(i),
                    ).2 < dz)),
            decreases dz_hi + 1 - dz,
        {
            let mut dy = dy_lo;
            while dy <= dy_hi
                invariant
                    dy_lo <= dy <= dy_hi + 1,
                    dz_lo <= dz <= dz_hi,
                    -1 <= dz_lo <= dz_hi <= 1,
                    -1 <= dy_lo <= dy_hi <= 1,
                    -1 <= dx_lo <= dx_hi <= 1,
                    dx_lo == reach_low(x as int) && dx_hi == reach_high(x as int, 15),
                    dy_lo == reach_low(y as int) && dy_hi == reach_high(y as int, 15),
                    dz_lo == reach_low(z as int) && dz_hi == reach_high(z as int, SLAB_SIZE_I32 - 1),
                    changed_block == SlabPosition(x, y, z),
                    self@.len() == NEIGHBOUR_SLAB_COUNT,
                    forall|i: int|
                        0 <= i < NEIGHBOUR_SLAB_COUNT ==> #[trigger] self@[i] == (before[i] || (
                        block_affects(changed_block, from_ordinal_spec(i)) && (offset_spec(
                            from_ordinal_spec(i),
                        ).2 < dz || (offset_spec(from_ordinal_spec(i)).2 == dz && offset_spec(
                            from_ordinal_spec(i),
                        ).1 < dy)))),
                decreases dy_hi + 1 - dy,
            {
                let mut dx = dx_lo;
                while dx <= dx_hi
                    invariant
                        dx_lo <= dx <= dx_hi + 1,
                        dy_lo <= dy <= dy_hi,
                        dz_lo <= dz <= dz_hi,
                        -1 <= dz_lo <= dz_hi <= 1,
                        -1 <= dy_lo <= dy_hi <= 1,
                        -1 <= dx_lo <= dx_hi <= 1,
                        dx_lo == reach_low(x as int) && dx_hi == reach_high(x as int, 15),
                        dy_lo == reach_low(y as int) && dy_hi == reach_high(y as int, 15),
                        dz_lo == reach_low(z as int) && dz_hi == reach_high(
                            z as int,
                            SLAB_SIZE_I32 - 1,
                        ),
                        changed_block == SlabPosition(x, y, z),
                        self@.len() == NEIGHBOUR_SLAB_COUNT,
                        forall|i: int|
                            0 <= i < NEIGHBOUR_SLAB_COUNT ==> #[trigger] self@[i] == (before[i] || (
                            block_affects(changed_block, from_ordinal_spec(i)) && (offset_spec(
                                from_ordinal_spec(i),
                            ).2 < dz || (offset_spec(from_ordinal_spec(i)).2 == dz && (offset_spec(
                                from_ordinal_spec(i),
                            ).1 < dy || (offset_spec(from_ordinal_spec(i)).1 == dy && offset_spec(
                                from_ordinal_spec(i),
                            ).0 < dx)))))),
                    decreases dx_hi + 1 - dx,
                {
                    let ghost pre = self@;
                    let found = OcclusionAffectedNeighbourSlab::from_offset([dx as i8, dy as i8, dz as i8]);
                    if let Some(n) = found {
                        self.touch(n);
                    }
                    proof {
                        lemma_ordinal_round_trip();
                        assert forall|i: int| 0 <= i < NEIGHBOUR_SLAB_COUNT implies #[trigger] self@[i]
                            == (before[i] || (block_affects(changed_block, from_ordinal_spec(i)) && (
                            offset_spec(from_ordinal_spec(i)).2 < dz || (offset_spec(
                                from_ordinal_spec(i),
                            ).2 == dz && (offset_spec(from_ordinal_spec(i)).1 < dy || (offset_spec(
                                from_ordinal_spec(i),
                            ).1 == dy && offset_spec(from_ordinal_spec(i)).0 < dx + 1)))))) by {
                            let m = from_ordinal_spec(i);
                            lemma_offset_injective(m);
                            if let Some(n) = found {
                                if m == n {
                                    assert(ordinal_spec(n) == i);
                                } else {
                                    assert(self@[i] == pre[i]);
                                }
                            }
                        }
                    }
                    dx = dx + 1;
                }
                dy = dy + 1;
            }
            dz = dz + 1;
        }
    }

    /// The offsets, along one axis, of the neighbours a block at `val` can affect, where
    /// `limit` is the highest position on that axis.
    fn reach(val: i32, limit: i32) -> (r: (i32, i32))
        ensures
            r.0 == reach_low(val as int),
            r.1 == reach_high(val as int, limit as int),
    {
        if val == 0 {
            (-1, 0)
        } else if val == limit {
            (0, 1)
        } else {
            (0, 0)
        }
    }

    fn touch(&mut self, neighbour: OcclusionAffectedNeighbourSlab)
        requires
            old(self)@.len() == NEIGHBOUR_SLAB_COUNT,
        ensures
            final(self)@ == old(self)@.update(ordinal_spec(neighbour), true),
    {
        let i = neighbour.ordinal();
        self.affected[i] = true;
    }

    /// The affected neighbours, in declaration order.
    pub fn finish(&self) -> (r: Vec<OcclusionAffectedNeighbourSlab>)
        requires
            self@.len() == NEIGHBOUR_SLAB_COUNT,
        ensures
            r@ == marked_prefix(self@, NEIGHBOUR_SLAB_COUNT as int),
    {
        let mut out: Vec<OcclusionAffectedNeighbourSlab> = Vec::new();
        let mut i: usize = 0;
        while i < NEIGHBOUR_SLAB_COUNT
            invariant
                i <= NEIGHBOUR_SLAB_COUNT,
                self@.len() == NEIGHBOUR_SLAB_COUNT,
                out@ == marked_prefix(self@, i as int),
            decreases NEIGHBOUR_SLAB_COUNT - i,
        {
            if self.affected[i] {
                out.push(OcclusionAffectedNeighbourSlab::from_ordinal(i));
            }
            i = i + 1;
        }
        out
    }
}

/// Every neighbour is found again from its position in declaration order.
pub proof fn lemma_ordinal_round_trip()
    ensures
        forall|n: OcclusionAffectedNeighbourSlab|
            0 <= #[trigger] ordinal_spec(n) < NEIGHBOUR_SLAB_COUNT && from_ordinal_spec(
                ordinal_spec(n),
            ) == n,
        forall|i: int|
            0 <= i < NEIGHBOUR_SLAB_COUNT ==> ordinal_spec(#[trigger] from_ordinal_spec(i)) == i,
{
}

/// Each neighbour lies one step away on at least one axis and at most one step on each, and
/// no two neighbours share an offset.
pub proof fn lemma_offset_injective(n: OcclusionAffectedNeighbourSlab)
    ensures
        ({
            let (x, y, z) = offset_spec(n);
            &&& -1 <= x <= 1 && -1 <= y <= 1 && -1 <= z <= 1
            &&& !(x == 0 && y == 0 && z == 0)
        }),
        forall|m: OcclusionAffectedNeighbourSlab|
            #[trigger] offset_spec(m) == offset_spec(n) ==> m == n,
{
}

/// After a run of updates from a fresh record, a neighbour is marked exactly when one of the
/// updates' ranges can affect it: marks only ever accumulate.
pub proof fn lemma_updates_accumulate(ranges: Seq<SlabPositionRange>, states: Seq<Seq<bool>>)
    requires
        states.len() == ranges.len() + 1,
        states[0] == Seq::new(NEIGHBOUR_SLAB_COUNT as nat, |_i: int| false),
        forall|j: int|
            0 <= j < ranges.len() ==> (#[trigger] states[j + 1]).len() == NEIGHBOUR_SLAB_COUNT
                && forall|i: int|
                0 <= i < NEIGHBOUR_SLAB_COUNT ==> #[trigger] states[j + 1][i] == (states[j][i]
                    || range_affects(ranges[j], from_ordinal_spec(i))),
    ensures
        states.last().len() == NEIGHBOUR_SLAB_COUNT,
        forall|i: int|
            0 <= i < NEIGHBOUR_SLAB_COUNT ==> #[trigger] states.last()[i] == exists|j: int|
                0 <= j < ranges.len() && range_affects(ranges[j], from_ordinal_spec(i)),
    decreases ranges.len(),
{
    if ranges.len() > 0 {
        let k = ranges.len() - 1;
        lemma_updates_accumulate(ranges.drop_last(), states.drop_last());
        assert(states.drop_last().last() == states[k]);
        assert forall|i: int| 0 <= i < NEIGHBOUR_SLAB_COUNT implies #[trigger] states.last()[i] == exists|j: int|
            0 <= j < ranges.len() && range_affects(ranges[j], from_ordinal_spec(i)) by {
            assert(states.last() == states[k + 1]);
            assert(states[k + 1][i] == (states[k][i] || range_affects(ranges[k], from_ordinal_spec(i))));
            if exists|j: int| 0 <= j < ranges.len() && range_affects(ranges[j], from_ordinal_spec(i)) {
                let j = choose|j: int| 0 <= j < ranges.len() && range_affects(ranges[j], from_ordinal_spec(i));
                if j < k {
                    assert(ranges.drop_last()[j] == ranges[j]);
                }
            }
            if states[k][i] {
                let j = choose|j: int| 0 <= j < ranges.drop_last().len() && range_affects(ranges.drop_last()[j], from_ordinal_spec(i));
                assert(ranges[j] == ranges.drop_last()[j]);
            }
        }
    } else {
        assert(states.last() == states[0]);
    }
}

/// The neighbours that [OcclusionAffectedNeighbourSlabs::finish] lists are exactly the marked
/// ones, each once, in declaration order.
pub proof fn lemma_marked_prefix(affected: Seq<bool>, k: int)
    requires
        0 <= k <= NEIGHBOUR_SLAB_COUNT,
        affected.len() == NEIGHBOUR_SLAB_COUNT,
    ensures
        forall|n: OcclusionAffectedNeighbourSlab|
            marked_prefix(affected, k).contains(n) <==> (#[trigger] ordinal_spec(n) < k && affected[ordinal_spec(n)]),
        forall|a: int, b: int|
            0 <= a < b < marked_prefix(affected, k).len() ==> ordinal_spec(#[trigger] marked_prefix(affected, k)[a])
                < ordinal_spec(#[trigger] marked_prefix(affected, k)[b]),
        forall|a: int|
            0 <= a < marked_prefix(affected, k).len() ==> ordinal_spec(#[trigger] marked_prefix(affected, k)[a]) < k,
    decreases k,
{
    lemma_ordinal_round_trip();
    if k > 0 {
        lemma_marked_prefix(affected, k - 1);
        let prev = marked_prefix(affected, k - 1);
        if affected[k - 1] {
            let cur = prev.push(from_ordinal_spec(k - 1));
            assert(marked_prefix(affected, k) == cur);
            assert forall|n: OcclusionAffectedNeighbourSlab| cur.contains(n) <==> (#[trigger] ordinal_spec(n) < k
                && affected[ordinal_spec(n)]) by {
                vstd::seq_lib::lemma_seq_contains_after_push(prev, from_ordinal_spec(k - 1), n);
                if ordinal_spec(n) == k - 1 {
                    assert(from_ordinal_spec(ordinal_spec(n)) == n);
                }
            }
            assert forall|a: int| 0 <= a < cur.len() implies ordinal_spec(#[trigger] cur[a]) < k by {
                if a < prev.len() {
                    assert(cur[a] == prev[a]);
                }
            }
            assert forall|a: int, b: int| 0 <= a < b < cur.len() implies ordinal_spec(#[trigger] cur[a])
                < ordinal_spec(#[trigger] cur[b]) by {
                assert(cur[a] == prev[a]);
                if b < prev.len() {
                    assert(cur[b] == prev[b]);
                }
            }
        } else {
            assert(marked_prefix(affected, k) == prev);
            assert forall|n: OcclusionAffectedNeighbourSlab| prev.contains(n) <==> (#[trigger] ordinal_spec(n) < k
                && affected[ordinal_spec(n)]) by {
                if ordinal_spec(n) == k - 1 && affected[ordinal_spec(n)] {
                    assert(false);
                }
            }
        }
    }
}


/// The extent of a range of slab positions on each axis, lowest first.
pub open spec fn range_extent(r: SlabPositionRange) -> ((int, int), (int, int), (int, int)) {
    match r {
        WorldRange::Single(b) => ((b.0 as int, b.0 as int), (b.1 as int, b.1 as int), (b.2 as int, b.2 as int)),
        WorldRange::Range(a, b) => (
            (if a.0 <= b.0 { (a.0 as int, b.0 as int) } else { (b.0 as int, a.0 as int) }),
            (if a.1 <= b.1 { (a.1 as int, b.1 as int) } else { (b.1 as int, a.1 as int) }),
            (if a.2 <= b.2 { (a.2 as int, b.2 as int) } else { (b.2 as int, a.2 as int) }),
        ),
    }
}

/// Along one axis, a range from `lo` to `hi` reaches the neighbour at offset `o`: the one below
/// only when it starts at the lowest edge, the one above only when it ends at the highest edge
/// `limit`.
pub open spec fn axis_reaches(o: int, lo: int, hi: int, limit: int) -> bool {
    &&& o == -1 ==> lo == 0
    &&& o == 1 ==> hi == limit
}

/// The range reaches the neighbour along every axis.
pub open spec fn range_reaches(r: SlabPositionRange, n: OcclusionAffectedNeighbourSlab) -> bool {
    let (ox, oy, oz) = offset_spec(n);
    let (ex, ey, ez) = range_extent(r);
    &&& axis_reaches(ox, ex.0, ex.1, 15)
    &&& axis_reaches(oy, ey.0, ey.1, 15)
    &&& axis_reaches(oz, ez.0, ez.1, SLAB_SIZE_I32 - 1)
}

/// A change of the blocks of a range within the slab can affect a neighbour exactly when the
/// range reaches it on every axis: it touches the lowest edge of each axis the neighbour lies
/// below on, and the highest edge of each axis it lies above on.
pub proof fn lemma_range_affects_iff_reaches(r: SlabPositionRange, n: OcclusionAffectedNeighbourSlab)
    requires
        slab_range_valid(r),
    ensures
        range_affects(r, n) == range_reaches(r, n),
{
    lemma_offset_injective(n);
    let (ox, oy, oz) = offset_spec(n);
    let (ex, ey, ez) = range_extent(r);
    if range_affects(r, n) {
        let p = choose|p: SlabPosition| #[trigger] range_corners(r).contains(p) && block_affects(p, n);
        assert(ex.0 <= p.0 <= ex.1 && ey.0 <= p.1 <= ey.1 && ez.0 <= p.2 <= ez.1);
    }
    if range_reaches(r, n) {
        let (a, b) = match r {
            WorldRange::Single(b) => (b, b),
            WorldRange::Range(a, b) => (a, b),
        };
        // on each axis, the lowest end for a neighbour below, else the highest end
        let px: u8 = if ox == -1 { if a.0 <= b.0 { a.0 } else { b.0 } } else { if a.0 <= b.0 { b.0 } else { a.0 } };
        let py: u8 = if oy == -1 { if a.1 <= b.1 { a.1 } else { b.1 } } else { if a.1 <= b.1 { b.1 } else { a.1 } };
        let pz: i32 = if oz == -1 { if a.2 <= b.2 { a.2 } else { b.2 } } else { if a.2 <= b.2 { b.2 } else { a.2 } };
        let p = SlabPosition(px, py, pz);
        assert(range_corners(r).contains(p));
        assert(block_affects(p, n));
    }
}


/// After a run of updates from a fresh record (each state as [OcclusionAffectedNeighbourSlabs::update]
/// leaves it), finishing lists a neighbour exactly when one of the updates' ranges reaches it on
/// every axis (see [range_reaches]), each such neighbour once, in declaration order.
pub proof fn lemma_finish_after_updates(ranges: Seq<SlabPositionRange>, states: Seq<Seq<bool>>)
    requires
        states.len() == ranges.len() + 1,
        states[0] == Seq::new(NEIGHBOUR_SLAB_COUNT as nat, |_i: int| false),
        forall|j: int| 0 <= j < ranges.len() ==> slab_range_valid(#[trigger] ranges[j]),
        forall|j: int|
            0 <= j < ranges.len() ==> (#[trigger] states[j + 1]).len() == NEIGHBOUR_SLAB_COUNT
                && forall|i: int|
                0 <= i < NEIGHBOUR_SLAB_COUNT ==> #[trigger] states[j + 1][i] == (states[j][i]
                    || range_affects(ranges[j], from_ordinal_spec(i))),
    ensures
        forall|n: OcclusionAffectedNeighbourSlab|
            #[trigger] marked_prefix(states.last(), NEIGHBOUR_SLAB_COUNT as int).contains(n) <==> exists|j: int|
                0 <= j < ranges.len() && range_reaches(#[trigger] ranges[j], n),
        forall|a: int, b: int|
            0 <= a < b < marked_prefix(states.last(), NEIGHBOUR_SLAB_COUNT as int).len() ==> ordinal_spec(
                #[trigger] marked_prefix(states.last(), NEIGHBOUR_SLAB_COUNT as int)[a],
            ) < ordinal_spec(#[trigger] marked_prefix(states.last(), NEIGHBOUR_SLAB_COUNT as int)[b]),
{
    lemma_updates_accumulate(ranges, states);
    lemma_marked_prefix(states.last(), NEIGHBOUR_SLAB_COUNT as int);
    lemma_ordinal_round_trip();
    assert forall|n: OcclusionAffectedNeighbourSlab|
        #[trigger] marked_prefix(states.last(), NEIGHBOUR_SLAB_COUNT as int).contains(n) <==> exists|j: int|
            0 <= j < ranges.len() && range_reaches(#[trigger] ranges[j], n) by {
        let i = ordinal_spec(n);
        assert(from_ordinal_spec(i) == n);
        assert(0 <= i < NEIGHBOUR_SLAB_COUNT);
        if exists|j: int| 0 <= j < ranges.len() && range_reaches(#[trigger] ranges[j], n) {
            let j = choose|j: int| 0 <= j < ranges.len() && range_reaches(#[trigger] ranges[j], n);
            lemma_range_affects_iff_reaches(ranges[j], n);
        }
        if exists|j: int| 0 <= j < ranges.len() && range_affects(ranges[j], from_ordinal_spec(i)) {
            let j = choose|j: int| 0 <= j < ranges.len() && range_affects(ranges[j], from_ordinal_spec(i));
            lemma_range_affects_iff_reaches(ranges[j], n);
        }
    }
}

} // verus!
