use vstd::prelude::*;

use crate::coordinate::world::ChunkPosition;
use crate::range::WorldRange;

verus! {

/// The index of a slab in a chunk, counting up from the slab at slice 0.
pub type SlabIndex = i32;

/// The number of slices in a slab.
pub const SLAB_SIZE: usize = 32;

/// The number of slices in a slab, as a signed slice coordinate.
pub const SLAB_SIZE_I32: i32 = 32;

/// A block inside a slab: x and y within the chunk, z the slice within the slab.
#[derive(Debug, Copy, Clone, PartialEq, Eq, Hash, Structural)]
pub struct SlabPosition(pub u8, pub u8, pub i32);

impl SlabPosition {
    /// The block lies inside a slab.
    pub open spec fn valid(self) -> bool {
        &&& self.0 < 16
        &&& self.1 < 16
        &&& 0 <= self.2 < SLAB_SIZE_I32
    }
}

/// Blocks of a slab: a single block, or the cuboid between two corners.
pub type SlabPositionRange = WorldRange<SlabPosition>;

/// Every corner of the range lies inside a slab.
pub open spec fn slab_range_valid(r: SlabPositionRange) -> bool {
    match r {
        WorldRange::Single(b) => b.valid(),
        WorldRange::Range(a, b) => a.valid() && b.valid(),
    }
}

/// The index of a slab in a chunk, and the chunk.
#[derive(Debug, Copy, Clone, PartialEq, Eq, Hash, Structural)]
pub struct SlabLocation {
    pub slab: SlabIndex,
    pub chunk: ChunkPosition,
}

impl SlabLocation {
    pub fn new(slab: SlabIndex, chunk: ChunkPosition) -> (r: Self)
        ensures
            r == (SlabLocation { slab, chunk }),
    {
        SlabLocation { slab, chunk }
    }
}

/// `a` comes before the position `(x, y, z)`: by chunk column, then chunk row, then slab.
pub open spec fn slab_before(a: SlabLocation, x: int, y: int, z: int) -> bool {
    ||| a.chunk.0 < x
    ||| (a.chunk.0 == x && a.chunk.1 < y)
    ||| (a.chunk.0 == x && a.chunk.1 == y && a.slab < z)
}

/// The order in which slab locations are listed: by chunk, then by slab.
pub open spec fn slab_location_lt(a: SlabLocation, b: SlabLocation) -> bool {
    slab_before(a, b.chunk.0 as int, b.chunk.1 as int, b.slab as int)
}

/// Whether `a` comes before `b` in the order of [slab_location_lt].
pub fn slab_location_less(a: SlabLocation, b: SlabLocation) -> (r: bool)
    ensures
        r == slab_location_lt(a, b),
{
    a.chunk.0 < b.chunk.0 || (a.chunk.0 == b.chunk.0 && (a.chunk.1 < b.chunk.1 || (a.chunk.1
        == b.chunk.1 && a.slab < b.slab)))
}

/// The sequence lists each location once, in the order of [slab_location_lt].
pub open spec fn slabs_ascending(s: Seq<SlabLocation>) -> bool {
    forall|i: int, j: int| 0 <= i < j < s.len() ==> slab_location_lt(#[trigger] s[i], #[trigger] s[j])
}

/// The location lies in the cuboid of slabs with corners `from` and `to`.
pub open spec fn in_slab_box(from: SlabLocation, to: SlabLocation, s: SlabLocation) -> bool {
    &&& from.chunk.0 <= s.chunk.0 <= to.chunk.0
    &&& from.chunk.1 <= s.chunk.1 <= to.chunk.1
    &&& from.slab <= s.slab <= to.slab
}

/// The sequence lists every slab of the cuboid between `from` and `to` once, by chunk and then
/// by slab, and nothing else.
pub open spec fn lists_slab_box(s: Seq<SlabLocation>, from: SlabLocation, to: SlabLocation) -> bool {
    &&& slabs_ascending(s)
    &&& forall|l: SlabLocation| s.contains(l) <==> #[trigger] in_slab_box(from, to, l)
}

/// Every slab in the cuboid with corners `from` and `to`, by chunk and then by slab, and how many
/// there are.
#[verifier::rlimit(30)]
pub fn all_slabs_in_range(from: SlabLocation, to: SlabLocation) -> (r: (Vec<SlabLocation>, usize))
    ensures
        lists_slab_box(r.0@, from, to),
        r.1 == r.0@.len(),
{
    let mut out: Vec<SlabLocation> = Vec::new();
    let x_end = to.chunk.0 as i64;
    let y_end = to.chunk.1 as i64;
    let z_end = to.slab as i64;
    let mut x: i64 = from.chunk.0 as i64;
    while x <= x_end
        invariant
            x_end == to.chunk.0,
            y_end == to.chunk.1,
            z_end == to.slab,
            from.chunk.0 <= x <= x_end + 1 || x == from.chunk.0,
            slabs_ascending(out@),
            forall|k: int| 0 <= k < out@.len() ==> slab_before(#[trigger] out@[k], x as int, from.chunk.1 as int, from.slab as int),
            forall|l: SlabLocation| out@.contains(l) <==> (in_slab_box(from, to, l) && #[trigger] slab_before(l, x as int, from.chunk.1 as int, from.slab as int)),
        decreases x_end + 1 - x,
    {
        let mut y: i64 = from.chunk.1 as i64;
        while y <= y_end
            invariant
                x_end == to.chunk.0,
                y_end == to.chunk.1,
                z_end == to.slab,
                from.chunk.0 <= x <= x_end,
                from.chunk.1 <= y <= y_end + 1 || y == from.chunk.1,
                slabs_ascending(out@),
                forall|k: int| 0 <= k < out@.len() ==> slab_before(#[trigger] out@[k], x as int, y as int, from.slab as int),
                forall|l: SlabLocation| out@.contains(l) <==> (in_slab_box(from, to, l) && #[trigger] slab_before(l, x as int, y as int, from.slab as int)),
            decreases y_end + 1 - y,
        {
            let mut z: i64 = from.slab as i64;
            while z <= z_end
                invariant
                    x_end == to.chunk.0,
                    y_end == to.chunk.1,
                    z_end == to.slab,
                    from.chunk.0 <= x <= x_end,
                    from.chunk.1 <= y <= y_end,
                    from.slab <= z <= z_end + 1 || z == from.slab,
                    slabs_ascending(out@),
                    forall|k: int| 0 <= k < out@.len() ==> slab_before(#[trigger] out@[k], x as int, y as int, z as int),
                    forall|l: SlabLocation| out@.contains(l) <==> (in_slab_box(from, to, l) && #[trigger] slab_before(l, x as int, y as int, z as int)),
                decreases z_end + 1 - z,
            {
                let loc = SlabLocation { slab: z as i32, chunk: ChunkPosition(x as i32, y as i32) };
                let ghost before = out@;
                out.push(loc);
                proof {
                    assert forall|k: int| 0 <= k < out@.len() implies slab_before(#[trigger] out@[k], x as int, y as int, z + 1) by {
                        if k < before.len() {
                            assert(out@[k] == before[k]);
                        }
                    }
                    assert forall|i: int, j: int| 0 <= i < j < out@.len() implies slab_location_lt(#[trigger] out@[i], #[trigger] out@[j]) by {
                        if j < before.len() {
                            assert(out@[i] == before[i] && out@[j] == before[j]);
                        } else {
                            assert(out@[i] == before[i]);
                            assert(slab_before(before[i], x as int, y as int, z as int));
                        }
                    }
                    assert forall|l: SlabLocation| out@.contains(l) <==> (in_slab_box(from, to, l) && #[trigger] slab_before(l, x as int, y as int, z + 1)) by {
                        if out@.contains(l) {
                            let k = choose|k: int| 0 <= k < out@.len() && out@[k] == l;
                            if k < before.len() {
                                assert(before[k] == l);
                                assert(before.contains(l));
                            }
                        }
                        if in_slab_box(from, to, l) && slab_before(l, x as int, y as int, z + 1) {
                            if l == loc {
                                assert(out@[before.len() as int] == l);
                            } else {
                                assert(slab_before(l, x as int, y as int, z as int));
                                assert(before.contains(l));
                                let k = choose|k: int| 0 <= k < before.len() && before[k] == l;
                                assert(out@[k] == l);
                            }
                        }
                    }
                }
                z = z + 1;
            }
            proof {
                assert forall|l: SlabLocation| (in_slab_box(from, to, l) && slab_before(l, x as int, y as int, z as int)) <==> (in_slab_box(from, to, l) && #[trigger] slab_before(l, x as int, y + 1, from.slab as int)) by {}
            }
            y = y + 1;
        }
        proof {
            assert forall|l: SlabLocation| (in_slab_box(from, to, l) && slab_before(l, x as int, y as int, from.slab as int)) <==> (in_slab_box(from, to, l) && #[trigger] slab_before(l, x + 1, from.chunk.1 as int, from.slab as int)) by {}
        }
        x = x + 1;
    }
    proof {
        assert forall|l: SlabLocation| out@.contains(l) <==> #[trigger] in_slab_box(from, to, l) by {
            assert(out@.contains(l) <==> (in_slab_box(from, to, l) && slab_before(l, x as int, from.chunk.1 as int, from.slab as int)));
        }
    }
    let n = out.len();
    (out, n)
}

} // verus!
