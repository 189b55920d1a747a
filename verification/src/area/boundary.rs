use vstd::prelude::*;

use crate::coordinate::dim::{CHUNK_SIZE_I32, CHUNK_SIZE_USIZE};
use crate::coordinate::world::{block_position_from_signed, BlockPosition, WorldPosition};
use crate::slab::{SlabIndex, SLAB_SIZE, SLAB_SIZE_I32};

verus! {

#[derive(Debug, Copy, Clone, PartialEq, Eq, Hash, Structural)]
pub enum ChunkBoundary {
    /// +y
    Up,
    /// -y
    Down,
    /// -x
    Left,
    /// +x
    Right,
}

/// The number of blocks on one boundary of a chunk within one slab.
pub const CHUNK_BOUNDARY_SLICE_SIZE: usize = 512;

/// The boundary on the other side of the chunk.
pub open spec fn opposite_spec(b: ChunkBoundary) -> ChunkBoundary {
    match b {
        ChunkBoundary::Up => ChunkBoundary::Down,
        ChunkBoundary::Down => ChunkBoundary::Up,
        ChunkBoundary::Left => ChunkBoundary::Right,
        ChunkBoundary::Right => ChunkBoundary::Left,
    }
}

/// The step across this boundary, on the x and y axes.
pub open spec fn shift_delta(b: ChunkBoundary) -> (int, int) {
    match b {
        ChunkBoundary::Up => (0, 1),
        ChunkBoundary::Down => (0, -1),
        ChunkBoundary::Left => (-1, 0),
        ChunkBoundary::Right => (1, 0),
    }
}

/// A world position moved one block across this boundary fits the coordinate range.
pub open spec fn shift_fits(b: ChunkBoundary, pos: WorldPosition) -> bool {
    &&& i32::MIN <= pos.0 + shift_delta(b).0 <= i32::MAX
    &&& i32::MIN <= pos.1 + shift_delta(b).1 <= i32::MAX
}

/// A world position moved one block across this boundary.
pub open spec fn shift_spec(b: ChunkBoundary, pos: WorldPosition) -> WorldPosition {
    WorldPosition((pos.0 + shift_delta(b).0) as i32, (pos.1 + shift_delta(b).1) as i32, pos.2)
}

/// The `i`th block on this boundary of a chunk in the given slab: slices from the bottom of
/// the slab up, and along each slice in increasing order.
pub open spec fn boundary_block(b: ChunkBoundary, slab: SlabIndex, i: int) -> BlockPosition {
    let along = i % CHUNK_SIZE_USIZE as int;
    let z = i / CHUNK_SIZE_USIZE as int + slab * SLAB_SIZE_I32;
    let last = CHUNK_SIZE_I32 - 1;
    let (x, y) = match b {
        ChunkBoundary::Up => (along, last as int),
        ChunkBoundary::Down => (along, 0int),
        ChunkBoundary::Left => (0int, along),
        ChunkBoundary::Right => (last as int, along),
    };
    block_position_from_signed((x as i32, y as i32, z as i32))
}

/// The slab's slices all have signed coordinates.
pub open spec fn slab_fits(slab: SlabIndex) -> bool {
    i32::MIN <= slab * SLAB_SIZE_I32 && slab * SLAB_SIZE_I32 + SLAB_SIZE_I32 <= i32::MAX
}

impl ChunkBoundary {
    /// All four boundaries.
    pub fn boundaries() -> (r: Vec<ChunkBoundary>)
        ensures
            r@ == seq![ChunkBoundary::Up, ChunkBoundary::Down, ChunkBoundary::Left, ChunkBoundary::Right],
    {
        vec![ChunkBoundary::Up, ChunkBoundary::Down, ChunkBoundary::Left, ChunkBoundary::Right]
    }

    /// Every block of a chunk on this boundary, within the given slab.
    pub fn blocks_in_slab(self, slab: SlabIndex) -> (r: Vec<BlockPosition>)
        requires
            slab_fits(slab),
        ensures
            r@.len() == CHUNK_BOUNDARY_SLICE_SIZE,
            forall|i: int| 0 <= i < r@.len() ==> #[trigger] r@[i] == boundary_block(self, slab, i),
    {
        let mut out: Vec<BlockPosition> = Vec::new();
        let base = slab * SLAB_SIZE_I32;
        let last = CHUNK_SIZE_I32 - 1;
        let mut dz: i32 = 0;
        while dz < SLAB_SIZE_I32
            invariant
                0 <= dz <= SLAB_SIZE_I32,
                base == slab * SLAB_SIZE_I32,
                last == CHUNK_SIZE_I32 - 1,
                slab_fits(slab),
                out@.len() == dz * CHUNK_SIZE_USIZE,
                forall|i: int| 0 <= i < out@.len() ==> #[trigger] out@[i] == boundary_block(self, slab, i),
            decreases SLAB_SIZE_I32 - dz,
        {
            let z = base + dz;
            let mut a: i32 = 0;
            while a < CHUNK_SIZE_I32
                invariant
                    0 <= a <= CHUNK_SIZE_I32,
                    0 <= dz < SLAB_SIZE_I32,
                    z == slab * SLAB_SIZE_I32 + dz,
                    last == CHUNK_SIZE_I32 - 1,
                    out@.len() == dz * CHUNK_SIZE_USIZE + a,
                    forall|i: int| 0 <= i < out@.len() ==> #[trigger] out@[i] == boundary_block(self, slab, i),
                decreases CHUNK_SIZE_I32 - a,
            {
                let (x, y) = match self {
                    ChunkBoundary::Up => (a, last),
                    ChunkBoundary::Down => (a, 0),
                    ChunkBoundary::Left => (0, a),
                    ChunkBoundary::Right => (last, a),
                };
                let pos: BlockPosition = BlockPosition::from((x, y, z));
                proof {
                    let n = out@.len() as int;
                    assert(n % 16 == a as int && n / 16 == dz as int) by (nonlinear_arith)
                        requires
                            n == dz * 16 + a,
                            0 <= a < 16,
                            0 <= dz,
                    ;
                }
                out.push(pos);
                a = a + 1;
            }
            dz = dz + 1;
        }
        out
    }

    pub fn shift(self, pos: WorldPosition) -> (r: WorldPosition)
        requires
            shift_fits(self, pos),
        ensures
            r == shift_spec(self, pos),
    {
        let WorldPosition(x, y, z) = pos;
        match self {
            ChunkBoundary::Up => WorldPosition(x, y + 1, z),
            ChunkBoundary::Down => WorldPosition(x, y - 1, z),
            ChunkBoundary::Left => WorldPosition(x - 1, y, z),
            ChunkBoundary::Right => WorldPosition(x + 1, y, z),
        }
    }

    pub fn opposite(self) -> (r: Self)
        ensures
            r == opposite_spec(self),
    {
        match self {
            ChunkBoundary::Up => ChunkBoundary::Down,
            ChunkBoundary::Down => ChunkBoundary::Up,
            ChunkBoundary::Left => ChunkBoundary::Right,
            ChunkBoundary::Right => ChunkBoundary::Left,
        }
    }
}

/// The boundary opposite the opposite boundary is the boundary itself, and no boundary is
/// its own opposite.
pub proof fn lemma_opposite_involution(b: ChunkBoundary)
    ensures
        opposite_spec(opposite_spec(b)) == b,
        opposite_spec(b) != b,
{
}

/// Stepping across a boundary and then across the opposite boundary returns to the start.
pub proof fn lemma_shift_opposite_returns(b: ChunkBoundary, pos: WorldPosition)
    requires
        shift_fits(b, pos),
    ensures
        shift_fits(opposite_spec(b), shift_spec(b, pos)),
        shift_spec(opposite_spec(b), shift_spec(b, pos)) == pos,
{
}

/// Every block on a boundary of a chunk within a slab lies on that boundary's edge of the
/// chunk, inside the chunk, and inside the slab's slices.
pub proof fn lemma_boundary_blocks_on_edge(b: ChunkBoundary, slab: SlabIndex, i: int)
    requires
        slab_fits(slab),
        0 <= i < CHUNK_BOUNDARY_SLICE_SIZE,
    ensures
        ({
            let p = boundary_block(b, slab, i);
            &&& p.0.0 < 16 && p.1.0 < 16
            &&& slab * SLAB_SIZE_I32 <= p.2.0 < slab * SLAB_SIZE_I32 + SLAB_SIZE_I32
            &&& (b == ChunkBoundary::Up ==> p.1.0 == 15)
            &&& (b == ChunkBoundary::Down ==> p.1.0 == 0)
            &&& (b == ChunkBoundary::Left ==> p.0.0 == 0)
            &&& (b == ChunkBoundary::Right ==> p.0.0 == 15)
        }),
{
    assert(0 <= i / 16 < 32 && 0 <= i % 16 < 16) by (nonlinear_arith)
        requires
            0 <= i < 512,
    ;
}

} // verus!
