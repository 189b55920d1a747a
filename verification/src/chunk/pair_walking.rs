use vstd::prelude::*;

use crate::coordinate::world::{BlockCoord, BlockPosition, SliceIndex};
use crate::navigationv2::NeighbourOffset;
use crate::occlusion::{BlockOpacity, NeighbourOpacity};
use crate::slab::SlabIndex;

verus! {

/// The `i`th block of the row or column of a chunk on its border in the given direction, as
/// walked anti-clockwise round the chunk.
pub open spec fn boundary_block(direction: NeighbourOffset, i: int) -> (u8, u8) {
    match direction {
        NeighbourOffset::North => ((15 - i) as u8, 15u8),
        NeighbourOffset::South => (i as u8, 0u8),
        NeighbourOffset::West => (0u8, (15 - i) as u8),
        _ => (15u8, i as u8),
    }
}

/// The block of the neighbouring chunk in the given direction that faces a block of this
/// chunk's border: the same block along the border, at the near edge of the neighbour.
pub open spec fn across_border(direction: NeighbourOffset, b: (u8, u8)) -> (u8, u8) {
    match direction {
        NeighbourOffset::North => (b.0, 0u8),
        NeighbourOffset::South => (b.0, 15u8),
        NeighbourOffset::West => (15u8, b.1),
        _ => (0u8, b.1),
    }
}

/// Fills in the blocks of the border of a chunk in the given direction, walking anti-clockwise
/// round the chunk.
pub fn calculate_boundary_slice_block_offsets(direction: NeighbourOffset, coords: &mut [(u8, u8); 16])
    requires
        direction.aligned(),
    ensures
        forall|i: int| 0 <= i < 16 ==> #[trigger] final(coords)@[i] == boundary_block(direction, i),
{
    let mut i: usize = 0;
    while i < 16
        invariant
            direction.aligned(),
            i <= 16,
            coords@.len() == 16,
            forall|j: int| 0 <= j < i ==> #[trigger] coords@[j] == boundary_block(direction, j),
        decreases 16 - i,
    {
        let c: (u8, u8) = match direction {
            // reverse to iterate anti clockwise
            NeighbourOffset::North => ((15 - i) as u8, 15),
            NeighbourOffset::South => (i as u8, 0),
            // reverse to iterate anti clockwise
            NeighbourOffset::West => (0, (15 - i) as u8),
            _ => (15, i as u8),
        };
        coords[i] = c;
        i = i + 1;
    }
}

/// The block across the border in the neighbouring chunk from a block of this chunk's border.
pub fn extend_boundary_slice_block(direction: NeighbourOffset, b: (u8, u8)) -> (r: (u8, u8))
    requires
        direction.aligned(),
    ensures
        r == across_border(direction, b),
{
    let (x, y) = b;
    match direction {
        NeighbourOffset::North => (x, 0),
        NeighbourOffset::South => (x, 15),
        NeighbourOffset::West => (15, y),
        _ => (0, y),
    }
}

/// Each border block lies on the border, and the block across the border from it, placed in
/// the neighbouring chunk, is its neighbour in the direction: one step away along the
/// direction.
pub proof fn lemma_across_border_is_adjacent(direction: NeighbourOffset, i: int)
    requires
        direction.aligned(),
        0 <= i < 16,
    ensures
        ({
            let b = boundary_block(direction, i);
            let n = across_border(direction, b);
            let (dx, dy) = direction.offset_spec();
            &&& b.0 < 16 && b.1 < 16
            &&& n.0 + 16 * dx == b.0 + dx
            &&& n.1 + 16 * dy == b.1 + dy
        }),
{
}


/// The number of blocks in a slab.
pub const SLAB_VOLUME: usize = 8192;

/// The slabs of paired chunks lie strictly within this many slabs of slab zero, either way, so
/// that the index of every slice they hold, and of the slice just below them, fits an `i32`.
pub const PAIRED_SLAB_LIMIT: i32 = 67108864;

/// Which of two paired chunks a block belongs to.
#[derive(Debug, Copy, Clone, PartialEq, Eq, Structural)]
pub enum WhichChunk {
    ThisChunk,
    OtherChunk,
}

/// What the pairing of two chunks reads of a chunk's terrain: whether each block is solid, slab
/// by slab from the lowest. Block `(x, y)` of slice `z` of slab `min_slab + k` is solid when
/// `solid[k * SLAB_VOLUME + (z * 16 + y) * 16 + x]` holds.
pub struct ChunkOpacity {
    pub min_slab: SlabIndex,
    pub solid: Vec<bool>,
}

impl ChunkOpacity {
    pub open spec fn slab_count(&self) -> int {
        self.solid@.len() as int / 8192
    }

    pub open spec fn max_slab(&self) -> int {
        self.min_slab + self.slab_count() - 1
    }

    /// At least one whole slab, and every slab within the pairing limit.
    pub open spec fn wf(&self) -> bool {
        &&& self.solid@.len() >= 8192
        &&& self.solid@.len() % 8192 == 0
        &&& -PAIRED_SLAB_LIMIT < self.min_slab
        &&& self.max_slab() < PAIRED_SLAB_LIMIT
    }

    pub open spec fn has_slab(&self, s: int) -> bool {
        self.min_slab <= s <= self.max_slab()
    }

    pub open spec fn solid_at(&self, s: int, z: int, b: (u8, u8)) -> bool {
        self.solid@[(s - self.min_slab) * 8192 + (z * 16 + b.1) * 16 + b.0]
    }

    /// The chunk's slabs within the given range of slabs: its lowest and highest slab, each
    /// clamped to the range.
    pub open spec fn limited(&self, range: (SlabIndex, SlabIndex)) -> (int, int) {
        (
            if range.0 > self.min_slab { range.0 as int } else { self.min_slab as int },
            if range.1 < self.max_slab() { range.1 as int } else { self.max_slab() },
        )
    }

    pub fn has_slab_at(&self, s: i64) -> (r: bool)
        requires
            self.wf(),
        ensures
            r == self.has_slab(s as int),
    {
        let count = (self.solid.len() / SLAB_VOLUME) as i64;
        self.min_slab as i64 <= s && s <= self.min_slab as i64 + count - 1
    }

    /// Whether block `b` of slice `z` of slab `s` is solid.
    pub fn is_solid(&self, s: SlabIndex, z: u8, b: (u8, u8)) -> (r: bool)
        requires
            self.wf(),
            self.has_slab(s as int),
            z < 32,
            b.0 < 16,
            b.1 < 16,
        ensures
            r == self.solid_at(s as int, z as int, b),
    {
        let len = self.solid.len();
        let k = (s as i64 - self.min_slab as i64) as usize;
        assert(k * 8192 + 8192 <= len) by (nonlinear_arith)
            requires
                k < len as int / 8192,
                len % 8192 == 0,
        ;
        let within = (z as usize * 16 + b.1 as usize) * 16 + b.0 as usize;
        self.solid[k * SLAB_VOLUME + within]
    }

    /// The chunk's slabs within the given range of slabs.
    pub fn limited_slab_indices(&self, limit: (SlabIndex, SlabIndex)) -> (r: (SlabIndex, SlabIndex))
        requires
            self.wf(),
        ensures
            r.0 == self.limited(limit).0,
            r.1 == self.limited(limit).1,
    {
        let max = self.min_slab + (self.solid.len() / SLAB_VOLUME) as i32 - 1;
        let lo = if limit.0 > self.min_slab { limit.0 } else { self.min_slab };
        let hi = if limit.1 < max { limit.1 } else { max };
        (lo, hi)
    }
}

pub open spec fn opacity_of(solid: bool) -> BlockOpacity {
    if solid {
        BlockOpacity::Solid
    } else {
        BlockOpacity::Transparent
    }
}

/// The slice just above slice `z` of slab `slab`, as a slab and a slice in it.
pub open spec fn slice_above(slab: int, z: int) -> (int, int) {
    if z < 31 {
        (slab, z + 1)
    } else {
        (slab + 1, 0)
    }
}

/// The block directly above `b` in the lower chunk is there and solid.
pub open spec fn covered(lower: ChunkOpacity, slab: int, z: int, b: (u8, u8)) -> bool {
    let a = slice_above(slab, z);
    lower.has_slab(a.0) && lower.solid_at(a.0, a.1, b)
}

/// The opacity of block `b` of the upper chunk, one slice above slice `z` of slab `slab`.
pub open spec fn upper_opacity(upper: ChunkOpacity, slab: int, z: int, b: (u8, u8)) -> BlockOpacity {
    let a = slice_above(slab, z);
    opacity_of(upper.solid_at(a.0, a.1, b))
}

pub open spec fn block_position(b: (u8, u8), slab: int, z: int) -> BlockPosition {
    BlockPosition(BlockCoord(b.0 as u16), BlockCoord(b.1 as u16), SliceIndex((slab * 32 + z) as i32))
}

/// A block paired across a chunk border, with the opacity of its eight neighbours in the
/// slice above, by ordinal.
pub type PairEntry = (WhichChunk, BlockPosition, Seq<BlockOpacity>);

pub open spec fn pairs_view(v: Seq<(WhichChunk, BlockPosition, NeighbourOpacity)>) -> Seq<PairEntry> {
    v.map_values(|e: (WhichChunk, BlockPosition, NeighbourOpacity)| (e.0, e.1, e.2.0@))
}

/// The neighbour opacities of the `i`th border block: the block across the border, and the
/// blocks across the border from the border blocks before and after it, each where there is one.
pub open spec fn side_opacities(upper: ChunkOpacity, slab: int, z: int, dir: NeighbourOffset, i: int) -> Seq<BlockOpacity> {
    let d = dir.ordinal_spec();
    Seq::new(
        8,
        |k: int|
            if k == d {
                upper_opacity(upper, slab, z, across_border(dir, boundary_block(dir, i)))
            } else if k == (d + 1) % 8 && i > 0 {
                upper_opacity(upper, slab, z, across_border(dir, boundary_block(dir, i - 1)))
            } else if k == (d + 7) % 8 && i < 15 {
                upper_opacity(upper, slab, z, across_border(dir, boundary_block(dir, i + 1)))
            } else {
                BlockOpacity::Transparent
            },
    )
}

/// The first `n` border blocks of slice `z` of the lower chunk's slab `slab` paired across a
/// side border, leaving out those covered from above.
pub open spec fn side_yield(
    lower: ChunkOpacity,
    upper: ChunkOpacity,
    which: WhichChunk,
    slab: int,
    z: int,
    dir: NeighbourOffset,
    n: int,
) -> Seq<PairEntry>
    decreases n,
{
    if n <= 0 {
        Seq::empty()
    } else {
        let prev = side_yield(lower, upper, which, slab, z, dir, n - 1);
        let b = boundary_block(dir, n - 1);
        if covered(lower, slab, z, b) {
            prev
        } else {
            prev.push((which, block_position(b, slab, z), side_opacities(upper, slab, z, dir, n - 1)))
        }
    }
}

/// The corner block of a chunk in a diagonal direction.
pub open spec fn corner_block(dir: NeighbourOffset) -> (u8, u8) {
    match dir {
        NeighbourOffset::SouthEast => (15u8, 0u8),
        NeighbourOffset::NorthEast => (15u8, 15u8),
        NeighbourOffset::NorthWest => (0u8, 15u8),
        _ => (0u8, 0u8),
    }
}

/// The corner block of slice `z` of the lower chunk's slab `slab` paired across a corner: there
/// only when it is not covered from above and the diagonal block of the upper chunk, one slice
/// up, is solid.
pub open spec fn corner_yield(
    lower: ChunkOpacity,
    upper: ChunkOpacity,
    which: WhichChunk,
    slab: int,
    z: int,
    dir: NeighbourOffset,
) -> Seq<PairEntry> {
    let b = corner_block(dir);
    let a = slice_above(slab, z);
    if !covered(lower, slab, z, b) && upper.solid_at(a.0, a.1, corner_block(dir.opposite_spec())) {
        seq![(which, block_position(b, slab, z), Seq::new(8, |k: int| if k == dir.ordinal_spec() { BlockOpacity::Solid } else { BlockOpacity::Transparent }))]
    } else {
        Seq::empty()
    }
}

pub open spec fn step_yield(
    lower: ChunkOpacity,
    upper: ChunkOpacity,
    which: WhichChunk,
    slab: int,
    z: int,
    dir: NeighbourOffset,
) -> Seq<PairEntry> {
    if dir.aligned() {
        side_yield(lower, upper, which, slab, z, dir, 16)
    } else {
        corner_yield(lower, upper, which, slab, z, dir)
    }
}

/// What can be read for pairing slice `z` of slab `slab` of the lower chunk with the slice
/// above it in the upper chunk: the slice above is in the upper chunk.
pub open spec fn step_readable(lower: ChunkOpacity, upper: ChunkOpacity, slab: int, z: int) -> bool {
    &&& lower.wf()
    &&& upper.wf()
    &&& 0 <= z < 32
    &&& -PAIRED_SLAB_LIMIT <= slab < PAIRED_SLAB_LIMIT
    &&& upper.has_slab(slice_above(slab, z).0)
}

fn slice_above_exec(slab: SlabIndex, z: u8) -> (r: (SlabIndex, u8))
    requires
        z < 32,
        slab < PAIRED_SLAB_LIMIT,
    ensures
        r.0 == slice_above(slab as int, z as int).0,
        r.1 == slice_above(slab as int, z as int).1,
{
    if z < 31 {
        (slab, z + 1)
    } else {
        (slab + 1, 0)
    }
}

fn opacity_from(solid: bool) -> (r: BlockOpacity)
    ensures
        r == opacity_of(solid),
{
    if solid {
        BlockOpacity::Solid
    } else {
        BlockOpacity::Transparent
    }
}

proof fn lemma_pairs_view_push(v: Seq<(WhichChunk, BlockPosition, NeighbourOpacity)>, e: (WhichChunk, BlockPosition, NeighbourOpacity))
    ensures
        pairs_view(v.push(e)) == pairs_view(v).push((e.0, e.1, e.2.0@)),
{
    assert(pairs_view(v.push(e)) =~= pairs_view(v).push((e.0, e.1, e.2.0@)));
}

/// Pairs each block of the border of slice `z` of slab `slab` of the lower chunk, in direction
/// `dir`, with its neighbours across the border one slice up, skipping those covered from above.
pub fn yield_side(
    lower: &ChunkOpacity,
    upper: &ChunkOpacity,
    which: WhichChunk,
    slab: SlabIndex,
    z: u8,
    dir: NeighbourOffset,
    out: &mut Vec<(WhichChunk, BlockPosition, NeighbourOpacity)>,
)
    requires
        dir.aligned(),
        step_readable(*lower, *upper, slab as int, z as int),
    ensures
        pairs_view(final(out)@) == pairs_view(old(out)@) + side_yield(*lower, *upper, which, slab as int, z as int, dir, 16),
{
    let mut coords = [(0u8, 0u8); 16];
    calculate_boundary_slice_block_offsets(dir, &mut coords);
    let (sa, za) = slice_above_exec(slab, z);
    let above_present = lower.has_slab_at(sa as i64);
    let global_z: i32 = slab * 32 + z as i32;
    let d = dir.ordinal();
    let left_slot = dir.next().ordinal();
    let right_slot = dir.prev().ordinal();
    let mut i: usize = 0;
    while i < 16
        invariant
            dir.aligned(),
            step_readable(*lower, *upper, slab as int, z as int),
            i <= 16,
            forall|j: int| 0 <= j < 16 ==> #[trigger] coords@[j] == boundary_block(dir, j),
            sa == slice_above(slab as int, z as int).0,
            za == slice_above(slab as int, z as int).1,
            above_present == lower.has_slab(sa as int),
            global_z == slab * 32 + z,
            d == dir.ordinal_spec(),
            left_slot == (d + 1) % 8,
            right_slot == (d + 7) % 8,
            pairs_view(out@) == pairs_view(old(out)@) + side_yield(*lower, *upper, which, slab as int, z as int, dir, i as int),
        decreases 16 - i,
    {
        let c = coords[i];
        let ghost before = out@;
        if above_present && lower.is_solid(sa, za, c) {
            // the block directly above is solid
        } else {
            let mut o = NeighbourOpacity::default_const();
            let centre = extend_boundary_slice_block(dir, c);
            o.0[d] = opacity_from(upper.is_solid(sa, za, centre));
            if i > 0 {
                let left = extend_boundary_slice_block(dir, coords[i - 1]);
                o.0[left_slot] = opacity_from(upper.is_solid(sa, za, left));
            }
            if i < 15 {
                let right = extend_boundary_slice_block(dir, coords[i + 1]);
                o.0[right_slot] = opacity_from(upper.is_solid(sa, za, right));
            }
            let pos = BlockPosition(BlockCoord(c.0 as u16), BlockCoord(c.1 as u16), SliceIndex(global_z));
            out.push((which, pos, o));
            proof {
                assert(o.0@ =~= side_opacities(*upper, slab as int, z as int, dir, i as int));
                lemma_pairs_view_push(before, (which, pos, o));
            }
        }
        assert(pairs_view(out@) =~= pairs_view(old(out)@) + side_yield(*lower, *upper, which, slab as int, z as int, dir, i + 1));
        i = i + 1;
    }
}

/// Pairs the corner block of slice `z` of slab `slab` of the lower chunk, in diagonal direction
/// `dir`, with the diagonal block one slice up in the upper chunk, when that block is solid and
/// the corner is not covered from above.
pub fn yield_corner(
    lower: &ChunkOpacity,
    upper: &ChunkOpacity,
    which: WhichChunk,
    slab: SlabIndex,
    z: u8,
    dir: NeighbourOffset,
    out: &mut Vec<(WhichChunk, BlockPosition, NeighbourOpacity)>,
)
    requires
        !dir.aligned(),
        step_readable(*lower, *upper, slab as int, z as int),
    ensures
        pairs_view(final(out)@) == pairs_view(old(out)@) + corner_yield(*lower, *upper, which, slab as int, z as int, dir),
{
    let this_pos: (u8, u8) = match dir {
        NeighbourOffset::SouthEast => (15, 0),
        NeighbourOffset::NorthEast => (15, 15),
        NeighbourOffset::NorthWest => (0, 15),
        _ => (0, 0),
    };
    let other_pos: (u8, u8) = match dir {
        NeighbourOffset::SouthEast => (0, 15),
        NeighbourOffset::NorthEast => (0, 0),
        NeighbourOffset::NorthWest => (15, 0),
        _ => (15, 15),
    };
    let (sa, za) = slice_above_exec(slab, z);
    if lower.has_slab_at(sa as i64) && lower.is_solid(sa, za, this_pos) {
        // dont bother if block directly above is solid
        assert(corner_yield(*lower, *upper, which, slab as int, z as int, dir) =~= Seq::empty());
        assert(pairs_view(out@) =~= pairs_view(old(out)@) + Seq::empty());
        return;
    }
    if upper.is_solid(sa, za, other_pos) {
        let mut o = NeighbourOpacity::default_const();
        o.0[dir.ordinal()] = BlockOpacity::Solid;
        let pos = BlockPosition(BlockCoord(this_pos.0 as u16), BlockCoord(this_pos.1 as u16), SliceIndex(slab * 32 + z as i32));
        let ghost before = out@;
        out.push((which, pos, o));
        proof {
            assert(o.0@ =~= Seq::new(8, |k: int| if k == dir.ordinal_spec() { BlockOpacity::Solid } else { BlockOpacity::Transparent }));
            lemma_pairs_view_push(before, (which, pos, o));
            assert(pairs_view(out@) =~= pairs_view(old(out)@) + corner_yield(*lower, *upper, which, slab as int, z as int, dir));
        }
    } else {
        assert(pairs_view(out@) =~= pairs_view(old(out)@) + corner_yield(*lower, *upper, which, slab as int, z as int, dir));
    }
}


/// The pairing of slice `z` of slab `slab` of one chunk with the slice above it in the other:
/// the chunk `which` is the lower one.
pub open spec fn pair_step(
    this: ChunkOpacity,
    other: ChunkOpacity,
    which: WhichChunk,
    slab: int,
    z: int,
    dir: NeighbourOffset,
) -> Seq<PairEntry> {
    match which {
        WhichChunk::ThisChunk => step_yield(this, other, which, slab, z, dir),
        WhichChunk::OtherChunk => step_yield(other, this, which, slab, z, dir),
    }
}

/// Slices below `n` of slab `s`, each paired both ways with the slice above it.
pub open spec fn slab_pairs(this: ChunkOpacity, other: ChunkOpacity, s: int, n: int, offset: NeighbourOffset) -> Seq<PairEntry>
    decreases n,
{
    if n <= 0 {
        Seq::empty()
    } else {
        slab_pairs(this, other, s, n - 1, offset) + pair_step(this, other, WhichChunk::ThisChunk, s, n - 1, offset)
            + pair_step(this, other, WhichChunk::OtherChunk, s, n - 1, offset.opposite_spec())
    }
}

/// Slab `s` of the slabs both chunks hold, up to slab `last`: its slices paired both ways, and
/// its top slice paired both ways with the bottom of the next slab unless it is the last.
pub open spec fn slab_run(this: ChunkOpacity, other: ChunkOpacity, s: int, last: int, offset: NeighbourOffset) -> Seq<PairEntry> {
    slab_pairs(this, other, s, 31, offset) + if s < last {
        pair_step(this, other, WhichChunk::ThisChunk, s, 31, offset) + pair_step(
            this,
            other,
            WhichChunk::OtherChunk,
            s,
            31,
            offset.opposite_spec(),
        )
    } else {
        Seq::empty()
    }
}

/// The slabs from `first` up to, not including, `end`, each as `slab_run`.
pub open spec fn common_run(
    this: ChunkOpacity,
    other: ChunkOpacity,
    first: int,
    end: int,
    last: int,
    offset: NeighbourOffset,
) -> Seq<PairEntry>
    decreases end - first,
{
    if end <= first {
        Seq::empty()
    } else {
        common_run(this, other, first, end - 1, last, offset) + slab_run(this, other, end - 1, last, offset)
    }
}

/// Where one chunk starts lower than the other: the top slice of the lower chunk's slab just
/// below the higher chunk's lowest slab, paired with that slab's bottom slice.
pub open spec fn start_pairs(this: ChunkOpacity, other: ChunkOpacity, offset: NeighbourOffset, range: (SlabIndex, SlabIndex)) -> Seq<PairEntry> {
    let my_min = this.limited(range).0;
    let ur_min = other.limited(range).0;
    if my_min == ur_min {
        Seq::empty()
    } else if my_min < ur_min {
        pair_step(this, other, WhichChunk::ThisChunk, ur_min - 1, 31, offset)
    } else {
        pair_step(this, other, WhichChunk::OtherChunk, my_min - 1, 31, offset.opposite_spec())
    }
}

/// Where one chunk ends higher than the other: the top slice of the lower chunk's highest
/// slab, paired with the bottom slice of the higher chunk's next slab. The direction handed
/// on is `offset` where this chunk is the higher one, and its opposite where it is the lower.
pub open spec fn end_pairs(this: ChunkOpacity, other: ChunkOpacity, offset: NeighbourOffset, range: (SlabIndex, SlabIndex)) -> Seq<PairEntry> {
    let my_max = this.limited(range).1;
    let ur_max = other.limited(range).1;
    if my_max == ur_max {
        Seq::empty()
    } else if my_max > ur_max {
        pair_step(this, other, WhichChunk::OtherChunk, ur_max, 31, offset)
    } else {
        pair_step(this, other, WhichChunk::ThisChunk, my_max, 31, offset.opposite_spec())
    }
}

/// Every block on the border between two neighbouring chunks, within a range of slabs, whose
/// top face borders the other chunk, with the opacity of its neighbours there.
pub open spec fn cross_pairs(this: ChunkOpacity, other: ChunkOpacity, offset: NeighbourOffset, range: (SlabIndex, SlabIndex)) -> Seq<PairEntry> {
    let first = if this.limited(range).0 > other.limited(range).0 {
        this.limited(range).0
    } else {
        other.limited(range).0
    };
    let last = if this.limited(range).1 < other.limited(range).1 {
        this.limited(range).1
    } else {
        other.limited(range).1
    };
    start_pairs(this, other, offset, range) + common_run(this, other, first, last + 1, last, offset) + end_pairs(
        this,
        other,
        offset,
        range,
    )
}

/// The higher-ending chunk holds the slab just above where the other ends.
pub open spec fn pairs_defined(this: ChunkOpacity, other: ChunkOpacity, range: (SlabIndex, SlabIndex)) -> bool {
    let my_max = this.limited(range).1;
    let ur_max = other.limited(range).1;
    &&& my_max > ur_max ==> this.has_slab(ur_max + 1)
    &&& my_max < ur_max ==> other.has_slab(my_max + 1)
}

fn yield_pair_step(
    this: &ChunkOpacity,
    other: &ChunkOpacity,
    which: WhichChunk,
    slab: SlabIndex,
    z: u8,
    dir: NeighbourOffset,
    out: &mut Vec<(WhichChunk, BlockPosition, NeighbourOpacity)>,
)
    requires
        which == WhichChunk::ThisChunk ==> step_readable(*this, *other, slab as int, z as int),
        which == WhichChunk::OtherChunk ==> step_readable(*other, *this, slab as int, z as int),
    ensures
        pairs_view(final(out)@) == pairs_view(old(out)@) + pair_step(*this, *other, which, slab as int, z as int, dir),
{
    let (lower, upper) = match which {
        WhichChunk::ThisChunk => (this, other),
        WhichChunk::OtherChunk => (other, this),
    };
    if dir.is_aligned() {
        yield_side(lower, upper, which, slab, z, dir, out);
    } else {
        yield_corner(lower, upper, which, slab, z, dir, out);
    }
}

/// Pairs each block on the border of this chunk with the other chunk, in direction `offset`,
/// within a range of slabs, with the opacity of its neighbours one slice up across the border;
/// and each such block of the other chunk the same way. Where the chunks start or end at
/// different heights, the top slice of the lower one is paired with the bottom slice above it.
pub fn cross_chunk_pairs(
    this: &ChunkOpacity,
    other: &ChunkOpacity,
    offset: NeighbourOffset,
    slab_range: (SlabIndex, SlabIndex),
) -> (r: Vec<(WhichChunk, BlockPosition, NeighbourOpacity)>)
    requires
        this.wf(),
        other.wf(),
        slab_range.0 < PAIRED_SLAB_LIMIT,
        -PAIRED_SLAB_LIMIT < slab_range.1,
        pairs_defined(*this, *other, slab_range),
    ensures
        pairs_view(r@) == cross_pairs(*this, *other, offset, slab_range),
{
    let offset_opposite = offset.opposite();
    let mut out: Vec<(WhichChunk, BlockPosition, NeighbourOpacity)> = Vec::new();
    let (my_min, my_max) = this.limited_slab_indices(slab_range);
    let (ur_min, ur_max) = other.limited_slab_indices(slab_range);

    // one chunk starts lower than the other
    if my_min < ur_min {
        yield_pair_step(this, other, WhichChunk::ThisChunk, ur_min - 1, 31, offset, &mut out);
    } else if ur_min < my_min {
        yield_pair_step(this, other, WhichChunk::OtherChunk, my_min - 1, 31, offset_opposite, &mut out);
    }
    assert(pairs_view(out@) =~= start_pairs(*this, *other, offset, slab_range));
    let ghost start = pairs_view(out@);

    // continue from the common min up to the first max
    let first = if my_min > ur_min { my_min } else { ur_min };
    let last = if my_max < ur_max { my_max } else { ur_max };
    let mut s = first;
    while s <= last
        invariant
            this.wf(),
            other.wf(),
            -PAIRED_SLAB_LIMIT <= first,
            last < PAIRED_SLAB_LIMIT,
            first <= s,
            s <= last + 1 || s == first,
            first == (if this.limited(slab_range).0 > other.limited(slab_range).0 { this.limited(slab_range).0 } else { other.limited(slab_range).0 }),
            last == (if this.limited(slab_range).1 < other.limited(slab_range).1 { this.limited(slab_range).1 } else { other.limited(slab_range).1 }),
            this.limited(slab_range).0 >= this.min_slab,
            other.limited(slab_range).0 >= other.min_slab,
            this.limited(slab_range).1 <= this.max_slab(),
            other.limited(slab_range).1 <= other.max_slab(),
            offset_opposite == offset.opposite_spec(),
            pairs_view(out@) == start + common_run(*this, *other, first as int, s as int, last as int, offset),
        decreases last + 1 - s,
    {
        let mut z: u8 = 0;
        let ghost base = pairs_view(out@);
        while z < 31
            invariant
                this.wf(),
                other.wf(),
                first <= s <= last,
                -PAIRED_SLAB_LIMIT <= first,
                last < PAIRED_SLAB_LIMIT,
                this.has_slab(s as int),
                other.has_slab(s as int),
                z <= 31,
                offset_opposite == offset.opposite_spec(),
                pairs_view(out@) == base + slab_pairs(*this, *other, s as int, z as int, offset),
            decreases 31 - z,
        {
            yield_pair_step(this, other, WhichChunk::ThisChunk, s, z, offset, &mut out);
            yield_pair_step(this, other, WhichChunk::OtherChunk, s, z, offset_opposite, &mut out);
            assert(pairs_view(out@) =~= base + slab_pairs(*this, *other, s as int, z + 1, offset));
            z = z + 1;
        }
        // top slice of one slab and bottom slice of the next
        if s < last {
            yield_pair_step(this, other, WhichChunk::ThisChunk, s, 31, offset, &mut out);
            yield_pair_step(this, other, WhichChunk::OtherChunk, s, 31, offset_opposite, &mut out);
        }
        assert(pairs_view(out@) =~= base + slab_run(*this, *other, s as int, last as int, offset));
        assert(pairs_view(out@) =~= start + common_run(*this, *other, first as int, s + 1, last as int, offset));
        s = s + 1;
    }
    assert(common_run(*this, *other, first as int, s as int, last as int, offset) =~= common_run(*this, *other, first as int, last + 1, last as int, offset));
    let ghost middle = pairs_view(out@);

    // one chunk ends higher than the other
    if my_max > ur_max {
        yield_pair_step(this, other, WhichChunk::OtherChunk, ur_max, 31, offset, &mut out);
    } else if ur_max > my_max {
        yield_pair_step(this, other, WhichChunk::ThisChunk, my_max, 31, offset_opposite, &mut out);
    }
    assert(pairs_view(out@) =~= middle + end_pairs(*this, *other, offset, slab_range));
    out
}

} // verus!
