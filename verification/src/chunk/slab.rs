use vstd::prelude::*;

use crate::chunk::slice_navmesh::{
    emitted_rects, input_heights, make_mesh, mesh_outcome, mesh_partition, SliceAreaIndex,
    SliceConfig, SliceRect,
};
use crate::chunk::vertical_space::{
    height_at, lemma_wf_blocks, slab_key, SlabVerticalSpace, entry_height, has_entry,
};
use crate::coordinate::world::{
    block_to_world, block_to_world_fits, BlockCoord, BlockPosition, SliceBlock, SliceIndex,
    WorldPosition,
};
use crate::navigationv2::{
    is_border, is_border_spec, range_contains, range_wf, NeighbourOffset, WorldArea,
};
use crate::slab::SlabPosition;

verus! {

/// The greatest free height an area of a slice is given.
pub const NAVMESH_MAX_HEIGHT: u8 = 4;

/// A rectangle of blocks in a slice of a slab that share the same free height above them.
#[derive(Debug, Copy, Clone, Eq, PartialEq)]
pub struct SliceNavArea {
    pub slice: u8,
    pub from: (u8, u8),
    /// Inclusive
    pub to: (u8, u8),
    pub height: u8,
}

/// An area of a slice: the free height above it and its inclusive range of blocks.
#[derive(Debug, Copy, Clone, Eq, PartialEq)]
pub struct AreaInfo {
    pub height: u8,
    /// Inclusive
    pub range: ((u8, u8), (u8, u8)),
}

impl AreaInfo {
    pub fn contains(&self, block: SliceBlock) -> (r: bool)
        ensures
            r == range_contains(self.range, block.0.0 as int, block.1.0 as int),
    {
        let SliceBlock(BlockCoord(x), BlockCoord(y)) = block;
        let ((x1, y1), (x2, y2)) = self.range;
        x >= x1 as u16 && x <= x2 as u16 && y >= y1 as u16 && y <= y2 as u16
    }

    /// Inclusive size
    pub fn size(&self) -> (r: (u8, u8))
        requires
            range_wf(self.range),
            self.range.1.0 - self.range.0.0 < u8::MAX,
            self.range.1.1 - self.range.0.1 < u8::MAX,
        ensures
            r.0 == self.range.1.0 - self.range.0.0 + 1,
            r.1 == self.range.1.1 - self.range.0.1 + 1,
    {
        (self.range.1.0 - self.range.0.0 + 1, self.range.1.1 - self.range.0.1 + 1)
    }

    /// The sides of the chunk that the area reaches, in the order south, east, north, west.
    pub fn borders(&self) -> (r: Vec<NeighbourOffset>)
        ensures
            r@ == seq![
                NeighbourOffset::South,
                NeighbourOffset::East,
                NeighbourOffset::North,
                NeighbourOffset::West,
            ].filter(|d: NeighbourOffset| is_border_spec(d, self.range)),
    {
        let mut out: Vec<NeighbourOffset> = Vec::new();
        let ghost dirs = seq![
            NeighbourOffset::South,
            NeighbourOffset::East,
            NeighbourOffset::North,
            NeighbourOffset::West,
        ];
        let ghost f = |d: NeighbourOffset| is_border_spec(d, self.range);
        proof {
            reveal_with_fuel(Seq::filter, 5);
            assert(dirs.take(0).filter(f) =~= Seq::empty());
        }
        if is_border(NeighbourOffset::South, self.range) {
            out.push(NeighbourOffset::South);
        }
        proof {
            assert(dirs.take(1).drop_last() =~= dirs.take(0));
            assert(out@ =~= dirs.take(1).filter(f));
        }
        if is_border(NeighbourOffset::East, self.range) {
            out.push(NeighbourOffset::East);
        }
        proof {
            assert(dirs.take(2).drop_last() =~= dirs.take(1));
            assert(out@ =~= dirs.take(2).filter(f));
        }
        if is_border(NeighbourOffset::North, self.range) {
            out.push(NeighbourOffset::North);
        }
        proof {
            assert(dirs.take(3).drop_last() =~= dirs.take(2));
            assert(out@ =~= dirs.take(3).filter(f));
        }
        if is_border(NeighbourOffset::West, self.range) {
            out.push(NeighbourOffset::West);
        }
        proof {
            assert(dirs.take(4).drop_last() =~= dirs.take(3));
            assert(dirs.take(4) =~= dirs);
            assert(out@ =~= dirs.filter(f));
        }
        out
    }
}

/// The whole-chunk slice of a world area.
pub open spec fn area_slice(area: WorldArea) -> int {
    area.chunk_area.slab_idx * 32 + area.chunk_area.slab_area.slice_idx
}

/// The block at `(x, y)` in the slice of the world area, as a block of its chunk.
pub open spec fn area_block(area: WorldArea, x: u8, y: u8) -> BlockPosition {
    BlockPosition(BlockCoord(x as u16), BlockCoord(y as u16), SliceIndex(area_slice(area) as i32))
}

/// The world position of the block at `(x, y)` in the slice of the world area fits the
/// world's coordinates.
pub open spec fn area_pos_fits(area: WorldArea, x: u8, y: u8) -> bool {
    &&& i32::MIN <= area.chunk_area.slab_idx * 32
    &&& area_slice(area) <= i32::MAX
    &&& block_to_world_fits(area_block(area, x, y), area.chunk_idx)
}

impl AreaInfo {
    /// The world position of the block at `(x, y)` in the slice of the world area.
    fn pos_to_world(area: WorldArea, xy: (u8, u8)) -> (r: WorldPosition)
        requires
            area_pos_fits(area, xy.0, xy.1),
        ensures
            r == block_to_world(area_block(area, xy.0, xy.1), area.chunk_idx),
    {
        let slice = area.chunk_area.slice();
        BlockPosition(BlockCoord(xy.0 as u16), BlockCoord(xy.1 as u16), SliceIndex(slice))
            .to_world_pos(area.chunk_idx)
    }

    /// The world position of the block in the middle of the area (rounding down), in the
    /// slice of the given world area.
    pub fn centre_pos(&self, area: WorldArea) -> (r: WorldPosition)
        requires
            self.range.0.0 + self.range.1.0 <= u8::MAX,
            self.range.0.1 + self.range.1.1 <= u8::MAX,
            area_pos_fits(
                area,
                ((self.range.0.0 + self.range.1.0) / 2) as u8,
                ((self.range.0.1 + self.range.1.1) / 2) as u8,
            ),
        ensures
            r == block_to_world(
                area_block(
                    area,
                    ((self.range.0.0 + self.range.1.0) / 2) as u8,
                    ((self.range.0.1 + self.range.1.1) / 2) as u8,
                ),
                area.chunk_idx,
            ),
    {
        let (range_min, range_max) = self.range;
        let centre_x = (range_min.0 + range_max.0) / 2;
        let centre_y = (range_min.1 + range_max.1) / 2;
        Self::pos_to_world(area, (centre_x, centre_y))
    }

    /// The world position of the area's lowest corner, in the slice of the given world area.
    pub fn min_pos(&self, area: WorldArea) -> (r: WorldPosition)
        requires
            area_pos_fits(area, self.range.0.0, self.range.0.1),
        ensures
            r == block_to_world(area_block(area, self.range.0.0, self.range.0.1), area.chunk_idx),
    {
        Self::pos_to_world(area, self.range.0)
    }

    /// The world position of the area's highest corner, in the slice of the given world area.
    pub fn max_pos(&self, area: WorldArea) -> (r: WorldPosition)
        requires
            area_pos_fits(area, self.range.1.0, self.range.1.1),
        ensures
            r == block_to_world(area_block(area, self.range.1.0, self.range.1.1), area.chunk_idx),
    {
        Self::pos_to_world(area, self.range.1)
    }

    /// Something `max_xy` blocks wide fits in the area: it is narrower than the area's
    /// smaller side.
    pub fn fits_xy(&self, max_xy: u8) -> (r: bool)
        requires
            range_wf(self.range),
            self.range.1.0 - self.range.0.0 < u8::MAX,
            self.range.1.1 - self.range.0.1 < u8::MAX,
        ensures
            r == (max_xy < self.range.1.0 - self.range.0.0 + 1 && max_xy < self.range.1.1
                - self.range.0.1 + 1),
    {
        let (x, y) = self.size();
        let smaller = if x < y {
            x
        } else {
            y
        };
        max_xy < smaller
    }

    /// The area as an area of the given slice of a slab.
    pub fn as_slice_nav_area(&self, slice: u8) -> (r: SliceNavArea)
        ensures
            r == (SliceNavArea {
                slice,
                from: self.range.0,
                to: self.range.1,
                height: self.height,
            }),
    {
        SliceNavArea { slice, from: self.range.0, to: self.range.1, height: self.height }
    }
}

/// The area of slice `z` that a rectangle of a 16 by 16 slice covers.
pub open spec fn area_of(r: SliceRect, z: int) -> SliceNavArea {
    SliceNavArea {
        slice: z as u8,
        from: ((r.from % 16) as u8, (r.from / 16) as u8),
        to: ((r.to % 16) as u8, (r.to / 16) as u8),
        height: r.height,
    }
}

/// The areas of consecutive slices, starting at slice `first`, one group of rectangles per
/// slice, slice by slice.
pub open spec fn slices_areas(groups: Seq<Seq<SliceRect>>, first: int) -> Seq<SliceNavArea>
    decreases groups.len(),
{
    if groups.len() == 0 {
        Seq::empty()
    } else {
        slices_areas(groups.drop_last(), first) + groups.last().map_values(
            |r: SliceRect| area_of(r, first + groups.len() - 1),
        )
    }
}

/// The free height above the block at index `i` (row-major) of slice `z`, extended into the
/// slab above when the space reaches the top of this slab within the greatest height.
pub open spec fn extended_height(
    vs: &SlabVerticalSpace,
    above: Option<&SlabVerticalSpace>,
    z: int,
    i: int,
) -> int {
    let h0 = height_at(vs.blocks_view(), slab_key(i % 16, i / 16, z));
    let remaining = 31 - z;
    match above {
        Some(a) => if remaining < NAVMESH_MAX_HEIGHT && h0 > remaining {
            h0 + a.below_spec(i % 16, i / 16)
        } else {
            h0
        },
        None => h0,
    }
}

/// The free height that the block at index `i` (row-major) of slice `z` offers an area: the
/// extended space above it (see [extended_height]) capped at the greatest height.
pub open spec fn nav_height(
    vs: &SlabVerticalSpace,
    above: Option<&SlabVerticalSpace>,
    z: int,
    i: int,
) -> int {
    let h1 = extended_height(vs, above, z, i);
    if h1 > NAVMESH_MAX_HEIGHT {
        NAVMESH_MAX_HEIGHT as int
    } else {
        h1
    }
}

/// The free heights of the blocks of slice `z`, row-major, that its areas are meshed from.
pub open spec fn slice_input(vs: &SlabVerticalSpace, above: Option<&SlabVerticalSpace>, z: int) -> Seq<u8> {
    Seq::new(256, |i: int| nav_height(vs, above, z, i) as u8)
}

/// The free height that the bottom block of column `i` offers an area: the space above it, if
/// the block is air and the block below it, at the top of the slab below, is solid; capped at
/// the greatest height.
pub open spec fn bottom_height(this: &SlabVerticalSpace, below: &SlabVerticalSpace, i: int) -> int {
    let h = height_at(this.blocks_view(), slab_key(i % 16, i / 16, 0));
    if h != 0 && below.above_view()[i] == 0 {
        if h > NAVMESH_MAX_HEIGHT {
            NAVMESH_MAX_HEIGHT as int
        } else {
            h
        }
    } else {
        0
    }
}

/// The free heights of the bottom slice's blocks, row-major, that its areas are meshed from.
pub open spec fn bottom_input(this: &SlabVerticalSpace, below: &SlabVerticalSpace) -> Seq<u8> {
    Seq::new(256, |i: int| bottom_height(this, below, i) as u8)
}

/// The slab order of a block given as a position.
pub open spec fn pos_key(p: SlabPosition) -> int {
    slab_key(p.0 as int, p.1 as int, p.2 as int)
}

/// The blocks are those of the space, in its order.
pub open spec fn blocks_of(vs: &SlabVerticalSpace, blocks: Seq<(SlabPosition, u8)>) -> bool {
    &&& blocks.len() == vs.blocks_view().len()
    &&& forall|j: int|
        0 <= j < blocks.len() ==> pos_key(#[trigger] blocks[j].0) == vs.blocks_view()[j].0
            && blocks[j].1 == vs.blocks_view()[j].1 && blocks[j].0.valid()
}

/// Reads the free heights of the blocks of slice `z`, which start at index `start` of the
/// space's blocks, into a row-major slice; returns the index after them.
fn read_slice(vs: &SlabVerticalSpace, blocks: &Vec<(SlabPosition, u8)>, start: usize, z: i32) -> (r: (
    usize,
    [u8; 256],
))
    requires
        vs.wf(),
        blocks_of(vs, blocks@),
        0 <= z < 32,
        start <= blocks@.len(),
        forall|j: int| 0 <= j < start ==> pos_key(#[trigger] blocks@[j].0) < z * 256,
        start < blocks@.len() ==> pos_key(blocks@[start as int].0) >= z * 256,
    ensures
        start <= r.0 <= blocks@.len(),
        forall|j: int| 0 <= j < r.0 ==> pos_key(#[trigger] blocks@[j].0) < (z + 1) * 256,
        r.0 < blocks@.len() ==> pos_key(blocks@[r.0 as int].0) >= (z + 1) * 256,
        forall|i: int|
            0 <= i < 256 ==> #[trigger] r.1@[i] == height_at(vs.blocks_view(), slab_key(i % 16, i / 16, z as int)),
        r.0 == start ==> forall|i: int| 0 <= i < 256 ==> #[trigger] r.1@[i] == 0,
{
    let ghost v = vs.blocks_view();
    proof {
        lemma_wf_blocks(vs);
    }
    let mut input: [u8; 256] = [0u8; 256];
    let mut j: usize = start;
    while j < blocks.len() && blocks[j].0.2 == z
        invariant
            vs.wf(),
            blocks_of(vs, blocks@),
            v == vs.blocks_view(),
            0 <= z < 32,
            start <= j <= blocks@.len(),
            forall|a: int, b: int| 0 <= a < b < v.len() ==> #[trigger] v[a].0 < #[trigger] v[b].0,
            forall|a: int| 0 <= a < v.len() ==> 0 <= #[trigger] v[a].0 && 1 <= v[a].1 <= 8,
            forall|a: int| start <= a < j ==> pos_key(#[trigger] blocks@[a].0) >= z * 256 && blocks@[a].0.2 == z,
            forall|i: int|
                0 <= i < 256 ==> (#[trigger] input@[i] != 0 ==> exists|a: int|
                    start <= a < j && v[a].0 == z * 256 + i && input@[i] == v[a].1),
            forall|i: int|
                0 <= i < 256 ==> (input@[i] == 0 ==> forall|a: int|
                    start <= a < j ==> #[trigger] v[a].0 != z * 256 + i),
            start < blocks@.len() ==> pos_key(blocks@[start as int].0) >= z * 256,
        decreases blocks@.len() - j,
    {
        let (p, h) = blocks[j];
        let idx = (p.1 as usize) * 16 + (p.0 as usize);
        proof {
            assert(pos_key(blocks@[j as int].0) == v[j as int].0);
            assert(v[j as int].0 == z * 256 + idx);
            if j > start {
                assert(v[start as int].0 < v[j as int].0);
            }
            assert forall|a: int| start <= a < j implies #[trigger] v[a].0 != z * 256 + idx by {
                assert(v[a].0 < v[j as int].0);
            }
        }
        input[idx] = h;
        j = j + 1;
    }
    proof {
        if j < blocks@.len() {
            assert(blocks@[j as int].0.2 != z);
            if j > start {
                assert(v[start as int].0 < v[j as int].0);
            }
            assert(pos_key(blocks@[j as int].0) == v[j as int].0);
        }
        assert forall|a: int| 0 <= a < j implies pos_key(#[trigger] blocks@[a].0) < (z + 1) * 256 by {
            assert(pos_key(blocks@[a].0) == v[a].0);
        }
        assert forall|i: int|
            0 <= i < 256 implies #[trigger] input@[i] == height_at(v, slab_key(i % 16, i / 16, z as int)) by {
            assert(slab_key(i % 16, i / 16, z as int) == z * 256 + i);
            if input@[i] != 0 {
                let a = choose|a: int| start <= a < j && v[a].0 == z * 256 + i && input@[i] == v[a].1;
                assert(has_entry(v, v[a].0));
                let c = choose|c: int| 0 <= c < v.len() && #[trigger] v[c].0 == v[a].0;
                if c < a {
                    assert(v[c].0 < v[a].0);
                } else if c > a {
                    assert(v[a].0 < v[c].0);
                }
                assert(entry_height(v, v[a].0) == v[a].1);
            } else {
                assert forall|a: int| 0 <= a < v.len() implies #[trigger] v[a].0 != z * 256 + i by {
                    assert(pos_key(blocks@[a].0) == v[a].0);
                    if a >= j && j < blocks@.len() {
                        if a > j {
                            assert(v[j as int].0 < v[a].0);
                        }
                    }
                }
            }
        }
    }
    (j, input)
}

/// The mesher's configuration for a slice of a slab: a block's input is its free height, and
/// each rectangle handed over is kept, to become an area of the slice.
struct NavmeshCfg {
    emitted: Vec<([usize; 2], u8, u8)>,
}

impl SliceConfig for NavmeshCfg {
    const SZ: usize = 16;

    const N: usize = 256;

    const FILL_OUTPUT: bool = false;

    type InputElem = u8;

    open spec fn spec_available_height(elem: u8) -> u8 {
        elem
    }

    closed spec fn emitted(&self) -> Seq<([usize; 2], u8, u8)> {
        self.emitted@
    }

    fn available_height(elem: u8) -> (r: u8) {
        elem
    }

    fn emit(&mut self, range: [usize; 2], height: u8, area: u8) {
        self.emitted.push((range, height, area));
    }
}

/// Meshes the heights of a 16 by 16 slice into areas of slice `z`, appending them.
fn mesh_slice(heights: &[u8; 256], z: u8, out: &mut Vec<SliceNavArea>) -> (rects: Ghost<Seq<SliceRect>>)
    ensures
        mesh_partition(rects@, 16, heights@),
        final(out)@ == old(out)@ + rects@.map_values(|r: SliceRect| area_of(r, z as int)),
{
    let mut output: Vec<SliceAreaIndex> = vec![SliceAreaIndex(0); 256];
    let mut initialised: Vec<bool> = vec![false; 256];
    let mut cfg = NavmeshCfg { emitted: Vec::new() };
    proof {
        assert(<NavmeshCfg as SliceConfig>::N == 256);
        assert(input_heights::<NavmeshCfg>(heights@) =~= heights@);
    }
    make_mesh(&mut cfg, heights.as_slice(), output.as_mut_slice(), initialised.as_mut_slice());
    let ghost rects = choose|rects: Seq<SliceRect>|
        #![trigger emitted_rects(rects)]
        {
            &&& mesh_outcome(16, false, input_heights::<NavmeshCfg>(heights@), rects, seq![SliceAreaIndex(0); 256], output@, initialised@)
            &&& cfg.emitted() == Seq::<([usize; 2], u8, u8)>::empty() + emitted_rects(rects)
        };
    proof {
        assert(cfg.emitted@ =~= emitted_rects(rects));
        assert(input_heights::<NavmeshCfg>(heights@) =~= heights@);
    }
    let ghost before = out@;
    let mut j: usize = 0;
    while j < cfg.emitted.len()
        invariant
            j <= cfg.emitted@.len(),
            cfg.emitted@ == emitted_rects(rects),
            out@ == before + rects.subrange(0, j as int).map_values(|r: SliceRect| area_of(r, z as int)),
        decreases cfg.emitted@.len() - j,
    {
        let (range, height, _area) = cfg.emitted[j];
        proof {
            assert(cfg.emitted@[j as int] == ([rects[j as int].from, rects[j as int].to], rects[j as int].height, rects[j as int].area));
        }
        out.push(SliceNavArea {
            slice: z,
            from: ((range[0] % 16) as u8, (range[0] / 16) as u8),
            to: ((range[1] % 16) as u8, (range[1] / 16) as u8),
            height,
        });
        proof {
            assert(rects.subrange(0, j + 1) =~= rects.subrange(0, j as int).push(rects[j as int]));
            assert(out@ =~= before + rects.subrange(0, j + 1).map_values(|r: SliceRect| area_of(r, z as int)));
        }
        j = j + 1;
    }
    proof {
        assert(rects.subrange(0, rects.len() as int) =~= rects);
    }
    Ghost(rects)
}

/// The areas of the slices of a slab above its bottom slice: in each slice, slice by slice
/// upwards, the rectangles of blocks with the same free height (see [nav_height]) in the
/// order the mesher finds them, appended to `out`.
pub fn discover_navmesh(
    vertical_space: &SlabVerticalSpace,
    above: Option<&SlabVerticalSpace>,
    out: &mut Vec<SliceNavArea>,
)
    requires
        vertical_space.wf(),
        above matches Some(a) ==> a.wf(),
    ensures
        exists|groups: Seq<Seq<SliceRect>>|
            groups.len() == 31 && (forall|z: int|
                1 <= z < 32 ==> mesh_partition(
                    #[trigger] groups[z - 1],
                    16,
                    slice_input(vertical_space, above, z),
                )) && final(out)@ == old(out)@ + slices_areas(groups, 1),
{
    let maximum: u8 = NAVMESH_MAX_HEIGHT;
    let blocks = vertical_space.iter_blocks();
    proof {
        lemma_wf_blocks(vertical_space);
        if let Some(a) = above {
            lemma_wf_blocks(a);
        }
    }
    // the bottom slice is skipped
    let (first, _) = read_slice(vertical_space, &blocks, 0, 0);
    let mut k: usize = first;
    let ghost mut groups: Seq<Seq<SliceRect>> = Seq::empty();
    let ghost before = out@;
    let mut z: i32 = 1;
    while z < 32
        invariant
            vertical_space.wf(),
            above matches Some(a) ==> a.wf(),
            blocks_of(vertical_space, blocks@),
            1 <= z <= 32,
            maximum == NAVMESH_MAX_HEIGHT,
            groups.len() == z - 1,
            k <= blocks@.len(),
            forall|j: int| 0 <= j < k ==> pos_key(#[trigger] blocks@[j].0) < z * 256,
            k < blocks@.len() ==> pos_key(blocks@[k as int].0) >= z * 256,
            forall|zz: int|
                1 <= zz < z ==> mesh_partition(
                    #[trigger] groups[zz - 1],
                    16,
                    slice_input(vertical_space, above, zz),
                ),
            out@ == before + slices_areas(groups, 1),
        decreases 32 - z,
    {
        let (next, mut input) = read_slice(vertical_space, &blocks, k, z);
        let ghost rects: Seq<SliceRect>;
        if next > k {
            let ghost read = input@;
            proof {
                assert forall|c: int| 0 <= c < 256 implies #[trigger] read[c] <= 8 by {
                    lemma_height_at_bound(vertical_space, slab_key(c % 16, c / 16, z as int));
                }
            }
            if let Some(a) = above {
                // the top few slices may extend into the slab above
                let remaining_until_top = (31 - z) as u8;
                if remaining_until_top < maximum {
                    let mut i: usize = 0;
                    while i < 256
                        invariant
                            i <= 256,
                            a.wf(),
                            read.len() == 256,
                            remaining_until_top == 31 - z,
                            forall|c: int| 0 <= c < 256 ==> #[trigger] read[c] <= 8,
                            forall|c: int|
                                0 <= c < 256 ==> #[trigger] input@[c] == (if c < i && read[c]
                                    > remaining_until_top {
                                    read[c] + a.below_spec(c % 16, c / 16)
                                } else {
                                    read[c] as int
                                }),
                        decreases 256 - i,
                    {
                        if input[i] > remaining_until_top {
                            let b = a.below_at(((i % 16) as u8, (i / 16) as u8));
                            proof {
                                lemma_below_bound(a, i as int);
                            }
                            input[i] = input[i] + b;
                        }
                        i = i + 1;
                    }
                }
            }
            proof {
                assert forall|c: int| 0 <= c < 256 implies #[trigger] input@[c] == extended_height(
                    vertical_space,
                    above,
                    z as int,
                    c,
                ) by {
                    assert(read[c] == height_at(vertical_space.blocks_view(), slab_key(c % 16, c / 16, z as int)));
                }
            }
            let ghost extended = input@;
            let mut i: usize = 0;
            while i < 256
                invariant
                    i <= 256,
                    forall|c: int|
                        0 <= c < 256 ==> #[trigger] input@[c] == (if c < i && extended[c] > maximum {
                            maximum
                        } else {
                            extended[c]
                        }),
                decreases 256 - i,
            {
                if input[i] > maximum {
                    input[i] = maximum;
                }
                i = i + 1;
            }
            proof {
                assert(input@ =~= slice_input(vertical_space, above, z as int));
            }
            let g = mesh_slice(&input, z as u8, out);
            proof {
                rects = g@;
            }
        } else {
            proof {
                rects = Seq::empty();
                assert forall|c: int| 0 <= c < 256 implies #[trigger] slice_input(vertical_space, above, z as int)[c] == 0 by {
                    assert(input@[c] == 0);
                }
            }
        }
        proof {
            let old_groups = groups;
            groups = groups.push(rects);
            assert(groups.drop_last() =~= old_groups);
            assert(out@ =~= before + slices_areas(groups, 1));
        }
        k = next;
        z = z + 1;
    }
}

/// The areas of the bottom slice of a slab over the top of the slab below it: the rectangles
/// of air blocks above a solid block, by their free height (see [bottom_height]), appended to
/// `out`.
pub fn discover_bottom_slice_areas(
    this: &SlabVerticalSpace,
    below: &SlabVerticalSpace,
    out: &mut Vec<SliceNavArea>,
)
    requires
        this.wf(),
    ensures
        exists|rects: Seq<SliceRect>|
            mesh_partition(rects, 16, bottom_input(this, below)) && final(out)@ == old(out)@
                + rects.map_values(|r: SliceRect| area_of(r, 0)),
{
    let maximum: u8 = NAVMESH_MAX_HEIGHT;
    let blocks = this.iter_blocks();
    // only the blocks of this slab's bottom slice
    let (_, this_heights) = read_slice(this, &blocks, 0, 0);
    let below_tops = below.above();
    let mut input: [u8; 256] = [0u8; 256];
    let mut i: usize = 0;
    while i < 256
        invariant
            i <= 256,
            this.wf(),
            maximum == NAVMESH_MAX_HEIGHT,
            below_tops@ == below.above_view(),
            below_tops@.len() == 256,
            forall|c: int|
                0 <= c < 256 ==> #[trigger] this_heights@[c] == height_at(this.blocks_view(), slab_key(c % 16, c / 16, 0)),
            forall|c: int|
                0 <= c < 256 ==> #[trigger] input@[c] == (if c < i {
                    bottom_height(this, below, c) as u8
                } else {
                    0
                }),
        decreases 256 - i,
    {
        proof {
            lemma_height_at_bound(this, slab_key(i as int % 16, i as int / 16, 0));
        }
        if this_heights[i] != 0 && below_tops[i] == 0 {
            input[i] = if this_heights[i] > maximum {
                maximum
            } else {
                this_heights[i]
            };
        }
        i = i + 1;
    }
    proof {
        assert(input@ =~= bottom_input(this, below));
    }
    let g = mesh_slice(&input, 0, out);
}

/// The free space above the bottom of a column is at most the most recorded.
proof fn lemma_below_bound(a: &SlabVerticalSpace, i: int)
    requires
        a.wf(),
        0 <= i < 256,
    ensures
        0 <= a.below_spec(i % 16, i / 16) <= 8,
{
    lemma_wf_blocks(a);
    let key = slab_key(i % 16, i / 16, 0);
    if has_entry(a.blocks_view(), key) {
        let c = choose|c: int| 0 <= c < a.blocks_view().len() && #[trigger] a.blocks_view()[c].0 == key;
        assert(1 <= a.blocks_view()[c].1 <= 8);
    }
}

/// The free height recorded for a block is at most the most recorded.
proof fn lemma_height_at_bound(vs: &SlabVerticalSpace, key: int)
    requires
        vs.wf(),
    ensures
        0 <= height_at(vs.blocks_view(), key) <= 8,
{
    lemma_wf_blocks(vs);
    if has_entry(vs.blocks_view(), key) {
        let c = choose|c: int| 0 <= c < vs.blocks_view().len() && #[trigger] vs.blocks_view()[c].0 == key;
        assert(1 <= vs.blocks_view()[c].1 <= 8);
    }
}


/// The free height a block of slice `z` offers an area is its free height in the slab, capped
/// at the greatest height, except where that space reaches the slab's top within the greatest
/// height and a slab above is given: then the free space at the bottom of the slab above
/// continues it, and the sum is capped.
pub proof fn lemma_nav_height_extends_above(
    vs: &SlabVerticalSpace,
    above: Option<&SlabVerticalSpace>,
    z: int,
    i: int,
)
    requires
        0 <= z < 32,
        0 <= i < 256,
    ensures
        ({
            let h0 = height_at(vs.blocks_view(), slab_key(i % 16, i / 16, z));
            let cap = NAVMESH_MAX_HEIGHT as int;
            &&& (above is Some && 31 - z < cap && h0 > 31 - z) ==> nav_height(vs, above, z, i) == if h0
                + above.unwrap().below_spec(i % 16, i / 16) > cap {
                cap
            } else {
                h0 + above.unwrap().below_spec(i % 16, i / 16)
            }
            &&& (above is None || h0 <= 31 - z) ==> nav_height(vs, above, z, i) == if h0 > cap {
                cap
            } else {
                h0
            }
            &&& slice_input(vs, above, z)[i] == nav_height(vs, above, z, i) as u8
        }),
{
}

} // verus!
