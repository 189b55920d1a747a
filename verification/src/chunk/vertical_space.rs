use vstd::prelude::*;

use crate::coordinate::world::{BlockCoord, SliceBlock};
use crate::slab::SlabPosition;
use crate::slice::{flatten_coords, unflatten_index, SLICE_SIZE};

verus! {

pub type FreeVerticalSpace = u8;

/// Must fit into 3 bits
pub const ABSOLUTE_MAX_FREE_VERTICAL_SPACE: FreeVerticalSpace = 8;

/// The number of slices in a slab, as a count.
pub const SLAB_SLICES: usize = 32;

/// The number of blocks in a slab.
pub const SLAB_BLOCKS: usize = 8192;

/// The position of a block and the free space above it, packed into 16 bits: x in bits 12 to
/// 15, y in bits 8 to 11, the slice in bits 3 to 7 and the height less one in bits 0 to 2.
#[derive(Copy, Clone, PartialEq, Eq, Structural)]
pub struct PackedSlabBlockVerticalSpace(u16);

/// The packed form of a block's position and free height.
pub open spec fn pack_spec(x: int, y: int, z: int, height: int) -> int {
    x * 4096 + y * 256 + z * 8 + (height - 1)
}

/// The order of a block in a slab: slice first, then y, then x.
pub open spec fn slab_key(x: int, y: int, z: int) -> int {
    z * 256 + y * 16 + x
}

impl PackedSlabBlockVerticalSpace {
    /// The raw bits.
    pub closed spec fn bits(self) -> int {
        self.0 as int
    }

    pub open spec fn x_spec(self) -> int {
        self.bits() / 4096
    }

    pub open spec fn y_spec(self) -> int {
        (self.bits() / 256) % 16
    }

    pub open spec fn z_spec(self) -> int {
        (self.bits() / 8) % 32
    }

    pub open spec fn height_spec(self) -> int {
        self.bits() % 8 + 1
    }

    /// The block's order in its slab.
    pub open spec fn key(self) -> int {
        slab_key(self.x_spec(), self.y_spec(), self.z_spec())
    }

    pub fn new_(x: u8, y: u8, slice: u8, height: FreeVerticalSpace) -> (r: Self)
        requires
            x < 16,
            y < 16,
            slice < 32,
            0 < height <= ABSOLUTE_MAX_FREE_VERTICAL_SPACE,
        ensures
            r.bits() == pack_spec(x as int, y as int, slice as int, height as int),
            r.x_spec() == x,
            r.y_spec() == y,
            r.z_spec() == slice,
            r.height_spec() == height,
    {
        let bits: u16 = ((x as u16) << 12u16) | ((y as u16) << 8u16) | ((slice as u16) << 3u16) | ((
        height - 1) as u16);
        let r = PackedSlabBlockVerticalSpace(bits);
        proof {
            let xs = x as u16;
            let ys = y as u16;
            let zs = slice as u16;
            let hs = (height - 1) as u16;
            assert(((xs << 12u16) | (ys << 8u16) | (zs << 3u16) | hs) == xs * 4096 + ys * 256 + zs * 8 + hs)
                by (bit_vector)
                requires
                    xs < 16,
                    ys < 16,
                    zs < 32,
                    hs < 8,
            ;
            let b = bits as int;
            assert(b == x * 4096 + y * 256 + slice * 8 + (height - 1));
            assert(b / 4096 == x && (b / 256) % 16 == y && (b / 8) % 32 == slice && b % 8 == height
                - 1) by (nonlinear_arith)
                requires
                    b == x * 4096 + y * 256 + slice * 8 + (height - 1),
                    0 <= x < 16,
                    0 <= y < 16,
                    0 <= slice < 32,
                    0 <= height - 1 < 8,
            ;
        }
        r
    }

    pub fn x(&self) -> (r: u8)
        ensures
            r == self.x_spec(),
    {
        proof {
            let b = self.0;
            assert(b >> 12u16 == b / 4096) by (bit_vector);
        }
        (self.0 >> 12u16) as u8
    }

    pub fn y(&self) -> (r: u8)
        ensures
            r == self.y_spec(),
    {
        proof {
            let b = self.0;
            assert((b >> 8u16) & 15u16 == (b / 256) % 16) by (bit_vector);
        }
        ((self.0 >> 8u16) & 15u16) as u8
    }

    pub fn z(&self) -> (r: u8)
        ensures
            r == self.z_spec(),
    {
        proof {
            let b = self.0;
            assert((b >> 3u16) & 31u16 == (b / 8) % 32) by (bit_vector);
        }
        ((self.0 >> 3u16) & 31u16) as u8
    }

    pub fn pos(&self) -> (r: SlabPosition)
        ensures
            r == SlabPosition(self.x_spec() as u8, self.y_spec() as u8, self.z_spec() as i32),
    {
        SlabPosition(self.x(), self.y(), self.z() as i32)
    }

    pub fn height(&self) -> (r: FreeVerticalSpace)
        ensures
            r == self.height_spec(),
    {
        proof {
            let b = self.0;
            assert(b & 7u16 == b % 8) by (bit_vector);
        }
        ((self.0 & 7u16) + 1) as u8
    }
}

/// The block at slice `z` of column `i` (row-major in its slice) is air.
pub open spec fn air_at(air: Seq<bool>, z: int, i: int) -> bool {
    air[z * 256 + i]
}

/// The number of air blocks from slice `z` upwards in column `i`, up to the first solid
/// block or the top of the slab.
pub open spec fn run_up(air: Seq<bool>, z: int, i: int) -> nat
    decreases 32 - z,
{
    if z < 0 || z >= 32 || !air_at(air, z, i) {
        0
    } else {
        1 + run_up(air, z + 1, i)
    }
}

/// The number of air blocks from slice `z` downwards in column `i`, down to the first solid
/// block or the bottom of the slab.
pub open spec fn run_down(air: Seq<bool>, z: int, i: int) -> nat
    decreases z + 1,
{
    if z < 0 || z >= 32 || !air_at(air, z, i) {
        0
    } else {
        1 + run_down(air, z - 1, i)
    }
}

/// A free height, capped at the most that is recorded.
pub open spec fn capped(n: nat) -> int {
    if n > 8 {
        8
    } else {
        n as int
    }
}

/// The block at slab index `k` (slice-major) is the lowest air block of a run of air in its
/// column.
pub open spec fn is_run_start(air: Seq<bool>, k: int) -> bool {
    let z = k / 256;
    let i = k % 256;
    air_at(air, z, i) && (z == 0 || !air_at(air, z - 1, i))
}

/// The free spaces of the slab among its first `k` blocks, in slab order: for each block that
/// starts a run of air in its column, its slab index and the run's height, capped.
pub open spec fn run_entries(air: Seq<bool>, k: int) -> Seq<(int, int)>
    decreases k,
{
    if k <= 0 {
        Seq::empty()
    } else if is_run_start(air, k - 1) {
        run_entries(air, k - 1).push((k - 1, capped(run_up(air, (k - 1) / 256, (k - 1) % 256))))
    } else {
        run_entries(air, k - 1)
    }
}

/// The columns of the first `k` whose bottom block is solid, in row-major order.
pub open spec fn bottom_solid_columns(air: Seq<bool>, k: int) -> Seq<SliceBlock>
    decreases k,
{
    if k <= 0 {
        Seq::empty()
    } else if !air_at(air, 0, k - 1) {
        bottom_solid_columns(air, k - 1).push(
            SliceBlock(BlockCoord(((k - 1) % 16) as u16), BlockCoord(((k - 1) / 16) as u16)),
        )
    } else {
        bottom_solid_columns(air, k - 1)
    }
}

/// The free vertical space of the blocks of a slab.
pub struct SlabVerticalSpace {
    /// Sorted by pos ascending.
    blocks: Vec<PackedSlabBlockVerticalSpace>,
    top_down: [FreeVerticalSpace; 256],
    bottom_solids: Vec<SliceBlock>,
}

impl SlabVerticalSpace {
    /// For each block with free space above it, in slab order: its slab index and the height
    /// of the space.
    pub closed spec fn blocks_view(&self) -> Seq<(int, int)> {
        self.blocks@.map_values(|p: PackedSlabBlockVerticalSpace| (p.key(), p.height_spec()))
    }

    /// For each column, the free space above its top block, capped.
    pub closed spec fn above_view(&self) -> Seq<FreeVerticalSpace> {
        self.top_down@
    }

    /// The columns whose bottom block is solid.
    pub closed spec fn bottom_solids_view(&self) -> Seq<SliceBlock> {
        self.bottom_solids@
    }

    /// The free space above the bottom block of column (`x`, `y`): the space starting there
    /// if the block is air, none if it is solid, the most recorded otherwise.
    pub open spec fn below_spec(&self, x: int, y: int) -> int {
        if has_entry(self.blocks_view(), slab_key(x, y, 0)) {
            entry_height(self.blocks_view(), slab_key(x, y, 0))
        } else if self.bottom_solids_view().contains(SliceBlock(BlockCoord(x as u16), BlockCoord(y as u16))) {
            0
        } else {
            8
        }
    }

    /// The blocks are in strictly increasing slab order, each inside the slab, and each
    /// space at least one block high.
    pub closed spec fn wf(&self) -> bool {
        &&& forall|a: int, b: int|
            0 <= a < b < self.blocks@.len() ==> #[trigger] self.blocks@[a].key() < #[trigger] self.blocks@[b].key()
        &&& forall|a: int|
            0 <= a < self.blocks@.len() ==> 0 <= #[trigger] self.blocks@[a].x_spec() < 16
                && 0 <= self.blocks@[a].y_spec() < 16 && 0 <= self.blocks@[a].z_spec() < 32
                && 1 <= self.blocks@[a].height_spec() <= 8
    }

    /// The free vertical space above each block of a slab whose blocks are air or solid as
    /// given, slice by slice from the bottom, each slice in row-major order.
    pub fn discover(air: &[bool]) -> (r: Self)
        requires
            air@.len() == SLAB_BLOCKS,
        ensures
            r.wf(),
            r.blocks_view() == run_entries(air@, SLAB_BLOCKS as int),
            r.above_view() == Seq::new(256, |i: int| capped(run_down(air@, 31, i)) as u8),
            r.bottom_solids_view() == bottom_solid_columns(air@, 256),
    {
        let mut blocks: Vec<PackedSlabBlockVerticalSpace> = Vec::new();
        let mut k: usize = 0;
        while k < SLAB_BLOCKS
            invariant
                k <= SLAB_BLOCKS,
                air@.len() == SLAB_BLOCKS,
                blocks@.map_values(|p: PackedSlabBlockVerticalSpace| (p.key(), p.height_spec()))
                    == run_entries(air@, k as int),
                forall|a: int| 0 <= a < blocks@.len() ==> #[trigger] blocks@[a].key() < k,
                forall|a: int, b: int|
                    0 <= a < b < blocks@.len() ==> #[trigger] blocks@[a].key() < #[trigger] blocks@[b].key(),
                forall|a: int|
                    0 <= a < blocks@.len() ==> 0 <= #[trigger] blocks@[a].x_spec() < 16
                        && 0 <= blocks@[a].y_spec() < 16 && 0 <= blocks@[a].z_spec() < 32
                        && 1 <= blocks@[a].height_spec() <= 8,
            decreases SLAB_BLOCKS - k,
        {
            let z = k / 256;
            let i = k % 256;
            if air[k] && (z == 0 || !air[k - 256]) {
                let mut c: usize = 0;
                while c < 8 && z + c < 32 && air[(z + c) * 256 + i]
                    invariant
                        c <= 8,
                        z < 32,
                        i < 256,
                        z + c <= 32,
                        air@.len() == SLAB_BLOCKS,
                        forall|zz: int| z <= zz < z + c ==> #[trigger] air_at(air@, zz, i as int),
                    decreases 8 - c,
                {
                    c = c + 1;
                }
                proof {
                    lemma_run_up_steps(air@, z as int, i as int, c as int);
                    if c < 8 && z + c < 32 {
                        assert(run_up(air@, (z + c) as int, i as int) == 0);
                    }
                    if c == 8 {
                        assert(run_up(air@, z as int, i as int) >= 8);
                    }
                    assert(capped(run_up(air@, z as int, i as int)) == c);
                    assert(k == z * 256 + i);
                    assert(i == (i / 16) * 16 + i % 16);
                }
                let packed = PackedSlabBlockVerticalSpace::new_((i % 16) as u8, (i / 16) as u8, z as u8, c as u8);
                let ghost before = blocks@;
                blocks.push(packed);
                proof {
                    assert(packed.key() == k);
                    assert(blocks@.map_values(|p: PackedSlabBlockVerticalSpace| (p.key(), p.height_spec()))
                        =~= before.map_values(|p: PackedSlabBlockVerticalSpace| (p.key(), p.height_spec())).push((k as int, c as int)));
                }
            }
            k = k + 1;
        }

        let mut top_down: [FreeVerticalSpace; 256] = [0u8; 256];
        let mut col: usize = 0;
        while col < SLICE_SIZE
            invariant
                col <= 256,
                air@.len() == SLAB_BLOCKS,
                forall|j: int| 0 <= j < col ==> top_down@[j] == capped(run_down(air@, 31, j)) as u8,
                top_down@.len() == 256,
            decreases 256 - col,
        {
            let mut c: usize = 0;
            while c < 8 && air[(31 - c) * 256 + col]
                invariant
                    c <= 8,
                    col < 256,
                    air@.len() == SLAB_BLOCKS,
                    forall|zz: int| 31 - c < zz <= 31 ==> #[trigger] air_at(air@, zz, col as int),
                decreases 8 - c,
            {
                c = c + 1;
            }
            proof {
                lemma_run_down_steps(air@, 31, col as int, c as int);
                if c == 8 {
                    assert(run_down(air@, 31, col as int) >= 8);
                } else {
                    assert(run_down(air@, 31 - c, col as int) == 0);
                }
            }
            top_down[col] = c as u8;
            col = col + 1;
        }

        let mut bottom_solids: Vec<SliceBlock> = Vec::new();
        let mut b: usize = 0;
        while b < SLICE_SIZE
            invariant
                b <= 256,
                air@.len() == SLAB_BLOCKS,
                bottom_solids@ == bottom_solid_columns(air@, b as int),
            decreases 256 - b,
        {
            if !air[b] {
                bottom_solids.push(unflatten_index(b));
            }
            b = b + 1;
        }

        let r = SlabVerticalSpace { blocks, top_down, bottom_solids };
        proof {
            assert(r.above_view() =~= Seq::new(256, |i: int| capped(run_down(air@, 31, i)) as u8));
        }
        r
    }

    /// Sorted asc by slice
    pub fn iter_blocks(&self) -> (r: Vec<(SlabPosition, FreeVerticalSpace)>)
        ensures
            r@.len() == self.blocks_view().len(),
            forall|j: int|
                0 <= j < r@.len() ==> slab_key(
                    (#[trigger] r@[j]).0.0 as int,
                    r@[j].0.1 as int,
                    r@[j].0.2 as int,
                ) == self.blocks_view()[j].0 && r@[j].1 == self.blocks_view()[j].1,
            self.wf() ==> forall|j: int| 0 <= j < r@.len() ==> (#[trigger] r@[j]).0.valid(),
    {
        let mut out: Vec<(SlabPosition, FreeVerticalSpace)> = Vec::new();
        let mut j: usize = 0;
        while j < self.blocks.len()
            invariant
                j <= self.blocks@.len(),
                out@.len() == j,
                forall|a: int|
                    0 <= a < j ==> slab_key(
                        (#[trigger] out@[a]).0.0 as int,
                        out@[a].0.1 as int,
                        out@[a].0.2 as int,
                    ) == self.blocks@[a].key() && out@[a].1 == self.blocks@[a].height_spec()
                        && out@[a].0.0 == self.blocks@[a].x_spec() && out@[a].0.1 == self.blocks@[a].y_spec()
                        && out@[a].0.2 == self.blocks@[a].z_spec(),
            decreases self.blocks@.len() - j,
        {
            let b = &self.blocks[j];
            proof {
                assert(0 <= b.x_spec() < 16 && 0 <= b.y_spec() < 16 && 0 <= b.z_spec() < 32 && 1 <= b.height_spec() <= 8) by {
                    lemma_packed_bounds(*b);
                }
            }
            out.push((b.pos(), b.height()));
            j = j + 1;
        }
        out
    }

    pub fn is_empty(&self) -> (r: bool)
        ensures
            r == (self.blocks_view().len() == 0),
    {
        self.blocks.len() == 0
    }

    pub fn above_at(&self, xy: (u8, u8)) -> (r: FreeVerticalSpace)
        requires
            xy.0 < 16,
            xy.1 < 16,
        ensures
            r == self.above_view()[xy.1 * 16 + xy.0],
    {
        let i = flatten_coords(SliceBlock(BlockCoord(xy.0 as u16), BlockCoord(xy.1 as u16)));
        self.top_down[i]
    }

    pub fn above(&self) -> (r: &[FreeVerticalSpace; 256])
        ensures
            r@ == self.above_view(),
    {
        &self.top_down
    }

    /// Each column of the slice, in row-major order, with the free space above its top block.
    pub fn iter_above(&self) -> (r: Vec<(SliceBlock, FreeVerticalSpace)>)
        ensures
            r@.len() == 256,
            forall|i: int|
                0 <= i < 256 ==> #[trigger] r@[i] == (
                    SliceBlock(BlockCoord((i % 16) as u16), BlockCoord((i / 16) as u16)),
                    self.above_view()[i],
                ),
    {
        let mut out: Vec<(SliceBlock, FreeVerticalSpace)> = Vec::new();
        let mut i: usize = 0;
        while i < SLICE_SIZE
            invariant
                i <= 256,
                out@.len() == i,
                self.top_down@.len() == 256,
                forall|j: int|
                    0 <= j < i ==> #[trigger] out@[j] == (
                        SliceBlock(BlockCoord((j % 16) as u16), BlockCoord((j / 16) as u16)),
                        self.top_down@[j],
                    ),
            decreases 256 - i,
        {
            out.push((unflatten_index(i), self.top_down[i]));
            i = i + 1;
        }
        out
    }

    /// The index of the block with the given slab order, if it has free space above it.
    fn search(&self, key: u32) -> (r: Option<usize>)
        requires
            self.wf(),
        ensures
            match r {
                Some(j) => j < self.blocks@.len() && self.blocks@[j as int].key() == key,
                None => forall|j: int| 0 <= j < self.blocks@.len() ==> #[trigger] self.blocks@[j].key() != key,
            },
    {
        let mut lo: usize = 0;
        let mut hi: usize = self.blocks.len();
        while lo < hi
            invariant
                self.wf(),
                lo <= hi <= self.blocks@.len(),
                forall|j: int| 0 <= j < lo ==> #[trigger] self.blocks@[j].key() < key,
                forall|j: int| hi <= j < self.blocks@.len() ==> #[trigger] self.blocks@[j].key() > key,
            decreases hi - lo,
        {
            let mid = lo + (hi - lo) / 2;
            let b = &self.blocks[mid];
            proof {
                lemma_packed_bounds(*b);
            }
            let k = (b.z() as u32) * 256 + (b.y() as u32) * 16 + (b.x() as u32);
            if k == key {
                return Some(mid);
            } else if k < key {
                lo = mid + 1;
            } else {
                hi = mid;
            }
        }
        None
    }

    /// Only returns exact matches for the bottom of the vertical space
    pub fn find_block_exact(&self, pos: SlabPosition) -> (r: Option<FreeVerticalSpace>)
        requires
            self.wf(),
            pos.valid(),
        ensures
            match r {
                Some(h) => exists|j: int|
                    0 <= j < self.blocks_view().len() && #[trigger] self.blocks_view()[j] == (
                        slab_key(pos.0 as int, pos.1 as int, pos.2 as int),
                        h as int,
                    ),
                None => !has_entry(self.blocks_view(), slab_key(pos.0 as int, pos.1 as int, pos.2 as int)),
            },
    {
        let key = (pos.2 as u32) * 256 + (pos.1 as u32) * 16 + (pos.0 as u32);
        match self.search(key) {
            Some(j) => {
                let h = self.blocks[j].height();
                proof {
                    assert(self.blocks_view()[j as int] == (slab_key(pos.0 as int, pos.1 as int, pos.2 as int), h as int));
                }
                Some(h)
            },
            None => None,
        }
    }

    /// Searches downward for a block with vertical space above it
    pub fn find_slice(&self, pos: SlabPosition) -> (r: Option<u8>)
        requires
            self.wf(),
            pos.valid(),
        ensures
            match r {
                Some(z) => z <= pos.2 && has_entry(self.blocks_view(), slab_key(pos.0 as int, pos.1 as int, z as int))
                    && pos.2 < z + entry_height(self.blocks_view(), slab_key(pos.0 as int, pos.1 as int, z as int))
                    && forall|z2: int| z < z2 <= pos.2 ==> !#[trigger] has_entry(self.blocks_view(), slab_key(pos.0 as int, pos.1 as int, z2)),
                None => forall|z: int|
                    0 <= z <= pos.2 && #[trigger] has_entry(self.blocks_view(), slab_key(pos.0 as int, pos.1 as int, z))
                        && (forall|z2: int| z < z2 <= pos.2 ==> !#[trigger] has_entry(self.blocks_view(), slab_key(pos.0 as int, pos.1 as int, z2)))
                        ==> pos.2 >= z + entry_height(self.blocks_view(), slab_key(pos.0 as int, pos.1 as int, z)),
            },
    {
        let tgt_slice = pos.2 as u8;
        let ghost v = self.blocks_view();
        let ghost kx = pos.0 as int;
        let ghost ky = pos.1 as int;
        let mut z: i32 = tgt_slice as i32;
        while z >= 0
            invariant
                self.wf(),
                pos.valid(),
                tgt_slice == pos.2,
                v == self.blocks_view(),
                kx == pos.0 as int,
                ky == pos.1 as int,
                -1 <= z <= pos.2,
                forall|z2: int| z < z2 <= pos.2 ==> !#[trigger] has_entry(v, slab_key(kx, ky, z2)),
            decreases z + 1,
        {
            let key = (z as u32) * 256 + (pos.1 as u32) * 16 + (pos.0 as u32);
            match self.search(key) {
                None => {
                    proof {
                        assert(!has_entry(v, slab_key(kx, ky, z as int))) by {
                            if has_entry(v, slab_key(kx, ky, z as int)) {
                                let j = choose|j: int| 0 <= j < v.len() && v[j].0 == slab_key(kx, ky, z as int);
                                lemma_view_index(self, j);
                                assert(self.blocks@[j].key() == key);
                            }
                        }
                    }
                    z = z - 1;
                },
                Some(idx) => {
                    let h = self.blocks[idx].height();
                    proof {
                        lemma_view_index(self, idx as int);
                        assert(v[idx as int] == (slab_key(kx, ky, z as int), h as int));
                        lemma_entry_height_unique(self, idx as int);
                        lemma_packed_bounds(self.blocks@[idx as int]);
                    }
                    let candidate_max = (z as u8) + h;
                    if tgt_slice < candidate_max {
                        return Some(z as u8);
                    } else {
                        return None;
                    }
                },
            }
        }
        None
    }

    /// The free space above the bottom of a column: the space starting at the bottom block
    /// if it is air; none if it is solid; the most otherwise.
    pub fn below_at(&self, xy: (u8, u8)) -> (r: FreeVerticalSpace)
        requires
            self.wf(),
            xy.0 < 16,
            xy.1 < 16,
        ensures
            r == self.below_spec(xy.0 as int, xy.1 as int),
    {
        let (x, y) = xy;
        let ghost key = slab_key(x as int, y as int, 0);
        let ghost v = self.blocks_view();
        let mut j: usize = 0;
        while j < self.blocks.len() && self.blocks[j].z() == 0
            invariant
                self.wf(),
                j <= self.blocks@.len(),
                v == self.blocks_view(),
                key == slab_key(x as int, y as int, 0),
                x < 16 && y < 16,
                x == xy.0 && y == xy.1,
                forall|a: int| 0 <= a < j ==> #[trigger] self.blocks@[a].key() != key,
            decreases self.blocks@.len() - j,
        {
            let b = &self.blocks[j];
            if b.x() == x && b.y() == y {
                let h = b.height();
                proof {
                    lemma_view_index(self, j as int);
                    lemma_packed_bounds(*b);
                    assert(v[j as int] == (key, h as int));
                    lemma_entry_height_unique(self, j as int);
                }
                return h;
            }
            proof {
                lemma_packed_bounds(*b);
            }
            j = j + 1;
        }
        proof {
            // the blocks after the bottom slice's lie above it
            assert(!has_entry(v, key)) by {
                if has_entry(v, key) {
                    let a = choose|a: int| 0 <= a < v.len() && v[a].0 == key;
                    lemma_view_index(self, a);
                    assert(self.blocks@[a].key() == key);
                    if a >= j {
                        lemma_packed_bounds(self.blocks@[j as int]);
                        lemma_packed_bounds(self.blocks@[a]);
                        assert(self.blocks@[j as int].z_spec() != 0);
                        assert(self.blocks@[j as int].key() >= 256);
                        if a > j {
                            assert(self.blocks@[j as int].key() < self.blocks@[a].key());
                        }
                    }
                }
            }
        }
        let target = SliceBlock(BlockCoord(x as u16), BlockCoord(y as u16));
        let mut s: usize = 0;
        while s < self.bottom_solids.len()
            invariant
                s <= self.bottom_solids@.len(),
                forall|a: int| 0 <= a < s ==> self.bottom_solids@[a] != target,
                v == self.blocks_view(),
                key == slab_key(x as int, y as int, 0),
                !has_entry(v, key),
                x == xy.0 && y == xy.1,
                target == SliceBlock(BlockCoord(x as u16), BlockCoord(y as u16)),
            decreases self.bottom_solids@.len() - s,
        {
            if self.bottom_solids[s] == target {
                proof {
                    assert(self.bottom_solids_view().contains(target)) by {
                        assert(self.bottom_solids@[s as int] == target);
                    }
                }
                return 0;
            }
            s = s + 1;
        }
        ABSOLUTE_MAX_FREE_VERTICAL_SPACE
    }

    /// The free vertical space of a slab whose blocks are all air.
    pub fn empty() -> (r: Self)
        ensures
            r.wf(),
            r.blocks_view() == Seq::new(256, |i: int| (i, 8int)),
            r.above_view() == Seq::new(256, |_i: int| 8u8),
            r.bottom_solids_view() == Seq::<SliceBlock>::empty(),
    {
        Self::calc_empty()
    }

    fn calc_empty() -> (r: Self)
        ensures
            r.wf(),
            r.blocks_view() == Seq::new(256, |i: int| (i, 8int)),
            r.above_view() == Seq::new(256, |_i: int| 8u8),
            r.bottom_solids_view() == Seq::<SliceBlock>::empty(),
    {
        let mut blocks: Vec<PackedSlabBlockVerticalSpace> = Vec::new();
        let mut i: usize = 0;
        while i < SLICE_SIZE
            invariant
                i <= 256,
                blocks@.len() == i,
                forall|j: int| 0 <= j < i ==> (#[trigger] blocks@[j]).key() == j && blocks@[j].height_spec() == 8
                    && 0 <= blocks@[j].x_spec() < 16 && 0 <= blocks@[j].y_spec() < 16 && blocks@[j].z_spec() == 0,
            decreases 256 - i,
        {
            let b = unflatten_index(i);
            proof {
                crate::slice::lemma_flatten_unflatten(i as int);
            }
            blocks.push(
                PackedSlabBlockVerticalSpace::new_(
                    b.0.0 as u8,
                    b.1.0 as u8,
                    0,
                    ABSOLUTE_MAX_FREE_VERTICAL_SPACE,
                ),
            );
            i = i + 1;
        }
        let r = Self {
            blocks,
            top_down: [ABSOLUTE_MAX_FREE_VERTICAL_SPACE; 256],
            bottom_solids: Vec::new(),
        };
        assert(r.blocks_view() =~= Seq::new(256, |i: int| (i, 8int)));
        assert(r.above_view() =~= Seq::new(256, |_i: int| 8u8));
        r
    }
}

proof fn lemma_run_up_steps(air: Seq<bool>, z: int, i: int, c: int)
    requires
        0 <= z,
        0 <= c,
        z + c <= 32,
        forall|zz: int| z <= zz < z + c ==> #[trigger] air_at(air, zz, i),
    ensures
        run_up(air, z, i) == c + run_up(air, z + c, i),
    decreases c,
{
    if c > 0 {
        lemma_run_up_steps(air, z + 1, i, c - 1);
        assert(air_at(air, z, i));
    }
}

proof fn lemma_run_down_steps(air: Seq<bool>, z: int, i: int, c: int)
    requires
        z < 32,
        0 <= c,
        z - c >= -1,
        forall|zz: int| z - c < zz <= z ==> #[trigger] air_at(air, zz, i),
    ensures
        run_down(air, z, i) == c + run_down(air, z - c, i),
    decreases c,
{
    if c > 0 {
        lemma_run_down_steps(air, z - 1, i, c - 1);
        assert(air_at(air, z, i));
    }
}

/// Some block of the view has the given slab order.
pub open spec fn has_entry(v: Seq<(int, int)>, key: int) -> bool {
    exists|j: int| 0 <= j < v.len() && #[trigger] v[j].0 == key
}

/// The free height recorded for the block of the given slab order, or none if no block of
/// the view has that order.
pub open spec fn height_at(v: Seq<(int, int)>, key: int) -> int {
    if has_entry(v, key) {
        entry_height(v, key)
    } else {
        0
    }
}

/// The free height recorded for the block of the given slab order.
pub open spec fn entry_height(v: Seq<(int, int)>, key: int) -> int {
    v[choose|j: int| 0 <= j < v.len() && #[trigger] v[j].0 == key].1
}

/// In a well-formed space the blocks are in strictly increasing slab order, each inside the
/// slab with a free height of one to eight blocks, and the height recorded for each block's
/// order is its own.
pub proof fn lemma_wf_blocks(s: &SlabVerticalSpace)
    requires
        s.wf(),
    ensures
        forall|a: int, b: int|
            0 <= a < b < s.blocks_view().len() ==> #[trigger] s.blocks_view()[a].0
                < #[trigger] s.blocks_view()[b].0,
        forall|a: int|
            0 <= a < s.blocks_view().len() ==> 0 <= #[trigger] s.blocks_view()[a].0 < 8192
                && 1 <= s.blocks_view()[a].1 <= 8 && has_entry(s.blocks_view(), s.blocks_view()[a].0)
                && entry_height(s.blocks_view(), s.blocks_view()[a].0) == s.blocks_view()[a].1,
{
    assert forall|a: int, b: int|
        0 <= a < b < s.blocks_view().len() implies #[trigger] s.blocks_view()[a].0
            < #[trigger] s.blocks_view()[b].0 by {
        lemma_view_index(s, a);
        lemma_view_index(s, b);
    }
    assert forall|a: int|
        0 <= a < s.blocks_view().len() implies 0 <= #[trigger] s.blocks_view()[a].0 < 8192
            && 1 <= s.blocks_view()[a].1 <= 8 && has_entry(s.blocks_view(), s.blocks_view()[a].0)
            && entry_height(s.blocks_view(), s.blocks_view()[a].0) == s.blocks_view()[a].1 by {
        lemma_view_index(s, a);
        lemma_packed_bounds(s.blocks@[a]);
        lemma_entry_height_unique(s, a);
    }
}

/// The entry of the view at an index is the packed block's order and height.
proof fn lemma_view_index(s: &SlabVerticalSpace, j: int)
    requires
        0 <= j < s.blocks@.len(),
    ensures
        s.blocks_view().len() == s.blocks@.len(),
        s.blocks_view()[j] == (s.blocks@[j].key(), s.blocks@[j].height_spec()),
{
}

/// The fields of a packed block are within their widths.
pub proof fn lemma_packed_bounds(p: PackedSlabBlockVerticalSpace)
    ensures
        0 <= p.x_spec() < 16,
        0 <= p.y_spec() < 16,
        0 <= p.z_spec() < 32,
        1 <= p.height_spec() <= 8,
        p.key() == p.z_spec() * 256 + p.y_spec() * 16 + p.x_spec(),
        0 <= p.key() < 8192,
{
    let b = p.bits();
    assert(0 <= b <= 65535) by {
        assert(p.0 <= 65535);
    }
    assert(0 <= b / 4096 < 16 && 0 <= (b / 256) % 16 < 16 && 0 <= (b / 8) % 32 < 32 && 0 <= b % 8 < 8)
        by (nonlinear_arith)
        requires
            0 <= b <= 65535,
    ;
}

/// In a well-formed space each slab order appears once, so the height recorded for it is the
/// one at its index.
proof fn lemma_entry_height_unique(s: &SlabVerticalSpace, j: int)
    requires
        s.wf(),
        0 <= j < s.blocks_view().len(),
    ensures
        has_entry(s.blocks_view(), s.blocks_view()[j].0),
        entry_height(s.blocks_view(), s.blocks_view()[j].0) == s.blocks_view()[j].1,
{
    let v = s.blocks_view();
    let key = v[j].0;
    assert(v[j].0 == key);
    let c = choose|c: int| 0 <= c < v.len() && #[trigger] v[c].0 == key;
    if c != j {
        if c < j {
            assert(s.blocks@[c].key() < s.blocks@[j].key());
        } else {
            assert(s.blocks@[j].key() < s.blocks@[c].key());
        }
    }
}

/// Packing a block's position and free height and reading them back gives them again.
pub proof fn lemma_pack_round_trip(x: int, y: int, z: int, height: int)
    requires
        0 <= x < 16,
        0 <= y < 16,
        0 <= z < 32,
        0 < height <= 8,
    ensures
        ({
            let b = pack_spec(x, y, z, height);
            &&& 0 <= b <= u16::MAX
            &&& b / 4096 == x
            &&& (b / 256) % 16 == y
            &&& (b / 8) % 32 == z
            &&& b % 8 + 1 == height
        }),
{
    let b = pack_spec(x, y, z, height);
    assert(b / 4096 == x && (b / 256) % 16 == y && (b / 8) % 32 == z && b % 8 == height - 1)
        by (nonlinear_arith)
        requires
            b == x * 4096 + y * 256 + z * 8 + (height - 1),
            0 <= x < 16,
            0 <= y < 16,
            0 <= z < 32,
            0 <= height - 1 < 8,
    ;
}

/// A run of air that starts at an air block is at least that block high.
proof fn lemma_run_up_positive(air: Seq<bool>, z: int, i: int)
    requires
        0 <= z < 32,
        air_at(air, z, i),
    ensures
        run_up(air, z, i) >= 1,
{
}

/// The free spaces that [SlabVerticalSpace::discover] records: in strictly increasing slab
/// order, one for each block that starts a run of air in its column (an air block at the
/// bottom of the slab or above a solid one) and for nothing else, each the height of that run,
/// from one up to eight blocks.
pub proof fn lemma_run_entries(air: Seq<bool>, k: int)
    requires
        air.len() == 8192,
        0 <= k <= 8192,
    ensures
        forall|a: int, b: int|
            0 <= a < b < run_entries(air, k).len() ==> #[trigger] run_entries(air, k)[a].0
                < #[trigger] run_entries(air, k)[b].0,
        forall|a: int|
            0 <= a < run_entries(air, k).len() ==> {
                let e = #[trigger] run_entries(air, k)[a];
                &&& 0 <= e.0 < k
                &&& is_run_start(air, e.0)
                &&& e.1 == capped(run_up(air, e.0 / 256, e.0 % 256))
                &&& 1 <= e.1 <= 8
            },
        forall|key: int|
            0 <= key < k && #[trigger] is_run_start(air, key) ==> exists|a: int|
                0 <= a < run_entries(air, k).len() && run_entries(air, k)[a].0 == key,
    decreases k,
{
    if k > 0 {
        lemma_run_entries(air, k - 1);
        let prev = run_entries(air, k - 1);
        if is_run_start(air, k - 1) {
            let e = (k - 1, capped(run_up(air, (k - 1) / 256, (k - 1) % 256)));
            let cur = prev.push(e);
            assert(run_entries(air, k) == cur);
            lemma_run_up_positive(air, (k - 1) / 256, (k - 1) % 256);
            assert forall|a: int, b: int| 0 <= a < b < cur.len() implies #[trigger] cur[a].0 < #[trigger] cur[b].0 by {
                assert(cur[a] == prev[a]);
                if b < prev.len() {
                    assert(cur[b] == prev[b]);
                }
            }
            assert forall|a: int| 0 <= a < cur.len() implies {
                let e = #[trigger] cur[a];
                &&& 0 <= e.0 < k
                &&& is_run_start(air, e.0)
                &&& e.1 == capped(run_up(air, e.0 / 256, e.0 % 256))
                &&& 1 <= e.1 <= 8
            } by {
                if a < prev.len() {
                    assert(cur[a] == prev[a]);
                }
            }
            assert forall|key: int| 0 <= key < k && #[trigger] is_run_start(air, key) implies exists|a: int|
                0 <= a < cur.len() && cur[a].0 == key by {
                if key == k - 1 {
                    assert(cur[prev.len() as int].0 == key);
                } else {
                    let a = choose|a: int| 0 <= a < prev.len() && prev[a].0 == key;
                    assert(cur[a] == prev[a]);
                }
            }
        } else {
            assert(run_entries(air, k) == prev);
        }
    }
}

} // verus!
