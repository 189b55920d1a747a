use vstd::prelude::*;

use crate::loader::update::{GenericTerrainUpdate, SlabTerrainUpdate};
use crate::range::{ordered, WorldRange};
use crate::slab::SlabPosition;

verus! {

/// The number of blocks in a slab.
pub const SLAB_BLOCKS: usize = 8192;

/// The index of block `(x, y, z)` of a slab among its blocks, slice by slice from the bottom,
/// each slice in row-major order.
pub open spec fn block_index(x: int, y: int, z: int) -> int {
    (z * 16 + y) * 16 + x
}

pub open spec fn in_slab(x: int, y: int, z: int) -> bool {
    0 <= x < 16 && 0 <= y < 16 && 0 <= z < 32
}

/// The extent of a slab's change on each axis, lowest first.
pub open spec fn slab_update_bounds<B>(u: SlabTerrainUpdate<B>) -> ((i32, i32), (i32, i32), (i32, i32)) {
    match u.0 {
        WorldRange::Single(p) => ((p.0 as i32, p.0 as i32), (p.1 as i32, p.1 as i32), (p.2, p.2)),
        WorldRange::Range(a, b) => (ordered(a.0 as i32, b.0 as i32), ordered(a.1 as i32, b.1 as i32), ordered(a.2, b.2)),
    }
}

/// The change's positions lie in the slab.
pub open spec fn slab_update_valid<B>(u: SlabTerrainUpdate<B>) -> bool {
    match u.0 {
        WorldRange::Single(p) => p.valid(),
        WorldRange::Range(a, b) => a.valid() && b.valid(),
    }
}

/// The change sets block `(x, y, z)`.
pub open spec fn slab_update_covers<B>(u: SlabTerrainUpdate<B>, x: int, y: int, z: int) -> bool {
    let ((xa, xb), (ya, yb), (za, zb)) = slab_update_bounds(u);
    xa <= x <= xb && ya <= y <= yb && za <= z <= zb
}

/// The number of blocks the change sets.
pub open spec fn slab_update_size<B>(u: SlabTerrainUpdate<B>) -> int {
    let ((xa, xb), (ya, yb), (za, zb)) = slab_update_bounds(u);
    (xb - xa + 1) * (yb - ya + 1) * (zb - za + 1)
}

/// The block at `(x, y, z)` after the first `n` changes: the block type of the last of them that
/// sets it, else what it was.
pub open spec fn block_after<B>(old: B, updates: Seq<SlabTerrainUpdate<B>>, n: int, x: int, y: int, z: int) -> B
    decreases n,
{
    if n <= 0 {
        old
    } else if slab_update_covers(updates[n - 1], x, y, z) {
        updates[n - 1].1
    } else {
        block_after(old, updates, n - 1, x, y, z)
    }
}

/// The number of blocks set by the first `n` changes, counting a block once per change.
pub open spec fn blocks_set<B>(updates: Seq<SlabTerrainUpdate<B>>, n: int) -> int
    decreases n,
{
    if n <= 0 {
        0
    } else {
        blocks_set(updates, n - 1) + slab_update_size(updates[n - 1])
    }
}

fn ordered_u8(a: u8, b: u8) -> (r: (u8, u8))
    ensures
        r.0 as i32 == ordered(a as i32, b as i32).0,
        r.1 as i32 == ordered(a as i32, b as i32).1,
{
    if a <= b {
        (a, b)
    } else {
        (b, a)
    }
}

fn ordered_i32(a: i32, b: i32) -> (r: (i32, i32))
    ensures
        r == ordered(a, b),
{
    if a <= b {
        (a, b)
    } else {
        (b, a)
    }
}

/// Sets every block of a slab that one change covers to its block type.
fn apply_one<B: Copy>(blocks: &mut Vec<B>, update: SlabTerrainUpdate<B>) -> (r: usize)
    requires
        old(blocks)@.len() == SLAB_BLOCKS,
        slab_update_valid(update),
    ensures
        final(blocks)@.len() == SLAB_BLOCKS,
        forall|x: int, y: int, z: int|
            #![trigger final(blocks)@[block_index(x, y, z)]]
            in_slab(x, y, z) ==> final(blocks)@[block_index(x, y, z)] == if slab_update_covers(update, x, y, z) {
                update.1
            } else {
                old(blocks)@[block_index(x, y, z)]
            },
        r == slab_update_size(update),
        1 <= r <= SLAB_BLOCKS,
{
    let GenericTerrainUpdate(range, block_type) = update;
    let ghost b0 = blocks@;
    let ((xa, xb), (ya, yb), (za, zb)): ((u8, u8), (u8, u8), (i32, i32)) = match range {
        WorldRange::Single(p) => ((p.0, p.0), (p.1, p.1), (p.2, p.2)),
        WorldRange::Range(a, b) => (ordered_u8(a.0, b.0), ordered_u8(a.1, b.1), ordered_i32(a.2, b.2)),
    };
    assert(slab_update_bounds(update) == ((xa as i32, xb as i32), (ya as i32, yb as i32), (za, zb)));
    let mut z: i32 = za;
    while z <= zb
        invariant
            0 <= za <= z <= zb + 1,
            zb < 32,
            xa <= xb < 16,
            ya <= yb < 16,
            slab_update_bounds(update) == ((xa as i32, xb as i32), (ya as i32, yb as i32), (za, zb)),
            block_type == update.1,
            blocks@.len() == SLAB_BLOCKS,
            forall|x: int, y: int, zz: int|
                #![trigger blocks@[block_index(x, y, zz)]]
                in_slab(x, y, zz) ==> blocks@[block_index(x, y, zz)] == if slab_update_covers(update, x, y, zz) && zz < z {
                    update.1
                } else {
                    b0[block_index(x, y, zz)]
                },
        decreases zb + 1 - z,
    {
        let mut x: u8 = xa;
        while x <= xb
            invariant
                0 <= za <= z <= zb,
                zb < 32,
                xa <= x <= xb + 1,
                xb < 16,
                ya <= yb < 16,
                slab_update_bounds(update) == ((xa as i32, xb as i32), (ya as i32, yb as i32), (za, zb)),
                block_type == update.1,
                blocks@.len() == SLAB_BLOCKS,
                forall|xx: int, y: int, zz: int|
                    #![trigger blocks@[block_index(xx, y, zz)]]
                    in_slab(xx, y, zz) ==> blocks@[block_index(xx, y, zz)] == if slab_update_covers(update, xx, y, zz) && (zz < z || (zz == z && xx < x)) {
                        update.1
                    } else {
                        b0[block_index(xx, y, zz)]
                    },
            decreases xb + 1 - x,
        {
            let mut y: u8 = ya;
            while y <= yb
                invariant
                    0 <= za <= z <= zb,
                    zb < 32,
                    xa <= x <= xb,
                    xb < 16,
                    ya <= y <= yb + 1,
                    yb < 16,
                    slab_update_bounds(update) == ((xa as i32, xb as i32), (ya as i32, yb as i32), (za, zb)),
                    block_type == update.1,
                    blocks@.len() == SLAB_BLOCKS,
                    forall|xx: int, yy: int, zz: int|
                        #![trigger blocks@[block_index(xx, yy, zz)]]
                        in_slab(xx, yy, zz) ==> blocks@[block_index(xx, yy, zz)] == if slab_update_covers(update, xx, yy, zz) && (zz < z
                            || (zz == z && xx < x) || (zz == z && xx == x && yy < y)) {
                            update.1
                        } else {
                            b0[block_index(xx, yy, zz)]
                        },
                decreases yb + 1 - y,
            {
                let i = ((z as usize) * 16 + y as usize) * 16 + x as usize;
                let ghost before = blocks@;
                blocks.set(i, block_type);
                proof {
                    assert forall|xx: int, yy: int, zz: int|
                        #![trigger blocks@[block_index(xx, yy, zz)]]
                        in_slab(xx, yy, zz) implies blocks@[block_index(xx, yy, zz)] == if slab_update_covers(update, xx, yy, zz) && (zz < z
                            || (zz == z && xx < x) || (zz == z && xx == x && yy < y + 1)) {
                            update.1
                        } else {
                            b0[block_index(xx, yy, zz)]
                        } by {
                        if block_index(xx, yy, zz) != i {
                            assert(blocks@[block_index(xx, yy, zz)] == before[block_index(xx, yy, zz)]);
                        }
                    }
                }
                y = y + 1;
            }
            x = x + 1;
        }
        z = z + 1;
    }
    let dx = (xb - xa) as usize + 1;
    let dy = (yb - ya) as usize + 1;
    let dz = (zb - za) as usize + 1;
    assert(1 <= dx * dy <= 256) by (nonlinear_arith)
        requires
            1 <= dx <= 16,
            1 <= dy <= 16,
    ;
    assert(dx * dy * dz <= 8192 && 1 <= dx * dy * dz) by (nonlinear_arith)
        requires
            1 <= dx * dy <= 256,
            1 <= dz <= 32,
    ;
    dx * dy * dz
}

/// Applies a slab's changes in order, each setting the blocks it covers to its block type;
/// returns the number of blocks set, counting a block once per change that sets it.
pub fn apply_terrain_updates<B: Copy>(blocks: &mut Vec<B>, updates: &[SlabTerrainUpdate<B>]) -> (r: usize)
    requires
        old(blocks)@.len() == SLAB_BLOCKS,
        updates@.len() * SLAB_BLOCKS <= usize::MAX,
        forall|k: int| 0 <= k < updates@.len() ==> slab_update_valid(#[trigger] updates@[k]),
    ensures
        final(blocks)@.len() == SLAB_BLOCKS,
        forall|x: int, y: int, z: int|
            #![trigger final(blocks)@[block_index(x, y, z)]]
            in_slab(x, y, z) ==> final(blocks)@[block_index(x, y, z)] == block_after(
                old(blocks)@[block_index(x, y, z)],
                updates@,
                updates@.len() as int,
                x,
                y,
                z,
            ),
        r == blocks_set(updates@, updates@.len() as int),
{
    let ghost b0 = blocks@;
    let mut count: usize = 0;
    let mut k: usize = 0;
    while k < updates.len()
        invariant
            k <= updates@.len(),
            updates@.len() * SLAB_BLOCKS <= usize::MAX,
            forall|j: int| 0 <= j < updates@.len() ==> slab_update_valid(#[trigger] updates@[j]),
            blocks@.len() == SLAB_BLOCKS,
            forall|x: int, y: int, z: int|
                #![trigger blocks@[block_index(x, y, z)]]
                in_slab(x, y, z) ==> blocks@[block_index(x, y, z)] == block_after(
                    b0[block_index(x, y, z)],
                    updates@,
                    k as int,
                    x,
                    y,
                    z,
                ),
            count == blocks_set(updates@, k as int),
            count <= k * SLAB_BLOCKS,
        decreases updates@.len() - k,
    {
        let n = apply_one(blocks, updates[k]);
        assert(count + n <= (k + 1) * SLAB_BLOCKS) by (nonlinear_arith)
            requires
                count <= k * SLAB_BLOCKS,
                n <= SLAB_BLOCKS,
        ;
        assert((k + 1) * SLAB_BLOCKS <= updates@.len() * SLAB_BLOCKS) by (nonlinear_arith)
            requires
                k < updates@.len(),
        ;
        count = count + n;
        k = k + 1;
    }
    count
}


/// Whether a write to a slab that is not there makes it.
#[derive(Debug, Copy, Clone, PartialEq, Eq, Structural)]
pub enum SlabCreationPolicy {
    /// Create the missing slab and every slab between it and the terrain.
    CreateAll,
    /// Leave the terrain as it is.
    PleaseDont,
}

/// A chunk's terrain: its slabs, contiguous from the lowest, each slab's blocks as
/// [apply_terrain_updates] takes them; slabs made to fill a gap hold only `empty`.
pub struct ChunkTerrain<B> {
    min_slab: i32,
    slabs: Vec<Vec<B>>,
    empty: B,
}

/// The slab of a slice, and the slice's index in it.
pub open spec fn slab_of_slice(z: int) -> (int, int) {
    (z / 32, z % 32)
}

impl<B: Copy> ChunkTerrain<B> {
    /// The lowest slab.
    pub closed spec fn min_view(&self) -> int {
        self.min_slab as int
    }

    /// The number of slabs.
    pub closed spec fn count_view(&self) -> int {
        self.slabs@.len() as int
    }

    /// The highest slab.
    pub open spec fn max_view(&self) -> int {
        self.min_view() + self.count_view() - 1
    }

    /// The block type of a slab made to fill a gap.
    pub closed spec fn empty_view(&self) -> B {
        self.empty
    }

    pub open spec fn has_slab(&self, s: int) -> bool {
        self.min_view() <= s <= self.max_view()
    }

    /// The block at `(x, y)` of slice `z`, counted from slice 0 of slab 0, where its slab is
    /// there.
    pub closed spec fn block_view(&self, x: int, y: int, z: int) -> B {
        let (s, local) = slab_of_slice(z);
        self.slabs@[s - self.min_slab]@[block_index(x, y, local)]
    }

    /// At least one slab, each whole, all within the slab indices.
    pub closed spec fn wf(&self) -> bool {
        &&& self.slabs@.len() >= 1
        &&& self.min_slab + self.slabs@.len() - 1 <= i32::MAX
        &&& forall|k: int| 0 <= k < self.slabs@.len() ==> (#[trigger] self.slabs@[k])@.len() == SLAB_BLOCKS
    }

    /// The terrain holds the same blocks as another, in the same slabs.
    pub open spec fn same_as(&self, other: &Self) -> bool {
        &&& self.min_view() == other.min_view()
        &&& self.count_view() == other.count_view()
        &&& self.empty_view() == other.empty_view()
        &&& forall|x: int, y: int, z: int|
            0 <= x < 16 && 0 <= y < 16 && self.has_slab(slab_of_slice(z).0) ==> #[trigger] self.block_view(x, y, z)
                == other.block_view(x, y, z)
    }

    /// Has a single empty placeholder slab at index 0.
    pub fn new(empty: B) -> (r: Self)
        ensures
            r.wf(),
            r.min_view() == 0,
            r.count_view() == 1,
            r.empty_view() == empty,
            forall|x: int, y: int, z: int|
                0 <= x < 16 && 0 <= y < 16 && 0 <= z < 32 ==> #[trigger] r.block_view(x, y, z) == empty,
    {
        let mut slabs: Vec<Vec<B>> = Vec::new();
        slabs.push(empty_slab(empty));
        let r = ChunkTerrain { min_slab: 0, slabs, empty };
        proof {
            assert forall|x: int, y: int, z: int|
                0 <= x < 16 && 0 <= y < 16 && 0 <= z < 32 implies #[trigger] r.block_view(x, y, z) == empty by {
                assert(slab_of_slice(z) == (0int, z));
            }
        }
        r
    }

    pub fn slab_count(&self) -> (r: usize)
        ensures
            r == self.count_view(),
    {
        self.slabs.len()
    }

    /// Inclusive
    pub fn slab_range(&self) -> (r: (i32, i32))
        requires
            self.wf(),
        ensures
            r.0 == self.min_view(),
            r.1 == self.max_view(),
    {
        (self.min_slab, (self.min_slab as i64 + self.slabs.len() as i64 - 1) as i32)
    }

    /// Returns the range of slices in this terrain rounded to the nearest slab: the lowest
    /// slice of its lowest slab, and the slice after the top of its highest.
    pub fn slice_bounds_as_slabs(&self) -> (r: (i32, i32))
        requires
            self.wf(),
            -0x400_0000 <= self.min_view(),
            self.max_view() < 0x3FF_FFFF,
        ensures
            r.0 == self.min_view() * 32,
            r.1 == (self.max_view() + 1) * 32,
    {
        let (bottom, top) = self.slab_range();
        (bottom * 32, (top + 1) * 32)
    }

    /// The block at `(x, y)` of slice `z`, if its slab is there.
    pub fn get_block(&self, x: u8, y: u8, z: i32) -> (r: Option<B>)
        requires
            self.wf(),
            x < 16,
            y < 16,
        ensures
            r == if self.has_slab(slab_of_slice(z as int).0) {
                Some(self.block_view(x as int, y as int, z as int))
            } else {
                None
            },
    {
        let (s, local) = split_slice(z);
        let k = s as i64 - self.min_slab as i64;
        if k < 0 || k >= self.slabs.len() as i64 {
            return None;
        }
        let i = ((local as usize) * 16 + y as usize) * 16 + x as usize;
        Some(self.slabs[k as usize][i])
    }

    /// Fills in gaps in slabs up to the inclusive target with empty placeholder slabs. Nop if zero
    pub fn create_slabs_until(&mut self, target: i32)
        requires
            old(self).wf(),
        ensures
            final(self).wf(),
            final(self).empty_view() == old(self).empty_view(),
            target == 0 ==> final(self).same_as(old(self)),
            target != 0 ==> final(self).min_view() == if target < old(self).min_view() {
                target as int
            } else {
                old(self).min_view()
            },
            target != 0 ==> final(self).max_view() == if target > old(self).max_view() {
                target as int
            } else {
                old(self).max_view()
            },
            forall|x: int, y: int, z: int|
                0 <= x < 16 && 0 <= y < 16 && final(self).has_slab(slab_of_slice(z).0) ==> #[trigger] final(self).block_view(x, y, z)
                    == if old(self).has_slab(slab_of_slice(z).0) {
                    old(self).block_view(x, y, z)
                } else {
                    old(self).empty_view()
                },
    {
        if target == 0 {
            return;
        }
        let ghost old_self = *self;
        // above the highest slab
        while (self.min_slab as i64) + (self.slabs.len() as i64) - 1 < target as i64
            invariant
                self.wf(),
                self.min_slab == old_self.min_slab,
                self.empty == old_self.empty,
                self.slabs@.len() >= old_self.slabs@.len(),
                self.min_slab + self.slabs@.len() - 1 <= if target > old_self.max_view() { target as int } else { old_self.max_view() },
                forall|k: int| 0 <= k < old_self.slabs@.len() ==> #[trigger] self.slabs@[k] == old_self.slabs@[k],
                forall|k: int, i: int|
                    old_self.slabs@.len() <= k < self.slabs@.len() && 0 <= i < SLAB_BLOCKS ==> #[trigger] self.slabs@[k]@[i] == self.empty,
            decreases target as i64 - ((self.min_slab as i64) + (self.slabs@.len() as i64) - 1),
        {
            let slab = empty_slab(self.empty);
            self.slabs.push(slab);
        }
        let ghost mid = *self;
        let ghost added = self.slabs@.len() - old_self.slabs@.len();
        // below the lowest slab
        while target < self.min_slab
            invariant
                self.wf(),
                self.empty == old_self.empty,
                self.min_slab <= old_self.min_slab,
                self.min_slab >= (if target < old_self.min_slab { target } else { old_self.min_slab }),
                mid.min_slab == old_self.min_slab,
                self.min_slab + self.slabs@.len() - 1 == mid.min_slab + mid.slabs@.len() - 1,
                forall|k: int| 0 <= k < mid.slabs@.len() ==> #[trigger] self.slabs@[k + (old_self.min_slab - self.min_slab)] == mid.slabs@[k],
                forall|k: int, i: int|
                    0 <= k < old_self.min_slab - self.min_slab && 0 <= i < SLAB_BLOCKS ==> #[trigger] self.slabs@[k]@[i] == self.empty,
            decreases self.min_slab - target,
        {
            let slab = empty_slab(self.empty);
            let ghost before = self.slabs@;
            let ghost sv = slab;
            let ghost before_min = self.min_slab;
            self.slabs.insert(0, slab);
            assert(self.slabs@ == before.insert(0, sv));
            self.min_slab = self.min_slab - 1;
            proof {
                assert forall|k: int| 0 <= k < mid.slabs@.len() implies #[trigger] self.slabs@[k + (old_self.min_slab - self.min_slab)] == mid.slabs@[k] by {
                    assert(before[k + (old_self.min_slab - before_min)] == mid.slabs@[k]);
                    assert(self.slabs@[k + (old_self.min_slab - self.min_slab)] == before[k + (old_self.min_slab - before_min)]);
                }
                assert forall|k: int, i: int|
                    0 <= k < old_self.min_slab - self.min_slab && 0 <= i < SLAB_BLOCKS implies #[trigger] self.slabs@[k]@[i] == self.empty by {
                    if k > 0 {
                        assert(self.slabs@[k] == before[k - 1]);
                    }
                }
            }
        }
        proof {
            let shift = old_self.min_slab - self.min_slab;
            assert forall|x: int, y: int, z: int|
                0 <= x < 16 && 0 <= y < 16 && self.has_slab(slab_of_slice(z).0) implies #[trigger] self.block_view(x, y, z)
                    == if old_self.has_slab(slab_of_slice(z).0) {
                    old_self.block_view(x, y, z)
                } else {
                    old_self.empty_view()
                } by {
                let (s, local) = slab_of_slice(z);
                assert(0 <= local < 32);
                let i = block_index(x, y, local);
                assert(0 <= i < SLAB_BLOCKS);
                let k = s - self.min_slab;
                if k < shift {
                    assert(self.slabs@[k]@[i] == self.empty);
                } else {
                    let km = k - shift;
                    assert(self.slabs@[km + shift] == mid.slabs@[km]);
                    if km >= old_self.slabs@.len() {
                        assert(mid.slabs@[km]@[i] == self.empty);
                    } else {
                        assert(mid.slabs@[km] == old_self.slabs@[km]);
                    }
                }
            }
        }
    }

    /// If slab doesn't exist, does nothing and returns false
    pub fn try_set_block(&mut self, x: u8, y: u8, z: i32, block: B) -> (r: bool)
        requires
            old(self).wf(),
            x < 16,
            y < 16,
        ensures
            final(self).wf(),
            r == old(self).has_slab(slab_of_slice(z as int).0),
            !r ==> final(self).same_as(old(self)),
            r ==> final(self).min_view() == old(self).min_view() && final(self).count_view() == old(self).count_view(),
            final(self).empty_view() == old(self).empty_view(),
            r ==> forall|xx: int, yy: int, zz: int|
                0 <= xx < 16 && 0 <= yy < 16 && final(self).has_slab(slab_of_slice(zz).0) ==> #[trigger] final(self).block_view(xx, yy, zz)
                    == if xx == x && yy == y && zz == z {
                    block
                } else {
                    old(self).block_view(xx, yy, zz)
                },
    {
        self.set_block(x, y, z, block, SlabCreationPolicy::PleaseDont)
    }

    /// Returns if block was set successfully, depends on slab creation policy: a missing slab is
    /// made, with every slab between it and the terrain, under [SlabCreationPolicy::CreateAll],
    /// except slab 0, which making slabs leaves alone.
    pub fn set_block(&mut self, x: u8, y: u8, z: i32, block: B, policy: SlabCreationPolicy) -> (r: bool)
        requires
            old(self).wf(),
            x < 16,
            y < 16,
        ensures
            final(self).wf(),
            r == (old(self).has_slab(slab_of_slice(z as int).0) || (policy == SlabCreationPolicy::CreateAll
                && slab_of_slice(z as int).0 != 0)),
            !r ==> final(self).same_as(old(self)),
            r && old(self).has_slab(slab_of_slice(z as int).0) ==> final(self).min_view() == old(self).min_view()
                && final(self).count_view() == old(self).count_view(),
            r && !old(self).has_slab(slab_of_slice(z as int).0) ==> {
                let s = slab_of_slice(z as int).0;
                &&& final(self).min_view() == if s < old(self).min_view() { s } else { old(self).min_view() }
                &&& final(self).max_view() == if s > old(self).max_view() { s } else { old(self).max_view() }
            },
            final(self).empty_view() == old(self).empty_view(),
            r ==> forall|xx: int, yy: int, zz: int|
                0 <= xx < 16 && 0 <= yy < 16 && final(self).has_slab(slab_of_slice(zz).0) ==> #[trigger] final(self).block_view(xx, yy, zz)
                    == if xx == x && yy == y && zz == z {
                    block
                } else if old(self).has_slab(slab_of_slice(zz).0) {
                    old(self).block_view(xx, yy, zz)
                } else {
                    old(self).empty_view()
                },
    {
        let (s, local) = split_slice(z);
        let ghost old_self = *self;
        let present = (self.min_slab as i64) <= s as i64 && (s as i64) <= (self.min_slab as i64) + (self.slabs.len() as i64) - 1;
        if !present {
            match policy {
                SlabCreationPolicy::CreateAll => {
                    if s == 0 {
                        return false;
                    }
                    self.create_slabs_until(s);
                },
                SlabCreationPolicy::PleaseDont => {
                    return false;
                },
            }
        }
        let ghost made = *self;
        let k = (s as i64 - self.min_slab as i64) as usize;
        let i = ((local as usize) * 16 + y as usize) * 16 + x as usize;
        let mut slab = self.slabs.remove(k);
        slab.set(i, block);
        self.slabs.insert(k, slab);
        proof {
            assert forall|kk: int| 0 <= kk < self.slabs@.len() implies (#[trigger] self.slabs@[kk])@.len() == SLAB_BLOCKS by {
                if kk != k {
                    assert(self.slabs@[kk] == made.slabs@[kk]);
                }
            }
            assert forall|xx: int, yy: int, zz: int|
                0 <= xx < 16 && 0 <= yy < 16 && self.has_slab(slab_of_slice(zz).0) implies #[trigger] self.block_view(xx, yy, zz)
                    == if xx == x && yy == y && zz == z {
                    block
                } else {
                    made.block_view(xx, yy, zz)
                } by {
                let (s2, local2) = slab_of_slice(zz);
                let k2 = s2 - self.min_slab;
                let i2 = block_index(xx, yy, local2);
                assert(0 <= local2 < 32);
                if k2 != k {
                    assert(self.slabs@[k2] == made.slabs@[k2]);
                } else if i2 != i {
                    assert(self.slabs@[k2]@[i2] == made.slabs@[k2]@[i2]);
                } else {
                    // the same block of the same slab
                    assert(local2 == local);
                    assert(zz == s2 * 32 + local2);
                }
            }
        }
        true
    }

    /// Applies a slab's changes in order (see [apply_terrain_updates]); `None` where the slab is
    /// not there.
    pub fn apply_slab_updates(&mut self, slab: i32, updates: &[SlabTerrainUpdate<B>]) -> (r: Option<usize>)
        requires
            old(self).wf(),
            updates@.len() * SLAB_BLOCKS <= usize::MAX,
            forall|k: int| 0 <= k < updates@.len() ==> slab_update_valid(#[trigger] updates@[k]),
        ensures
            final(self).wf(),
            r is None <==> !old(self).has_slab(slab as int),
            r is None ==> final(self).same_as(old(self)),
            final(self).min_view() == old(self).min_view(),
            final(self).count_view() == old(self).count_view(),
            final(self).empty_view() == old(self).empty_view(),
            r matches Some(n) ==> n == blocks_set(updates@, updates@.len() as int),
            r is Some ==> forall|x: int, y: int, z: int|
                0 <= x < 16 && 0 <= y < 16 && final(self).has_slab(slab_of_slice(z).0) ==> #[trigger] final(self).block_view(x, y, z)
                    == if slab_of_slice(z).0 == slab {
                    block_after(old(self).block_view(x, y, z), updates@, updates@.len() as int, x, y, slab_of_slice(z).1)
                } else {
                    old(self).block_view(x, y, z)
                },
    {
        let k = slab as i64 - self.min_slab as i64;
        if k < 0 || k >= self.slabs.len() as i64 {
            return None;
        }
        let k = k as usize;
        let ghost before = *self;
        let mut blocks = self.slabs.remove(k);
        let n = apply_terrain_updates(&mut blocks, updates);
        self.slabs.insert(k, blocks);
        proof {
            assert forall|kk: int| 0 <= kk < self.slabs@.len() implies (#[trigger] self.slabs@[kk])@.len() == SLAB_BLOCKS by {
                if kk != k {
                    assert(self.slabs@[kk] == before.slabs@[kk]);
                }
            }
            assert forall|x: int, y: int, z: int|
                0 <= x < 16 && 0 <= y < 16 && self.has_slab(slab_of_slice(z).0) implies #[trigger] self.block_view(x, y, z)
                    == if slab_of_slice(z).0 == slab {
                    block_after(before.block_view(x, y, z), updates@, updates@.len() as int, x, y, slab_of_slice(z).1)
                } else {
                    before.block_view(x, y, z)
                } by {
                let (s2, local2) = slab_of_slice(z);
                assert(0 <= local2 < 32);
                if s2 - self.min_slab != k {
                    assert(self.slabs@[s2 - self.min_slab] == before.slabs@[s2 - self.min_slab]);
                } else {
                    assert(in_slab(x, y, local2));
                    assert(self.slabs@[k as int]@[block_index(x, y, local2)] == block_after(
                        before.slabs@[k as int]@[block_index(x, y, local2)],
                        updates@,
                        updates@.len() as int,
                        x,
                        y,
                        local2,
                    ));
                }
            }
        }
        Some(n)
    }
}

impl<B: Copy> ChunkTerrain<B> {
    /// Sets every block of slice `z` to `block`; returns if the slice was there or, by the
    /// policy, made (see [ChunkTerrain::set_block]).
    pub fn fill_slice(&mut self, z: i32, block: B, policy: SlabCreationPolicy) -> (r: bool)
        requires
            old(self).wf(),
        ensures
            final(self).wf(),
            r == (old(self).has_slab(slab_of_slice(z as int).0) || (policy == SlabCreationPolicy::CreateAll
                && slab_of_slice(z as int).0 != 0)),
            !r ==> final(self).same_as(old(self)),
            r ==> final(self).has_slab(slab_of_slice(z as int).0),
            final(self).empty_view() == old(self).empty_view(),
            forall|s: int| old(self).has_slab(s) ==> final(self).has_slab(s),
            r ==> forall|xx: int, yy: int, zz: int|
                0 <= xx < 16 && 0 <= yy < 16 && final(self).has_slab(slab_of_slice(zz).0) ==> #[trigger] final(self).block_view(xx, yy, zz)
                    == if zz == z {
                    block
                } else if old(self).has_slab(slab_of_slice(zz).0) {
                    old(self).block_view(xx, yy, zz)
                } else {
                    old(self).empty_view()
                },
    {
        let ghost old_self = *self;
        if !self.set_block(0, 0, z, block, policy) {
            return false;
        }
        let mut i: u16 = 1;
        while i < 256
            invariant
                self.wf(),
                1 <= i <= 256,
                self.has_slab(slab_of_slice(z as int).0),
                self.empty_view() == old_self.empty_view(),
                forall|s: int| old_self.has_slab(s) ==> self.has_slab(s),
                forall|xx: int, yy: int, zz: int|
                    0 <= xx < 16 && 0 <= yy < 16 && self.has_slab(slab_of_slice(zz).0) ==> #[trigger] self.block_view(xx, yy, zz)
                        == if zz == z && yy * 16 + xx < i {
                        block
                    } else if old_self.has_slab(slab_of_slice(zz).0) {
                        old_self.block_view(xx, yy, zz)
                    } else {
                        old_self.empty_view()
                    },
            decreases 256 - i,
        {
            let ghost before = *self;
            let x = (i % 16) as u8;
            let y = (i / 16) as u8;
            self.set_block(x, y, z, block, policy);
            assert forall|xx: int, yy: int, zz: int|
                0 <= xx < 16 && 0 <= yy < 16 && self.has_slab(slab_of_slice(zz).0) implies #[trigger] self.block_view(xx, yy, zz)
                    == if zz == z && yy * 16 + xx < i + 1 {
                    block
                } else if old_self.has_slab(slab_of_slice(zz).0) {
                    old_self.block_view(xx, yy, zz)
                } else {
                    old_self.empty_view()
                } by {
                assert(before.has_slab(slab_of_slice(zz).0));
            }
            i = i + 1;
        }
        true
    }
}

/// Builds a chunk's terrain block by block, making slabs as needed.
pub struct ChunkBuilder<B> {
    terrain: ChunkTerrain<B>,
}

impl<B: Copy> ChunkBuilder<B> {
    /// The terrain being built.
    pub closed spec fn terrain_view(&self) -> ChunkTerrain<B> {
        self.terrain
    }

    pub closed spec fn wf(&self) -> bool {
        self.terrain.wf()
    }

    /// An empty terrain of one slab, slab 0, all `empty`.
    pub fn new(empty: B) -> (r: Self)
        ensures
            r.wf(),
            r.terrain_view().min_view() == 0,
            r.terrain_view().count_view() == 1,
            r.terrain_view().empty_view() == empty,
            forall|x: int, y: int, z: int|
                0 <= x < 16 && 0 <= y < 16 && 0 <= z < 32 ==> #[trigger] r.terrain_view().block_view(x, y, z) == empty,
    {
        ChunkBuilder { terrain: ChunkTerrain::new(empty) }
    }

    /// Panics if block position is invalid for the chunk, which `requires` leaves out. Will
    /// create slabs as necessary.
    pub fn set_block(self, pos: (i32, i32, i32), block: B) -> (r: Self)
        requires
            self.wf(),
            0 <= pos.0 < 16,
            0 <= pos.1 < 16,
        ensures
            r.wf(),
            r.terrain_view().empty_view() == self.terrain_view().empty_view(),
            slab_of_slice(pos.2 as int).0 == 0 && !self.terrain_view().has_slab(0) ==> r.terrain_view().same_as(&self.terrain_view()),
            self.terrain_view().has_slab(slab_of_slice(pos.2 as int).0) || slab_of_slice(pos.2 as int).0 != 0 ==> {
                &&& r.terrain_view().has_slab(slab_of_slice(pos.2 as int).0)
                &&& forall|s: int| self.terrain_view().has_slab(s) ==> r.terrain_view().has_slab(s)
                &&& forall|x: int, y: int, z: int|
                    0 <= x < 16 && 0 <= y < 16 && r.terrain_view().has_slab(slab_of_slice(z).0) ==> #[trigger] r.terrain_view().block_view(x, y, z)
                        == if x == pos.0 && y == pos.1 && z == pos.2 {
                        block
                    } else if self.terrain_view().has_slab(slab_of_slice(z).0) {
                        self.terrain_view().block_view(x, y, z)
                    } else {
                        self.terrain_view().empty_view()
                    }
            },
    {
        let mut terrain = self.terrain;
        terrain.set_block(pos.0 as u8, pos.1 as u8, pos.2, block, SlabCreationPolicy::CreateAll);
        ChunkBuilder { terrain }
    }

    /// Sets every block of slice `slice` to `block`, creating slabs as necessary.
    pub fn fill_slice(self, slice: i32, block: B) -> (r: Self)
        requires
            self.wf(),
        ensures
            r.wf(),
            r.terrain_view().empty_view() == self.terrain_view().empty_view(),
            self.terrain_view().has_slab(slab_of_slice(slice as int).0) || slab_of_slice(slice as int).0 != 0 ==> {
                &&& r.terrain_view().has_slab(slab_of_slice(slice as int).0)
                &&& forall|x: int, y: int, z: int|
                    0 <= x < 16 && 0 <= y < 16 && r.terrain_view().has_slab(slab_of_slice(z).0) ==> #[trigger] r.terrain_view().block_view(x, y, z)
                        == if z == slice {
                        block
                    } else if self.terrain_view().has_slab(slab_of_slice(z).0) {
                        self.terrain_view().block_view(x, y, z)
                    } else {
                        self.terrain_view().empty_view()
                    }
            },
    {
        let mut terrain = self.terrain;
        terrain.fill_slice(slice, block, SlabCreationPolicy::CreateAll);
        ChunkBuilder { terrain }
    }

    /// The terrain built.
    pub fn into_inner(self) -> (r: ChunkTerrain<B>)
        requires
            self.wf(),
        ensures
            r == self.terrain_view(),
            r.wf(),
    {
        self.terrain
    }
}

/// A slab of nothing but the given block.
fn empty_slab<B: Copy>(empty: B) -> (r: Vec<B>)
    ensures
        r@.len() == SLAB_BLOCKS,
        forall|i: int| 0 <= i < SLAB_BLOCKS ==> #[trigger] r@[i] == empty,
{
    let mut v: Vec<B> = Vec::new();
    while v.len() < SLAB_BLOCKS
        invariant
            v@.len() <= SLAB_BLOCKS,
            forall|i: int| 0 <= i < v@.len() ==> #[trigger] v@[i] == empty,
        decreases SLAB_BLOCKS - v@.len(),
    {
        v.push(empty);
    }
    v
}

/// The slab of a slice, and the slice's index in it.
fn split_slice(z: i32) -> (r: (i32, u8))
    ensures
        r.0 == slab_of_slice(z as int).0,
        r.1 == slab_of_slice(z as int).1,
        r.1 < 32,
{
    let local = z % 32;
    if local >= 0 {
        (z / 32, local as u8)
    } else {
        (z / 32 - 1, (local + 32) as u8)
    }
}

} // verus!
