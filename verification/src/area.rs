pub mod boundary;
pub mod discovery;

use vstd::prelude::*;

use crate::coordinate::world::ChunkPosition;
use crate::slab::SlabIndex;

verus! {

/// Area index in a slab. 0 is uninitialized, starts at 1
#[derive(Default, Debug, Copy, Clone, Eq, PartialEq, Hash, Ord, PartialOrd, Structural)]
pub struct SlabAreaIndex(pub u8);

/// An area in a chunk
#[derive(Default, Debug, Copy, Clone, Eq, PartialEq, Hash, Structural)]
pub struct ChunkArea {
    pub slab: SlabIndex,
    pub area: SlabAreaIndex,
}

/// An area in the world
#[derive(Debug, Copy, Clone, Eq, PartialEq, Hash, Ord, PartialOrd, Structural)]
pub struct WorldArea {
    pub chunk: ChunkPosition,
    pub slab: SlabIndex,
    pub area: SlabAreaIndex,
}

impl SlabAreaIndex {
    /// The index of a block that has no area yet.
    pub fn uninitialized() -> (r: SlabAreaIndex)
        ensures
            r.0 == 0,
    {
        SlabAreaIndex(0)
    }

    /// The index of the first area of a slab.
    pub fn first() -> (r: SlabAreaIndex)
        ensures
            r.0 == 1,
    {
        SlabAreaIndex(1)
    }

    pub fn initialized(self) -> (r: bool)
        ensures
            r == (self.0 != 0),
    {
        self.0 != 0
    }

    pub fn increment(&mut self)
        requires
            old(self).0 < u8::MAX,
        ensures
            final(self).0 == old(self).0 + 1,
    {
        self.0 = self.0 + 1;
    }

    pub fn ok(self) -> (r: Option<Self>)
        ensures
            r == (if self.0 != 0 {
                Some(self)
            } else {
                None
            }),
    {
        if self.initialized() {
            Some(self)
        } else {
            None
        }
    }
}

impl ChunkArea {
    pub fn into_world_area(self, chunk_pos: ChunkPosition) -> (r: WorldArea)
        ensures
            r == (WorldArea { chunk: chunk_pos, slab: self.slab, area: self.area }),
    {
        WorldArea { chunk: chunk_pos, slab: self.slab, area: self.area }
    }
}

} // verus!
