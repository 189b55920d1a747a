use vstd::prelude::*;

verus! {

/// A small unsigned dimension constant, such as the width of a chunk.
#[derive(Copy, Clone, Ord, PartialOrd, Eq, PartialEq, Structural)]
pub struct SmallUnsignedConstant(u32);

/// Chunk size in the X and Y dimensions, in blocks.
pub const CHUNK_SIZE_U32: u32 = 16;

/// Chunk size in the X and Y dimensions, as a signed coordinate.
pub const CHUNK_SIZE_I32: i32 = 16;

/// Chunk size in the X and Y dimensions, as a count of blocks along one edge.
pub const CHUNK_SIZE_USIZE: usize = 16;

/// Chunk size in the X and Y dimensions, as a block coordinate.
pub const CHUNK_SIZE_U16: u16 = 16;

/// Chunk size in the X and Y dimensions.
pub fn chunk_size() -> (r: SmallUnsignedConstant)
    ensures
        r.value() == CHUNK_SIZE_U32,
{
    SmallUnsignedConstant(CHUNK_SIZE_U32)
}

impl SmallUnsignedConstant {
    /// The value held.
    pub closed spec fn value(self) -> u32 {
        self.0
    }

    pub fn as_i32(self) -> (r: i32)
        ensures
            r == self.value() as i32,
    {
        self.0 as i32
    }

    pub fn as_u16(self) -> (r: u16)
        ensures
            r == self.value() as u16,
    {
        self.0 as u16
    }

    pub fn as_usize(self) -> (r: usize)
        ensures
            r == self.value() as usize,
    {
        self.0 as usize
    }

    pub fn new(u: u32) -> (r: Self)
        ensures
            r.value() == u,
    {
        Self(u)
    }
}

} // verus!
