use vstd::prelude::*;

use crate::coordinate::dim::{CHUNK_SIZE_U16, CHUNK_SIZE_USIZE};
use crate::coordinate::world::{BlockCoord, SliceBlock};

verus! {

/// The number of blocks in one horizontal slice of a chunk.
pub const SLICE_SIZE: usize = 256;

/// The position in a slice of the block at a row-major index.
pub open spec fn unflatten_spec(index: int) -> SliceBlock {
    SliceBlock(
        BlockCoord((index % CHUNK_SIZE_USIZE as int) as u16),
        BlockCoord((index / CHUNK_SIZE_USIZE as int) as u16),
    )
}

/// The row-major index of a block in a slice.
pub open spec fn flatten_spec(block: SliceBlock) -> int {
    block.1.0 * CHUNK_SIZE_U16 + block.0.0
}

pub fn unflatten_index(index: usize) -> (r: SliceBlock)
    ensures
        r == unflatten_spec(index as int),
{
    SliceBlock(
        BlockCoord((index % CHUNK_SIZE_USIZE) as u16),
        BlockCoord((index / CHUNK_SIZE_USIZE) as u16),
    )
}

pub fn flatten_coords(block: SliceBlock) -> (r: usize)
    requires
        flatten_spec(block) <= u16::MAX,
    ensures
        r == flatten_spec(block),
{
    let SliceBlock(BlockCoord(x), BlockCoord(y)) = block;
    ((y * CHUNK_SIZE_U16) + x) as usize
}

/// Every index of a slice names a block inside the slice, whose index is the one it came
/// from.
pub proof fn lemma_flatten_unflatten(index: int)
    requires
        0 <= index < SLICE_SIZE,
    ensures
        unflatten_spec(index).0.0 < CHUNK_SIZE_U16,
        unflatten_spec(index).1.0 < CHUNK_SIZE_U16,
        flatten_spec(unflatten_spec(index)) == index,
{
}

/// Every block inside a slice has an index inside the slice, which names that block.
pub proof fn lemma_unflatten_flatten(block: SliceBlock)
    requires
        block.0.0 < CHUNK_SIZE_U16,
        block.1.0 < CHUNK_SIZE_U16,
    ensures
        0 <= flatten_spec(block) < SLICE_SIZE,
        unflatten_spec(flatten_spec(block)) == block,
{
}

} // verus!
