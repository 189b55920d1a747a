use vstd::prelude::*;

use crate::coordinate::dim::{CHUNK_SIZE_I32, CHUNK_SIZE_U16};
use crate::grid::CoordType;

verus! {

/// A slice of blocks in a chunk, z coordinate
#[derive(Debug, Copy, Clone, PartialEq, Eq, Hash, PartialOrd, Ord, Structural)]
pub struct SliceIndex(pub SliceIndexType);

pub type SliceIndexType = i32;

/// A block in a chunk, x/y coordinate. Must be < chunk size
#[derive(Debug, Copy, Clone, PartialEq, Eq, Hash, Structural)]
pub struct BlockCoord(pub u16);

/// A block in a chunk
#[derive(Debug, Copy, Clone, PartialEq, Eq, Hash, Structural)]
pub struct BlockPosition(pub BlockCoord, pub BlockCoord, pub SliceIndex);

/// A block in a slice
#[derive(Debug, Copy, Clone, PartialEq, Eq, Structural)]
pub struct SliceBlock(pub BlockCoord, pub BlockCoord);

/// A chunk in the world
#[derive(Debug, Copy, Clone, PartialEq, Eq, Hash, Ord, PartialOrd, Structural)]
pub struct ChunkPosition(pub i32, pub i32);

/// A block anywhere in the world
#[derive(Debug, Copy, Clone, PartialEq, Eq, Hash, Structural)]
pub struct WorldPosition(pub i32, pub i32, pub i32);

/// The lowest slice index.
pub const SLICE_INDEX_MIN: i32 = i32::MIN;

/// The highest slice index.
pub const SLICE_INDEX_MAX: i32 = i32::MAX;

/// Absolute value of an integer, as a mathematical integer.
pub open spec fn abs_int(v: int) -> int {
    if v < 0 {
        -v
    } else {
        v
    }
}

/// The chunk that holds a world coordinate along one horizontal axis (floor division).
pub open spec fn chunk_of(v: int) -> int {
    v / (CHUNK_SIZE_I32 as int)
}

/// The offset of a world coordinate inside its chunk along one horizontal axis.
pub open spec fn offset_in_chunk(v: int) -> int {
    v % (CHUNK_SIZE_I32 as int)
}

impl SliceIndex {
    /// The lowest slice.
    pub fn min() -> (r: SliceIndex)
        ensures
            r.0 == i32::MIN,
    {
        SliceIndex(SLICE_INDEX_MIN)
    }

    /// The highest slice.
    pub fn max() -> (r: SliceIndex)
        ensures
            r.0 == i32::MAX,
    {
        SliceIndex(SLICE_INDEX_MAX)
    }

    pub fn abs(self) -> (r: Self)
        requires
            self.0 != i32::MIN,
        ensures
            r.0 == abs_int(self.0 as int),
    {
        if self.0 < 0 {
            Self(-self.0)
        } else {
            Self(self.0)
        }
    }
}

/// The world position of a block inside the chunk at the given position.
pub open spec fn block_to_world(b: BlockPosition, chunk: ChunkPosition) -> WorldPosition {
    WorldPosition(
        (b.0.0 as int + chunk.0 as int * CHUNK_SIZE_I32 as int) as i32,
        (b.1.0 as int + chunk.1 as int * CHUNK_SIZE_I32 as int) as i32,
        b.2.0,
    )
}

/// The block position and its chunk together fit the world's coordinate range.
pub open spec fn block_to_world_fits(b: BlockPosition, chunk: ChunkPosition) -> bool {
    &&& i32::MIN <= chunk.0 as int * CHUNK_SIZE_I32 as int <= i32::MAX
    &&& i32::MIN <= chunk.1 as int * CHUNK_SIZE_I32 as int <= i32::MAX
    &&& i32::MIN <= b.0.0 as int + chunk.0 as int * CHUNK_SIZE_I32 as int <= i32::MAX
    &&& i32::MIN <= b.1.0 as int + chunk.1 as int * CHUNK_SIZE_I32 as int <= i32::MAX
}

impl BlockPosition {
    pub fn to_world_pos(self, chunk_pos: ChunkPosition) -> (r: WorldPosition)
        requires
            block_to_world_fits(self, chunk_pos),
        ensures
            r == block_to_world(self, chunk_pos),
    {
        let ChunkPosition(cx, cy) = chunk_pos;
        let BlockPosition(BlockCoord(x), BlockCoord(y), SliceIndex(z)) = self;
        WorldPosition(x as i32 + cx * CHUNK_SIZE_I32, y as i32 + cy * CHUNK_SIZE_I32, z)
    }

    pub fn flatten(self) -> (r: (u16, u16, SliceIndexType))
        ensures
            r == (self.0.0, self.1.0, self.2.0),
    {
        (self.0.0, self.1.0, self.2.0)
    }
}

impl SliceBlock {
    pub fn to_block_position(self, slice: SliceIndex) -> (r: BlockPosition)
        ensures
            r == BlockPosition(self.0, self.1, slice),
    {
        BlockPosition(self.0, self.1, slice)
    }
}

impl WorldPosition {
    /// Moves by the given offset on each axis.
    pub fn offset(self, delta: (i32, i32, i32)) -> (r: WorldPosition)
        requires
            i32::MIN <= self.0 + delta.0 <= i32::MAX,
            i32::MIN <= self.1 + delta.1 <= i32::MAX,
            i32::MIN <= self.2 + delta.2 <= i32::MAX,
        ensures
            r == WorldPosition(
                (self.0 + delta.0) as i32,
                (self.1 + delta.1) as i32,
                (self.2 + delta.2) as i32,
            ),
    {
        WorldPosition(self.0 + delta.0, self.1 + delta.1, self.2 + delta.2)
    }

    /// The chunk holding this position.
    pub fn chunk(self) -> (r: ChunkPosition)
        ensures
            r == ChunkPosition(chunk_of(self.0 as int) as i32, chunk_of(self.1 as int) as i32),
    {
        let x = self.0.checked_div_euclid(CHUNK_SIZE_I32).unwrap();
        let y = self.1.checked_div_euclid(CHUNK_SIZE_I32).unwrap();
        ChunkPosition(x, y)
    }

    /// The position of this block inside its chunk.
    pub fn block(self) -> (r: BlockPosition)
        ensures
            r == BlockPosition(
                BlockCoord(offset_in_chunk(self.0 as int) as u16),
                BlockCoord(offset_in_chunk(self.1 as int) as u16),
                SliceIndex(self.2),
            ),
    {
        let x = self.0.checked_rem_euclid(CHUNK_SIZE_I32).unwrap();
        let y = self.1.checked_rem_euclid(CHUNK_SIZE_I32).unwrap();
        BlockPosition(BlockCoord(x as u16), BlockCoord(y as u16), SliceIndex(self.2))
    }
}

/// Splitting a world position into the chunk that holds it and its position inside that
/// chunk loses nothing: putting the two back together gives the same world position.
pub proof fn lemma_world_split_rejoins(w: WorldPosition)
    ensures
        block_to_world_fits(
            BlockPosition(
                BlockCoord(offset_in_chunk(w.0 as int) as u16),
                BlockCoord(offset_in_chunk(w.1 as int) as u16),
                SliceIndex(w.2),
            ),
            ChunkPosition(chunk_of(w.0 as int) as i32, chunk_of(w.1 as int) as i32),
        ),
        block_to_world(
            BlockPosition(
                BlockCoord(offset_in_chunk(w.0 as int) as u16),
                BlockCoord(offset_in_chunk(w.1 as int) as u16),
                SliceIndex(w.2),
            ),
            ChunkPosition(chunk_of(w.0 as int) as i32, chunk_of(w.1 as int) as i32),
        ) == w,
{
    lemma_axis_split(w.0 as int);
    lemma_axis_split(w.1 as int);
}

proof fn lemma_axis_split(v: int)
    requires
        i32::MIN <= v <= i32::MAX,
    ensures
        0 <= offset_in_chunk(v) < 16,
        i32::MIN <= chunk_of(v) * 16 <= v,
        i32::MIN <= chunk_of(v) <= i32::MAX,
        offset_in_chunk(v) + chunk_of(v) * 16 == v,
{
    assert(v == (v / 16) * 16 + v % 16) by (nonlinear_arith);
    assert(0 <= v % 16 < 16) by (nonlinear_arith);
    // the lowest value is a multiple of the chunk size, so no floor lies below it
    assert(((v / 16) * 16) >= i32::MIN) by (nonlinear_arith)
        requires
            v >= -2147483648,
            v == (v / 16) * 16 + v % 16,
            0 <= v % 16 < 16,
    {
        assert(v / 16 >= -134217728);
    }
}

/// A block at a valid position inside a chunk is found again in that chunk, at the same
/// position, once placed in the world.
pub proof fn lemma_world_join_splits(b: BlockPosition, c: ChunkPosition)
    requires
        b.0.0 < CHUNK_SIZE_U16,
        b.1.0 < CHUNK_SIZE_U16,
        block_to_world_fits(b, c),
    ensures
        ({
            let w = block_to_world(b, c);
            &&& ChunkPosition(chunk_of(w.0 as int) as i32, chunk_of(w.1 as int) as i32) == c
            &&& BlockPosition(
                BlockCoord(offset_in_chunk(w.0 as int) as u16),
                BlockCoord(offset_in_chunk(w.1 as int) as u16),
                SliceIndex(w.2),
            ) == b
        }),
{
    lemma_axis_join(b.0.0 as int, c.0 as int);
    lemma_axis_join(b.1.0 as int, c.1 as int);
}

proof fn lemma_axis_join(o: int, c: int)
    requires
        0 <= o < 16,
    ensures
        chunk_of(o + c * 16) == c,
        offset_in_chunk(o + c * 16) == o,
{
    vstd::arithmetic::div_mod::lemma_fundamental_div_mod_converse(o + c * 16, 16, c, o);
}

// --------
impl From<u16> for BlockCoord {
    fn from(u: u16) -> (r: Self) {
        Self(u)
    }
}

impl vstd::std_specs::convert::FromSpecImpl<u16> for BlockCoord {
    open spec fn obeys_from_spec() -> bool {
        true
    }

    open spec fn from_spec(u: u16) -> Self {
        BlockCoord(u)
    }
}

impl From<(u16, u16, SliceIndexType)> for BlockPosition {
    fn from(pos: (u16, u16, i32)) -> (r: Self) {
        let (x, y, z) = pos;
        Self(BlockCoord(x), BlockCoord(y), SliceIndex(z))
    }
}

impl vstd::std_specs::convert::FromSpecImpl<(u16, u16, SliceIndexType)> for BlockPosition {
    open spec fn obeys_from_spec() -> bool {
        true
    }

    open spec fn from_spec(pos: (u16, u16, i32)) -> Self {
        BlockPosition(BlockCoord(pos.0), BlockCoord(pos.1), SliceIndex(pos.2))
    }
}

/// Each coordinate of a signed triple taken as a block position: the horizontal ones are
/// narrowed to block coordinates.
pub open spec fn block_position_from_signed(pos: (i32, i32, i32)) -> BlockPosition {
    BlockPosition(BlockCoord(pos.0 as u16), BlockCoord(pos.1 as u16), SliceIndex(pos.2))
}

impl From<(i32, i32, i32)> for BlockPosition {
    fn from(pos: (i32, i32, i32)) -> (r: Self) {
        let (x, y, z) = pos;
        Self(BlockCoord(x as u16), BlockCoord(y as u16), SliceIndex(z))
    }
}

impl vstd::std_specs::convert::FromSpecImpl<(i32, i32, i32)> for BlockPosition {
    open spec fn obeys_from_spec() -> bool {
        true
    }

    open spec fn from_spec(pos: (i32, i32, i32)) -> Self {
        block_position_from_signed(pos)
    }
}

impl From<CoordType> for BlockPosition {
    fn from(pos: CoordType) -> (r: Self) {
        Self(BlockCoord(pos[0] as u16), BlockCoord(pos[1] as u16), SliceIndex(pos[2]))
    }
}

impl vstd::std_specs::convert::FromSpecImpl<CoordType> for BlockPosition {
    open spec fn obeys_from_spec() -> bool {
        true
    }

    open spec fn from_spec(pos: CoordType) -> Self {
        BlockPosition(BlockCoord(pos[0] as u16), BlockCoord(pos[1] as u16), SliceIndex(pos[2]))
    }
}

impl From<BlockPosition> for CoordType {
    fn from(b: BlockPosition) -> (r: Self) {
        let BlockPosition(BlockCoord(x), BlockCoord(y), SliceIndex(z)) = b;
        [x as i32, y as i32, z]
    }
}

impl vstd::std_specs::convert::FromSpecImpl<BlockPosition> for CoordType {
    open spec fn obeys_from_spec() -> bool {
        true
    }

    open spec fn from_spec(b: BlockPosition) -> Self {
        [b.0.0 as i32, b.1.0 as i32, b.2.0]
    }
}

impl From<SliceIndexType> for SliceIndex {
    fn from(i: i32) -> (r: Self) {
        Self(i)
    }
}

impl vstd::std_specs::convert::FromSpecImpl<SliceIndexType> for SliceIndex {
    open spec fn obeys_from_spec() -> bool {
        true
    }

    open spec fn from_spec(i: i32) -> Self {
        SliceIndex(i)
    }
}

impl From<(i32, i32)> for ChunkPosition {
    fn from(pos: (i32, i32)) -> (r: Self) {
        let (x, y) = pos;
        Self(x, y)
    }
}

impl vstd::std_specs::convert::FromSpecImpl<(i32, i32)> for ChunkPosition {
    open spec fn obeys_from_spec() -> bool {
        true
    }

    open spec fn from_spec(pos: (i32, i32)) -> Self {
        ChunkPosition(pos.0, pos.1)
    }
}

impl core::ops::Add<SliceIndexType> for SliceIndex {
    type Output = SliceIndex;

    fn add(self, rhs: i32) -> (r: Self::Output) {
        SliceIndex(self.0 + rhs)
    }
}

impl vstd::std_specs::ops::AddSpecImpl<SliceIndexType> for SliceIndex {
    open spec fn obeys_add_spec() -> bool {
        true
    }

    open spec fn add_req(self, rhs: i32) -> bool {
        i32::MIN <= self.0 + rhs <= i32::MAX
    }

    open spec fn add_spec(self, rhs: i32) -> SliceIndex {
        SliceIndex((self.0 + rhs) as i32)
    }
}

impl core::ops::Sub<SliceIndexType> for SliceIndex {
    type Output = SliceIndex;

    fn sub(self, rhs: i32) -> (r: Self::Output) {
        SliceIndex(self.0 - rhs)
    }
}

impl vstd::std_specs::ops::SubSpecImpl<SliceIndexType> for SliceIndex {
    open spec fn obeys_sub_spec() -> bool {
        true
    }

    open spec fn sub_req(self, rhs: i32) -> bool {
        i32::MIN <= self.0 - rhs <= i32::MAX
    }

    open spec fn sub_spec(self, rhs: i32) -> SliceIndex {
        SliceIndex((self.0 - rhs) as i32)
    }
}

impl From<(u16, u16)> for SliceBlock {
    fn from(xy: (u16, u16)) -> (r: Self) {
        Self(BlockCoord(xy.0), BlockCoord(xy.1))
    }
}

impl vstd::std_specs::convert::FromSpecImpl<(u16, u16)> for SliceBlock {
    open spec fn obeys_from_spec() -> bool {
        true
    }

    open spec fn from_spec(xy: (u16, u16)) -> Self {
        SliceBlock(BlockCoord(xy.0), BlockCoord(xy.1))
    }
}

impl From<BlockPosition> for SliceBlock {
    fn from(b: BlockPosition) -> (r: Self) {
        Self(b.0, b.1)
    }
}

impl vstd::std_specs::convert::FromSpecImpl<BlockPosition> for SliceBlock {
    open spec fn obeys_from_spec() -> bool {
        true
    }

    open spec fn from_spec(b: BlockPosition) -> Self {
        SliceBlock(b.0, b.1)
    }
}

impl From<BlockPosition> for (u16, u16, SliceIndexType) {
    fn from(b: BlockPosition) -> (r: Self) {
        (b.0.0, b.1.0, b.2.0)
    }
}

impl vstd::std_specs::convert::FromSpecImpl<BlockPosition> for (u16, u16, SliceIndexType) {
    open spec fn obeys_from_spec() -> bool {
        true
    }

    open spec fn from_spec(b: BlockPosition) -> Self {
        (b.0.0, b.1.0, b.2.0)
    }
}

impl From<(i32, i32, i32)> for WorldPosition {
    fn from(xyz: (i32, i32, i32)) -> (r: Self) {
        Self(xyz.0, xyz.1, xyz.2)
    }
}

impl vstd::std_specs::convert::FromSpecImpl<(i32, i32, i32)> for WorldPosition {
    open spec fn obeys_from_spec() -> bool {
        true
    }

    open spec fn from_spec(xyz: (i32, i32, i32)) -> Self {
        WorldPosition(xyz.0, xyz.1, xyz.2)
    }
}

impl core::ops::Add<(i32, i32, i32)> for WorldPosition {
    type Output = WorldPosition;

    fn add(self, delta: (i32, i32, i32)) -> (r: Self::Output) {
        WorldPosition(self.0 + delta.0, self.1 + delta.1, self.2 + delta.2)
    }
}

impl vstd::std_specs::ops::AddSpecImpl<(i32, i32, i32)> for WorldPosition {
    open spec fn obeys_add_spec() -> bool {
        true
    }

    open spec fn add_req(self, delta: (i32, i32, i32)) -> bool {
        &&& i32::MIN <= self.0 + delta.0 <= i32::MAX
        &&& i32::MIN <= self.1 + delta.1 <= i32::MAX
        &&& i32::MIN <= self.2 + delta.2 <= i32::MAX
    }

    open spec fn add_spec(self, delta: (i32, i32, i32)) -> WorldPosition {
        WorldPosition(
            (self.0 + delta.0) as i32,
            (self.1 + delta.1) as i32,
            (self.2 + delta.2) as i32,
        )
    }
}

impl From<WorldPosition> for ChunkPosition {
    fn from(wp: WorldPosition) -> (r: Self) {
        wp.chunk()
    }
}

impl vstd::std_specs::convert::FromSpecImpl<WorldPosition> for ChunkPosition {
    open spec fn obeys_from_spec() -> bool {
        true
    }

    open spec fn from_spec(wp: WorldPosition) -> Self {
        ChunkPosition(chunk_of(wp.0 as int) as i32, chunk_of(wp.1 as int) as i32)
    }
}

impl From<WorldPosition> for BlockPosition {
    fn from(wp: WorldPosition) -> (r: Self) {
        wp.block()
    }
}

impl vstd::std_specs::convert::FromSpecImpl<WorldPosition> for BlockPosition {
    open spec fn obeys_from_spec() -> bool {
        true
    }

    open spec fn from_spec(wp: WorldPosition) -> Self {
        BlockPosition(
            BlockCoord(offset_in_chunk(wp.0 as int) as u16),
            BlockCoord(offset_in_chunk(wp.1 as int) as u16),
            SliceIndex(wp.2),
        )
    }
}

} // verus!
