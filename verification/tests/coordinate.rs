use world::coordinate::dim::{chunk_size, SmallUnsignedConstant, CHUNK_SIZE_I32};
use world::coordinate::world::{
    BlockCoord, BlockPosition, ChunkPosition, SliceBlock, SliceIndex, WorldPosition,
};

#[test]
fn world_to_chunk() {
    assert_eq!(
        ChunkPosition::from(WorldPosition(10, 20, 50)),
        ChunkPosition(0, 1)
    );
    assert_eq!(
        ChunkPosition::from(WorldPosition(-20, -40, 50)),
        ChunkPosition(-2, -3)
    );

    assert_eq!(
        ChunkPosition::from(WorldPosition(-2, 2, 0)),
        ChunkPosition(-1, 0)
    );
}

#[test]
fn negative_world_to_block() {
    assert_eq!(
        BlockPosition::from(WorldPosition(-10, -10, -10)),
        BlockPosition::from((6, 6, -10))
    );
}

#[test]
fn block_to_world_position() {
    let b = BlockPosition(BlockCoord(1), BlockCoord(2), SliceIndex(3));
    assert_eq!(b.to_world_pos(ChunkPosition(0, 0)), WorldPosition(1, 2, 3));
    assert_eq!(
        b.to_world_pos(ChunkPosition(1, 2)),
        WorldPosition(1 + 16, 2 + 32, 3)
    );
    let b: BlockPosition = (0, 0, 0).into();
    assert_eq!(
        b.to_world_pos(ChunkPosition(-1, -1)),
        WorldPosition(-16, -16, 0)
    );
}

#[test]
fn world_split_and_rejoin() {
    for &(x, y, z) in &[(-1, -17, 4), (0, 15, -3), (33, -32, 7), (i32::MIN, i32::MAX, 0)] {
        let w = WorldPosition(x, y, z);
        let chunk = ChunkPosition::from(w);
        let block = BlockPosition::from(w);
        assert!((block.0).0 < 16 && (block.1).0 < 16);
        assert_eq!(block.to_world_pos(chunk), w);
    }
}

#[test]
fn slice_index_abs() {
    assert_eq!(SliceIndex(-5).abs(), SliceIndex(5));
    assert_eq!(SliceIndex(7).abs(), SliceIndex(7));
    assert_eq!(SliceIndex::min().0, i32::MIN);
    assert_eq!(SliceIndex::max().0, i32::MAX);
    assert_eq!(SliceIndex(3) + 4, SliceIndex(7));
    assert_eq!(SliceIndex(3) - 4, SliceIndex(-1));
}

#[test]
fn block_position_conversions() {
    let b = BlockPosition::from((1u16, 2u16, -3));
    assert_eq!(b.flatten(), (1, 2, -3));
    assert_eq!(SliceBlock::from(b), SliceBlock(BlockCoord(1), BlockCoord(2)));
    assert_eq!(
        SliceBlock::from((4u16, 5u16)).to_block_position(SliceIndex(9)),
        BlockPosition(BlockCoord(4), BlockCoord(5), SliceIndex(9))
    );
    let c: [i32; 3] = b.into();
    assert_eq!(c, [1, 2, -3]);
    assert_eq!(BlockPosition::from(c), b);
    assert_eq!(WorldPosition(1, 2, 3) + (1, -1, 10), WorldPosition(2, 1, 13));
    assert_eq!(WorldPosition::from((1, 2, 3)), WorldPosition(1, 2, 3));
    assert_eq!(ChunkPosition::from((4, -4)), ChunkPosition(4, -4));
}

#[test]
fn small_unsigned_constant() {
    let c = SmallUnsignedConstant::new(16);
    assert_eq!(c.as_i32(), 16);
    assert_eq!(c.as_u16(), 16);
    assert_eq!(c.as_usize(), 16);
    assert_eq!(chunk_size().as_i32(), CHUNK_SIZE_I32);
    assert_eq!(SmallUnsignedConstant::new(70000).as_u16(), 70000u32 as u16);
}
