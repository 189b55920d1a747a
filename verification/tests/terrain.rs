use world::chunk::terrain::{apply_terrain_updates, ChunkBuilder, ChunkTerrain, SlabCreationPolicy, SLAB_BLOCKS};
use world::loader::update::GenericTerrainUpdate;
use world::range::WorldRange;
use world::slab::SlabPosition;

const SLAB_SIZE_I32: i32 = 32;

#[derive(Copy, Clone, Debug, PartialEq, Eq)]
enum DummyBlockType {
    Air,
    Stone,
    Grass,
}

#[test]
fn empty() {
    let terrain = ChunkTerrain::new(DummyBlockType::Air);
    assert_eq!(terrain.slab_count(), 1);
}

#[test]
fn create_slab() {
    // setting blocks in non-existent places should create a slab to fill it
    let mut terrain = ChunkTerrain::new(DummyBlockType::Air);

    // 1 slab below should not yet exist
    assert!(!terrain.set_block(0, 0, -5, DummyBlockType::Stone, SlabCreationPolicy::PleaseDont));
    assert!(terrain.get_block(0, 0, -5).is_none());
    assert_eq!(terrain.slab_count(), 1);
    assert_eq!(terrain.slice_bounds_as_slabs(), (0, SLAB_SIZE_I32));

    // now really set
    assert!(terrain.set_block(0, 0, -5, DummyBlockType::Stone, SlabCreationPolicy::CreateAll));
    assert_eq!(terrain.get_block(0, 0, -5).unwrap(), DummyBlockType::Stone);
    assert_eq!(terrain.slab_count(), 2);
    assert_eq!(terrain.slice_bounds_as_slabs(), (-SLAB_SIZE_I32, SLAB_SIZE_I32));

    // set a high block that will fill the rest in with air
    assert!(terrain.set_block(0, 0, 100, DummyBlockType::Grass, SlabCreationPolicy::CreateAll));
    assert_eq!(terrain.get_block(0, 0, 100).unwrap(), DummyBlockType::Grass);
    assert_eq!(terrain.slab_count(), 5);
    let (lo, hi) = terrain.slice_bounds_as_slabs();
    assert!(lo <= 100 && 100 < hi);

    for z in 0..100 {
        // air inbetween
        assert_eq!(terrain.get_block(0, 0, z).unwrap(), DummyBlockType::Air);
    }
}

#[test]
fn creating_slabs_until_zero_does_nothing() {
    let mut terrain = ChunkTerrain::new(DummyBlockType::Air);
    assert!(terrain.set_block(0, 0, 70, DummyBlockType::Stone, SlabCreationPolicy::CreateAll));
    assert_eq!(terrain.slab_range(), (0, 2));
    // slab zero is there; the terrain reaching up to slab 2 is kept
    terrain.create_slabs_until(0);
    assert_eq!(terrain.slab_range(), (0, 2));
    assert!(terrain.try_set_block(15, 15, 63, DummyBlockType::Grass));
    assert!(!terrain.try_set_block(15, 15, 96, DummyBlockType::Grass));
    assert_eq!(terrain.get_block(15, 15, 63), Some(DummyBlockType::Grass));
}

#[test]
fn slab_updates_set_blocks() {
    let mut blocks = vec![DummyBlockType::Air; SLAB_BLOCKS];
    let updates = [
        GenericTerrainUpdate(
            WorldRange::Range(SlabPosition(3, 3, 2), SlabPosition(1, 1, 1)),
            DummyBlockType::Stone,
        ),
        GenericTerrainUpdate(WorldRange::Single(SlabPosition(2, 2, 2)), DummyBlockType::Grass),
    ];
    // 3 * 3 * 2 blocks, then one
    assert_eq!(apply_terrain_updates(&mut blocks, &updates), 19);
    let at = |x: usize, y: usize, z: usize| blocks[(z * 16 + y) * 16 + x];
    assert_eq!(at(1, 1, 1), DummyBlockType::Stone);
    assert_eq!(at(3, 3, 2), DummyBlockType::Stone);
    assert_eq!(at(2, 2, 2), DummyBlockType::Grass);
    assert_eq!(at(0, 1, 1), DummyBlockType::Air);
    assert_eq!(at(1, 1, 3), DummyBlockType::Air);
    assert_eq!(blocks.iter().filter(|b| **b != DummyBlockType::Air).count(), 18);

    let mut terrain = ChunkTerrain::new(DummyBlockType::Air);
    assert_eq!(terrain.apply_slab_updates(1, &updates), None);
    assert_eq!(terrain.apply_slab_updates(0, &updates), Some(19));
    assert_eq!(terrain.get_block(2, 2, 2), Some(DummyBlockType::Grass));
    assert_eq!(terrain.get_block(3, 1, 1), Some(DummyBlockType::Stone));
}

#[test]
fn builder_sets_and_fills() {
    let terrain = ChunkBuilder::new(DummyBlockType::Air)
        .fill_slice(0, DummyBlockType::Stone)
        .set_block((3, 4, 40), DummyBlockType::Grass)
        .fill_slice(-1, DummyBlockType::Grass)
        .into_inner();
    assert_eq!(terrain.slab_range(), (-1, 1));
    assert_eq!(terrain.get_block(15, 15, 0), Some(DummyBlockType::Stone));
    assert_eq!(terrain.get_block(7, 0, -1), Some(DummyBlockType::Grass));
    assert_eq!(terrain.get_block(7, 0, -2), Some(DummyBlockType::Air));
    assert_eq!(terrain.get_block(3, 4, 40), Some(DummyBlockType::Grass));
    assert_eq!(terrain.get_block(3, 4, 39), Some(DummyBlockType::Air));
    assert_eq!(terrain.get_block(0, 0, 64), None);
}
