use world::chunk::slab::{AreaInfo, SliceNavArea};
use world::chunk::slice_navmesh::SliceAreaIndex;
use world::coordinate::world::{ChunkPosition, WorldPosition};
use world::navigationv2::{ChunkArea, SlabArea, WorldArea};
use world::slab::SlabLocation;
use world::world::{ContiguousChunkIterator, World};

fn world_with(chunks: &[(i32, i32)]) -> World {
    let mut w = World::empty();
    for &(x, y) in chunks {
        w.ensure_chunk(ChunkPosition(x, y));
    }
    w
}

#[test]
fn find_chunk() {
    let world = world_with(&[(0, 0), (1, 0), (2, 0), (3, 0), (0, 1), (0, -3), (2, 5)]);

    for chunk in world.all_chunks() {
        assert_eq!(
            world.find_chunk_with_pos(chunk.pos()).unwrap().pos(),
            chunk.pos()
        );
    }

    assert!(world.find_chunk_with_pos(ChunkPosition(10, 10)).is_none());
}

#[test]
fn contiguous_chunk_iter() {
    let world = world_with(&[(0, 0), (1, 0)]);
    let mut iter = ContiguousChunkIterator::new(&world);
    let mut chunk;

    chunk = iter.next(ChunkPosition(0, 0));
    assert!(chunk.is_some());

    // same as before
    chunk = iter.next(ChunkPosition(0, 0));
    assert!(chunk.is_some());
    assert!(iter.matched_last());

    // changed
    chunk = iter.next(ChunkPosition(1, 0));
    assert!(chunk.is_some());
    assert!(!iter.matched_last());

    // same
    chunk = iter.next(ChunkPosition(1, 0));
    assert!(chunk.is_some());
    assert!(iter.matched_last());

    // bad
    chunk = iter.next(ChunkPosition(5, 0));
    assert!(chunk.is_none());
    assert!(!iter.matched_last());

    // still bad but matched
    chunk = iter.next(ChunkPosition(5, 0));
    assert!(chunk.is_none());
    assert!(iter.matched_last());

    // another bad
    chunk = iter.next(ChunkPosition(6, 0));
    assert!(chunk.is_none());
    assert!(!iter.matched_last());
}

#[test]
fn chunks_kept_in_order() {
    let mut world = world_with(&[(2, 0), (0, 5), (0, -1), (1, 1)]);
    let order: Vec<ChunkPosition> = world.all_chunks().iter().map(|c| c.pos()).collect();
    assert_eq!(
        order,
        vec![
            ChunkPosition(0, -1),
            ChunkPosition(0, 5),
            ChunkPosition(1, 1),
            ChunkPosition(2, 0)
        ]
    );
    // already there: nothing added
    let idx = world.ensure_chunk(ChunkPosition(1, 1));
    assert_eq!(idx, 2);
    assert_eq!(world.all_chunks().len(), 4);
}

#[test]
fn slabs_to_load() {
    let mut world = World::empty();
    world.ensure_chunk(ChunkPosition(0, 0));
    let mut slabs = vec![
        SlabLocation::new(0, ChunkPosition(0, 0)),
        SlabLocation::new(1, ChunkPosition(0, 0)),
        SlabLocation::new(0, ChunkPosition(3, 3)),
    ];
    let mut all = slabs.clone();
    world.retain_slabs_to_load(&mut all);
    // nothing requested yet
    assert_eq!(all, slabs);

    world
        .find_chunk_with_pos_mut(ChunkPosition(0, 0))
        .unwrap()
        .mark_slab_requested(1);
    assert!(world.find_chunk_with_pos_mut(ChunkPosition(4, 4)).is_none());
    world.retain_slabs_to_load(&mut slabs);
    // the requested slab goes; the slab of an unloaded chunk stays
    assert_eq!(
        slabs,
        vec![
            SlabLocation::new(0, ChunkPosition(0, 0)),
            SlabLocation::new(0, ChunkPosition(3, 3)),
        ]
    );
}

#[test]
fn lookup_area_info_in_chunk() {
    let mut world = world_with(&[(0, 0), (1, 0)]);
    world
        .find_chunk_with_pos_mut(ChunkPosition(1, 0))
        .unwrap()
        .replace_all_slice_areas(
            2,
            &[SliceNavArea {
                slice: 4,
                from: (1, 2),
                to: (3, 5),
                height: 3,
            }],
        );
    let area = |chunk: (i32, i32), slab: i32, slice: u8| WorldArea {
        chunk_idx: ChunkPosition(chunk.0, chunk.1),
        chunk_area: ChunkArea {
            slab_idx: slab,
            slab_area: SlabArea {
                slice_idx: slice,
                slice_area: SliceAreaIndex(0),
            },
        },
    };
    assert_eq!(
        world.lookup_area_info(area((1, 0), 2, 4)),
        Some(AreaInfo {
            height: 3,
            range: ((1, 2), (3, 5))
        })
    );
    assert_eq!(world.lookup_area_info(area((0, 0), 2, 4)), None);
    assert_eq!(world.lookup_area_info(area((1, 0), 2, 5)), None);
    assert_eq!(world.lookup_area_info(area((7, 0), 2, 4)), None);

    // the block at (18, 3, 68) is at (2, 3) in chunk (1, 0), slice 4 of slab 2
    assert_eq!(world.areav2(WorldPosition(18, 3, 68)), Some(area((1, 0), 2, 4)));
    assert_eq!(world.areav2(WorldPosition(18, 3, 69)), None);
    assert_eq!(world.areav2(WorldPosition(16, 3, 68)), None);
    assert_eq!(world.areav2(WorldPosition(2, 3, 68)), None);
    assert_eq!(world.areav2(WorldPosition(-14, 3, 68)), None);
}

#[test]
fn invalidate_slab_for_terrain_change() {
    let mut world = World::empty();
    world.ensure_chunk(ChunkPosition(0, 0));
    {
        let chunk = world.find_chunk_with_pos_mut(ChunkPosition(0, 0)).unwrap();
        chunk.mark_slabs_requested(&[0]);
        chunk.mark_slab_as_in_world(0);
        chunk.mark_slab_as_done_in_isolation(0);
        chunk.mark_slab_as_done(0);
    }
    assert!(!world.invalidate_slab(SlabLocation::new(0, ChunkPosition(5, 5))));
    assert!(world.invalidate_slab(SlabLocation::new(0, ChunkPosition(0, 0))));
    let chunk = world.find_chunk_with_pos(ChunkPosition(0, 0)).unwrap();
    assert!(!chunk.is_slab_loaded(0));
    assert_eq!(chunk.slab_load_status(0), world::chunk::chunk::SlabLoadingStatus::Requested);
}
