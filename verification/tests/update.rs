use world::coordinate::world::{ChunkPosition, WorldPosition};
use world::loader::update::{
    classify_slab_updates, plan_terrain_updates, UpdateApplication,
    find_boundaries, inter_chunk_boundaries, inter_slab_boundaries, split_range_across_slabs,
    GenericTerrainUpdate, SlabTerrainUpdate, WorldTerrainUpdate,
};
use world::range::WorldRange;
use world::slab::{SlabIndex, SlabLocation, SlabPosition};
use world::world::World;

const CHUNK_SIZE: i32 = 16;
const SLAB_SIZE: i32 = 32;

#[derive(Copy, Clone, Debug, PartialEq, Eq)]
enum DummyBlockType {
    Stone,
}

#[test]
fn discover_boundaries() {
    // same chunk
    assert_eq!(inter_chunk_boundaries(2, 4), Vec::<i32>::new());

    // across 1 chunk
    assert_eq!(inter_chunk_boundaries(2, CHUNK_SIZE + 2), vec![CHUNK_SIZE]);

    // across 3 chunks
    assert_eq!(
        inter_chunk_boundaries(-2, (CHUNK_SIZE * 2) + 2),
        vec![0, CHUNK_SIZE, CHUNK_SIZE * 2,]
    );

    // exactly on the chunk boundary still yields it - not this functions responsibility
    assert_eq!(inter_chunk_boundaries(0, CHUNK_SIZE - 1), vec![0]);
}

#[test]
fn boundaries_of_slabs() {
    assert_eq!(inter_slab_boundaries(-40, 70), vec![-32, 0, 32, 64]);
    assert_eq!(find_boundaries(1, 100, 32), vec![32, 64, 96]);
}

fn range(from: (i32, i32, i32), to: (i32, i32, i32)) -> WorldRange<WorldPosition> {
    WorldRange::Range(WorldPosition::from(from), WorldPosition::from(to))
}

#[test]
fn within_chunk() {
    let update = WorldTerrainUpdate::new(range((1, 1, 1), (3, 3, 3)), DummyBlockType::Stone);
    assert_eq!(update.into_slab_updates().len(), 1);
}

fn slab_update(
    chunk: (i32, i32),
    slab: SlabIndex,
    from: (i32, i32, i32),
    to: (i32, i32, i32),
) -> (ChunkPosition, SlabIndex, SlabTerrainUpdate<DummyBlockType>) {
    let from = SlabPosition(from.0 as u8, from.1 as u8, from.2);
    let to = SlabPosition(to.0 as u8, to.1 as u8, to.2);
    (
        chunk.into(),
        slab,
        GenericTerrainUpdate(WorldRange::Range(from, to), DummyBlockType::Stone),
    )
}

fn world_update(
    from: (i32, i32, i32),
    to: (i32, i32, i32),
) -> Vec<(ChunkPosition, SlabIndex, SlabTerrainUpdate<DummyBlockType>)> {
    let mut v: Vec<_> = WorldTerrainUpdate::new(range(from, to), DummyBlockType::Stone)
        .into_slab_updates()
        .into_iter()
        .map(|(loc, update)| (loc.chunk, loc.slab, update))
        .collect();
    v.sort_by(|(ac, as_, _), (bc, bs, _)| ac.cmp(bc).then_with(|| as_.cmp(bs)));
    v
}

#[test]
fn across_single_chunk_single_axis() {
    let updates = world_update((-1, 3, 0), (1, 4, 0));
    assert_eq!(
        updates,
        vec![
            slab_update(
                (-1, 0),
                0,
                (CHUNK_SIZE - 1, 3, 0),
                (CHUNK_SIZE - 1, 4, 0)
            ),
            slab_update((0, 0), 0, (0, 3, 0), (1, 4, 0))
        ]
    );
}

#[test]
fn across_multiple_chunks_single_axis() {
    let updates = world_update((-1, 3, 0), (CHUNK_SIZE + 4, 5, 0));
    assert_eq!(
        updates,
        vec![
            slab_update(
                (-1, 0),
                0,
                (CHUNK_SIZE - 1, 3, 0),
                (CHUNK_SIZE - 1, 5, 0)
            ),
            slab_update((0, 0), 0, (0, 3, 0), (CHUNK_SIZE - 1, 5, 0)),
            slab_update((1, 0), 0, (0, 3, 0), (4, 5, 0)),
        ]
    );
}

#[test]
fn across_multiple_axes() {
    let updates = world_update((-2, -2, -2), (1, 1, 1));
    assert_eq!(
        updates,
        vec![
            slab_update(
                (-1, -1),
                -1,
                (CHUNK_SIZE - 2, CHUNK_SIZE - 2, SLAB_SIZE - 2),
                (CHUNK_SIZE - 1, CHUNK_SIZE - 1, SLAB_SIZE - 1),
            ),
            slab_update(
                (-1, -1),
                0,
                (CHUNK_SIZE - 2, CHUNK_SIZE - 2, 0),
                (CHUNK_SIZE - 1, CHUNK_SIZE - 1, 1),
            ),
            slab_update(
                (-1, 0),
                -1,
                (CHUNK_SIZE - 2, 0, SLAB_SIZE - 2),
                (CHUNK_SIZE - 1, 1, SLAB_SIZE - 1),
            ),
            slab_update(
                (-1, 0),
                0,
                (CHUNK_SIZE - 2, 0, 0),
                (CHUNK_SIZE - 1, 1, 1),
            ),
            slab_update(
                (0, -1),
                -1,
                (0, CHUNK_SIZE - 2, SLAB_SIZE - 2),
                (1, CHUNK_SIZE - 1, SLAB_SIZE - 1)
            ),
            slab_update(
                (0, -1),
                0,
                (0, CHUNK_SIZE - 2, 0),
                (1, CHUNK_SIZE - 1, 1)
            ),
            slab_update(
                (0, 0),
                -1,
                (0, 0, SLAB_SIZE - 2),
                (1, 1, SLAB_SIZE - 1)
            ),
            slab_update((0, 0), 0, (0, 0, 0), (1, 1, 1)),
        ]
    );
}

#[test]
fn single_block_update() {
    let update = WorldTerrainUpdate::new(
        WorldRange::Single(WorldPosition(-1, 17, 33)),
        DummyBlockType::Stone,
    );
    assert_eq!(update.inner().1, DummyBlockType::Stone);
    let v = update.into_slab_updates();
    assert_eq!(v.len(), 1);
    assert_eq!(v[0].0.chunk, ChunkPosition(-1, 1));
    assert_eq!(v[0].0.slab, 1);
    assert_eq!(
        v[0].1,
        GenericTerrainUpdate(WorldRange::Single(SlabPosition(15, 1, 1)), DummyBlockType::Stone)
    );
}

#[test]
fn split_counts_every_block_once() {
    let r = range((-20, 5, -40), (20, 40, 40));
    let parts = split_range_across_slabs(r, DummyBlockType::Stone);
    // 4 chunks in x, 3 in y, 4 slabs in z
    assert_eq!(parts.len(), 48);
    let mut total = 0i64;
    for (_, GenericTerrainUpdate(r, _)) in &parts {
        if let WorldRange::Range(a, b) = r {
            total += ((b.0 - a.0) as i64 + 1) * ((b.1 - a.1) as i64 + 1) * ((b.2 - a.2) as i64 + 1);
        }
    }
    assert_eq!(total, 41 * 36 * 81);
}

fn world_with_loading_chunk() -> World {
    let mut world = World::empty();
    world.ensure_chunk(ChunkPosition(0, 0));
    let chunk = world.find_chunk_with_pos_mut(ChunkPosition(0, 0)).unwrap();
    chunk.mark_slabs_requested(&[0, 1]);
    chunk.mark_slab_as_in_world(0);
    chunk.mark_slab_as_done_in_isolation(0);
    chunk.mark_slab_as_done(0);
    world
}

#[test]
fn classify_terrain_updates_by_slab() {
    let world = world_with_loading_chunk();
    let slabs = [
        SlabLocation::new(0, ChunkPosition(0, 0)),
        SlabLocation::new(1, ChunkPosition(0, 0)),
        SlabLocation::new(2, ChunkPosition(0, 0)),
        SlabLocation::new(0, ChunkPosition(3, 3)),
    ];
    assert_eq!(
        classify_slab_updates(&world, &slabs),
        vec![
            UpdateApplication::Apply,
            UpdateApplication::Defer,
            UpdateApplication::Defer,
            UpdateApplication::Drop,
        ]
    );
}

#[test]
fn plan_terrain_updates_applies_defers_and_drops() {
    let world = world_with_loading_chunk();
    let single = |x, y, z| {
        WorldTerrainUpdate::new(WorldRange::Single(WorldPosition(x, y, z)), DummyBlockType::Stone)
    };
    let updates = [
        single(1, 1, 1),    // slab 0, loaded: applied
        single(1, 1, 40),   // slab 1, loading: deferred
        single(100, 100, 0), // chunk not loaded: dropped
        single(2, 2, 2),    // slab 0 again
        WorldTerrainUpdate::new(
            WorldRange::Range(WorldPosition(0, 0, 30), WorldPosition(0, 0, 33)),
            DummyBlockType::Stone,
        ), // half in slab 0, half in slab 1
    ];
    let (groups, taken) = plan_terrain_updates(&world, &updates);
    assert_eq!(taken, vec![0, 2, 3, 4]);
    assert_eq!(groups.len(), 1);
    let (slab, slab_updates) = &groups[0];
    assert_eq!(*slab, SlabLocation::new(0, ChunkPosition(0, 0)));
    assert_eq!(slab_updates.len(), 3);
    assert_eq!(
        slab_updates[0],
        GenericTerrainUpdate(WorldRange::Single(SlabPosition(1, 1, 1)), DummyBlockType::Stone)
    );
    assert_eq!(
        slab_updates[1],
        GenericTerrainUpdate(WorldRange::Single(SlabPosition(2, 2, 2)), DummyBlockType::Stone)
    );
    assert_eq!(
        slab_updates[2],
        GenericTerrainUpdate(
            WorldRange::Range(SlabPosition(0, 0, 30), SlabPosition(0, 0, 31)),
            DummyBlockType::Stone
        )
    );
}

#[test]
fn plan_terrain_updates_sorts_slabs() {
    let mut world = World::empty();
    for (x, y) in [(0, 0), (0, 1), (1, 0)] {
        world.ensure_chunk(ChunkPosition(x, y));
        let chunk = world.find_chunk_with_pos_mut(ChunkPosition(x, y)).unwrap();
        chunk.mark_slabs_requested(&[0, 1]);
        for s in [0, 1] {
            chunk.mark_slab_as_in_world(s);
            chunk.mark_slab_as_done_in_isolation(s);
            chunk.mark_slab_as_done(s);
        }
    }
    let updates = [
        WorldTerrainUpdate::new(WorldRange::Single(WorldPosition(17, 0, 40)), DummyBlockType::Stone),
        WorldTerrainUpdate::new(WorldRange::Single(WorldPosition(0, 17, 0)), DummyBlockType::Stone),
        WorldTerrainUpdate::new(WorldRange::Single(WorldPosition(0, 0, 33)), DummyBlockType::Stone),
        WorldTerrainUpdate::new(WorldRange::Single(WorldPosition(0, 0, 3)), DummyBlockType::Stone),
    ];
    let (groups, taken) = plan_terrain_updates(&world, &updates);
    assert_eq!(taken, vec![0, 1, 2, 3]);
    let slabs: Vec<SlabLocation> = groups.iter().map(|(s, _)| *s).collect();
    assert_eq!(
        slabs,
        vec![
            SlabLocation::new(0, ChunkPosition(0, 0)),
            SlabLocation::new(1, ChunkPosition(0, 0)),
            SlabLocation::new(0, ChunkPosition(0, 1)),
            SlabLocation::new(1, ChunkPosition(1, 0)),
        ]
    );
}
