use world::coordinate::world::SliceIndex;
use world::viewer::SliceRange;
use world::world_ref::Timer;

#[test]
fn slice_range() {
    assert!(SliceRange::from_bounds(SliceIndex(5), SliceIndex(5)).is_none());
    let r = SliceRange::from_bounds(SliceIndex(-3), SliceIndex(40)).unwrap();
    assert!(r.contains(SliceIndex(-3)) && r.contains(SliceIndex(40)));
    assert!(!r.contains(SliceIndex(41)));
    assert!(r.intersects((SliceIndex(40), SliceIndex(100))));
    assert!(!r.intersects((SliceIndex(41), SliceIndex(100))));
    assert_eq!(r.size(), 43);
    assert_eq!(r.slabs(), vec![-1, 0, 1]);
    assert_eq!(r + 2, SliceRange(SliceIndex(-1), SliceIndex(42)));
    assert_eq!(r.shifted(2), r + 2);
    assert_eq!(r.bottom(), SliceIndex(-3));
    assert_eq!(r.top(), SliceIndex(40));
    assert_eq!(r.as_range(), -3..=40);
    assert_eq!(SliceRange::new(SliceIndex(10), 4), SliceRange(SliceIndex(6), SliceIndex(10)));
    let (a, b): (SliceIndex, SliceIndex) = r.into();
    assert_eq!((a, b), (SliceIndex(-3), SliceIndex(40)));
    let _t = Timer::wait("scope");
    let _h = Timer::hold("scope");
}

use world::coordinate::world::{ChunkPosition, WorldPosition};
use world::slab::{all_slabs_in_range, SlabLocation};
use world::viewer::{WorldViewer, WorldViewerError};

fn loc(slab: i32, x: i32, y: i32) -> SlabLocation {
    SlabLocation::new(slab, ChunkPosition(x, y))
}

fn bounds(from: i32, to: i32) -> SliceRange {
    SliceRange::from_bounds(SliceIndex(from), SliceIndex(to)).unwrap()
}

#[test]
fn all_slabs_in_range_by_chunk_then_slab() {
    let (slabs, count) = all_slabs_in_range(loc(-1, 0, 0), loc(0, 1, 1));
    assert_eq!(count, 8);
    assert_eq!(
        slabs,
        vec![
            loc(-1, 0, 0),
            loc(0, 0, 0),
            loc(-1, 0, 1),
            loc(0, 0, 1),
            loc(-1, 1, 0),
            loc(0, 1, 0),
            loc(-1, 1, 1),
            loc(0, 1, 1),
        ]
    );
    let (none, count) = all_slabs_in_range(loc(1, 0, 0), loc(0, 0, 0));
    assert!(none.is_empty());
    assert_eq!(count, 0);
}

#[test]
fn slice_range_all() {
    let all = SliceRange::all();
    assert_eq!(all.bottom(), SliceIndex(i32::MIN));
    assert_eq!(all.top(), SliceIndex(i32::MAX));
}

#[test]
fn viewer_starts_centred_within_world() {
    let v = WorldViewer::with_world(bounds(-100, 100), WorldPosition(5, -3, 10), 20).unwrap();
    assert_eq!(v.terrain_range(), bounds(0, 20));
    assert_eq!(v.entity_range(), bounds(1, 21));
    assert_eq!(v.chunk_range(), (ChunkPosition(0, -1), ChunkPosition(0, -1)));

    // cut to the world's slices
    let v = WorldViewer::with_world(bounds(5, 100), WorldPosition(0, 0, 10), 20).unwrap();
    assert_eq!(v.terrain_range(), bounds(5, 20));

    // nothing of the world in view
    let err = WorldViewer::with_world(bounds(50, 100), WorldPosition(0, 0, 0), 10);
    assert_eq!(err.err(), Some(WorldViewerError::InvalidRange(bounds(50, 100))));
}

#[test]
fn viewer_moves_and_requests_slabs() {
    let mut v = WorldViewer::with_world(bounds(-100, 100), WorldPosition(0, 0, 10), 20).unwrap();
    assert!(v.requested_slabs(vec![]).is_empty());

    v.move_by(30);
    assert_eq!(v.terrain_range(), bounds(30, 50));
    assert_eq!(v.requested_slabs(vec![]), vec![loc(0, 0, 0), loc(1, 0, 0)]);

    // moving back and forth asks again, but nothing is handed out twice
    v.move_by(-30);
    assert_eq!(v.terrain_range(), bounds(0, 20));
    v.move_by_multiple(1);
    assert_eq!(v.terrain_range(), bounds(20, 40));
    let handed = v.requested_slabs(vec![loc(5, 0, 0), loc(-2, 0, 0), loc(5, 0, 0)]);
    assert_eq!(handed, vec![loc(-2, 0, 0), loc(5, 0, 0)]);

    // stretching keeps the bottom, and is refused when nothing would be left
    v.stretch_by(-15);
    assert_eq!(v.terrain_range(), bounds(20, 25));
    v.stretch_by(-5);
    assert_eq!(v.terrain_range(), bounds(20, 25));
}

#[test]
fn viewer_requests_consumed_and_filtered() {
    let mut v = WorldViewer::with_world(bounds(-100, 100), WorldPosition(0, 0, 10), 20).unwrap();
    v.set_chunk_bounds((ChunkPosition(0, 0), ChunkPosition(1, 0)));
    let handed = v.requested_slabs(vec![]);
    assert_eq!(handed, vec![loc(0, 0, 0), loc(0, 1, 0)]);
    assert_eq!(v.pending_requests(), &[loc(0, 0, 0), loc(0, 1, 0)][..]);
    v.filter_requested(|s| s.chunk.0 == 1);
    assert_eq!(v.pending_requests(), &[loc(0, 1, 0)][..]);
    // handed out already, so not handed out again
    assert!(v.requested_slabs(vec![loc(0, 1, 0)]).is_empty());
    v.consume_requested(0);
    v.set_chunk_bounds((ChunkPosition(0, 0), ChunkPosition(2, 0)));
    assert_eq!(v.requested_slabs(vec![]), vec![loc(0, 2, 0)]);
    v.consume_requested(1);
    assert!(v.pending_requests().is_empty());

    // the same bounds again request nothing
    v.set_chunk_bounds((ChunkPosition(0, 0), ChunkPosition(2, 0)));
    assert!(v.pending_requests().is_empty());
}

#[test]
fn viewer_visible_chunks_and_slabs() {
    let mut v = WorldViewer::with_world(bounds(-100, 100), WorldPosition(0, 0, 10), 20).unwrap();
    v.set_chunk_bounds((ChunkPosition(0, 0), ChunkPosition(1, 0)));
    assert_eq!(
        v.visible_chunks(),
        vec![
            ChunkPosition(-1, -1),
            ChunkPosition(-1, 0),
            ChunkPosition(0, -1),
            ChunkPosition(0, 0),
            ChunkPosition(1, -1),
            ChunkPosition(1, 0),
        ]
    );
    assert_eq!(v.visible_slabs(bounds(-5, 40)), vec![loc(-1, 0, 0), loc(0, 0, 0), loc(1, 0, 0), loc(-1, 1, 0), loc(0, 1, 0), loc(1, 1, 0)]);
}

#[test]
fn viewer_dirty_chunks() {
    let mut v = WorldViewer::with_world(bounds(-100, 100), WorldPosition(0, 0, 10), 20).unwrap();
    v.set_chunk_bounds((ChunkPosition(0, 0), ChunkPosition(1, 0)));
    let range = v.terrain_range();
    assert_eq!(v.dirty_chunks_in_view(range), vec![ChunkPosition(0, 0), ChunkPosition(1, 0)]);
    v.mark_view_clean(range);
    assert!(v.dirty_chunks_in_view(range).is_empty());
    v.mark_dirty(loc(0, 1, 0));
    assert_eq!(v.dirty_chunks_in_view(range), vec![ChunkPosition(1, 0)]);
    v.mark_view_clean(range);
    // moving makes every mesh out of date
    v.move_by(1);
    assert_eq!(v.dirty_chunks_in_view(v.terrain_range()), vec![ChunkPosition(0, 0), ChunkPosition(1, 0)]);
}
