use world::chunk::chunk::{Chunk, SlabLoadingStatus, SlabThingOrWait};
use world::chunk::slab::{AreaInfo, SliceNavArea};
use world::chunk::slice_navmesh::SliceAreaIndex;
use world::coordinate::world::ChunkPosition;
use world::navigationv2::{ChunkArea, SlabArea};

fn nav_area(slice: u8, from: (u8, u8), to: (u8, u8), height: u8) -> SliceNavArea {
    SliceNavArea {
        slice,
        from,
        to,
        height,
    }
}

fn slab_area(slice: u8, area: u8) -> SlabArea {
    SlabArea {
        slice_idx: slice,
        slice_area: SliceAreaIndex(area),
    }
}

#[test]
fn chunk_id_and_pos() {
    let c = Chunk::empty(ChunkPosition(3, 7));
    assert_eq!(c.pos(), ChunkPosition(3, 7));
    assert_eq!(c.id(), (3u64 << 32) | 7);
    assert!(c.iter_areas_with_info().is_empty());
}

#[test]
fn replace_areas_allocates_per_slice() {
    let mut c = Chunk::empty(ChunkPosition(0, 0));
    c.replace_all_slice_areas(
        2,
        &[
            nav_area(1, (0, 0), (3, 3), 2),
            nav_area(1, (5, 5), (6, 6), 4),
            nav_area(4, (0, 0), (15, 15), 1),
        ],
    );
    c.replace_all_slice_areas(3, &[nav_area(0, (1, 1), (1, 1), 3)]);

    assert_eq!(
        c.area_info(2, slab_area(1, 0)),
        Some(AreaInfo {
            height: 2,
            range: ((0, 0), (3, 3))
        })
    );
    assert_eq!(
        c.area_info(2, slab_area(1, 1)),
        Some(AreaInfo {
            height: 4,
            range: ((5, 5), (6, 6))
        })
    );
    assert_eq!(
        c.area_info(2, slab_area(4, 0)),
        Some(AreaInfo {
            height: 1,
            range: ((0, 0), (15, 15))
        })
    );
    assert_eq!(c.area_info(2, slab_area(1, 2)), None);
    assert_eq!(c.iter_areas_with_info().len(), 4);

    // replacing one slab leaves the other alone
    c.replace_all_slice_areas(2, &[nav_area(7, (2, 2), (3, 3), 1)]);
    assert_eq!(c.area_info(2, slab_area(1, 0)), None);
    assert_eq!(
        c.area_info(2, slab_area(7, 0)),
        Some(AreaInfo {
            height: 1,
            range: ((2, 2), (3, 3))
        })
    );
    assert_eq!(
        c.area_info(3, slab_area(0, 0)),
        Some(AreaInfo {
            height: 3,
            range: ((1, 1), (1, 1))
        })
    );
    let mut all = c.iter_areas_with_info();
    all.sort_by_key(|(a, _)| (a.slab_idx, a.slab_area.slice_idx));
    assert_eq!(
        all.iter().map(|(a, _)| *a).collect::<Vec<_>>(),
        vec![
            ChunkArea {
                slab_idx: 2,
                slab_area: slab_area(7, 0)
            },
            ChunkArea {
                slab_idx: 3,
                slab_area: slab_area(0, 0)
            },
        ]
    );
}

#[test]
fn slab_loading_progress() {
    let mut c = Chunk::empty(ChunkPosition(0, 0));
    assert!(c.should_slab_be_loaded(0));
    assert!(matches!(c.get_slab_areas_or_wait(0), SlabThingOrWait::Failure));

    c.mark_slabs_requested(&[0, 1, 2]);
    assert!(!c.should_slab_be_loaded(1));
    assert!(c.should_slab_be_loaded(3));
    assert!(matches!(c.get_slab_areas_or_wait(1), SlabThingOrWait::Wait));

    c.mark_slab_as_in_world(0);
    assert!(matches!(c.get_slab_areas_or_wait(0), SlabThingOrWait::Wait));
    c.replace_all_slice_areas(0, &[nav_area(3, (0, 0), (1, 1), 2)]);
    c.mark_slab_as_done_in_isolation(0);
    match c.get_slab_areas_or_wait(0) {
        SlabThingOrWait::Ready(areas) => assert_eq!(areas.len(), 1),
        _ => panic!("slab 0 should be ready"),
    }
    assert!(!c.is_slab_loaded(0));
    c.mark_slab_as_done(0);
    assert!(c.is_slab_loaded(0));
    c.mark_slab_as_updating(2);

    let mut loading = c.iter_loading_slabs();
    loading.sort_by_key(|(s, _)| *s);
    assert_eq!(
        loading,
        vec![
            (1, SlabLoadingStatus::Requested),
            (2, SlabLoadingStatus::Updating)
        ]
    );
    let mut all = c.iter_slabs();
    all.sort_by_key(|(s, _)| *s);
    assert_eq!(
        all,
        vec![
            (0, SlabLoadingStatus::Done),
            (1, SlabLoadingStatus::Requested),
            (2, SlabLoadingStatus::Updating)
        ]
    );
    c.mark_slab_requested(5);
    assert!(!c.should_slab_be_loaded(5));
    assert_eq!(c.slab_load_status(5), SlabLoadingStatus::Requested);
    assert_eq!(c.slab_load_status(9), SlabLoadingStatus::Unloaded);
}
