use world::chunk::slab::{discover_bottom_slice_areas, discover_navmesh, AreaInfo, SliceNavArea};
use world::chunk::vertical_space::{SlabVerticalSpace, SLAB_BLOCKS};
use world::chunk::slice_navmesh::SliceAreaIndex;
use world::coordinate::world::{BlockCoord, ChunkPosition, SliceBlock, WorldPosition};
use world::navigationv2::{ChunkArea, NeighbourOffset, SlabArea, WorldArea};

/// A slab of air with the given blocks solid, slice by slice from the bottom.
fn slab_with_solids(solids: &[(usize, usize, usize)]) -> SlabVerticalSpace {
    let mut air = vec![true; SLAB_BLOCKS];
    for &(x, y, z) in solids {
        air[z * 256 + y * 16 + x] = false;
    }
    SlabVerticalSpace::discover(&air)
}

fn floor_at(z: usize) -> Vec<(usize, usize, usize)> {
    let mut solids = vec![];
    for y in 0..16 {
        for x in 0..16 {
            solids.push((x, y, z));
        }
    }
    solids
}

fn block_count(areas: &[SliceNavArea]) -> usize {
    areas
        .iter()
        .map(|a| (a.to.0 - a.from.0 + 1) as usize * (a.to.1 - a.from.1 + 1) as usize)
        .sum()
}

#[test]
fn open_slab_has_no_areas_above_its_bottom() {
    let vs = slab_with_solids(&[]);
    let mut out = vec![];
    discover_navmesh(&vs, None, &mut out);
    assert!(out.is_empty());
}

#[test]
fn floor_makes_one_area() {
    let vs = slab_with_solids(&floor_at(0));
    let mut out = vec![];
    discover_navmesh(&vs, None, &mut out);
    assert_eq!(
        out,
        vec![SliceNavArea {
            slice: 1,
            from: (0, 0),
            to: (15, 15),
            height: 4,
        }]
    );
}

#[test]
fn step_on_floor() {
    let mut solids = floor_at(0);
    solids.push((5, 5, 1));
    let vs = slab_with_solids(&solids);
    let mut out = vec![(SliceNavArea {
        slice: 0,
        from: (0, 0),
        to: (0, 0),
        height: 1,
    })];
    discover_navmesh(&vs, None, &mut out);

    // what was there before stays first
    assert_eq!(out[0].slice, 0);
    let slice1: Vec<SliceNavArea> = out[1..].iter().copied().filter(|a| a.slice == 1).collect();
    let slice2: Vec<SliceNavArea> = out[1..].iter().copied().filter(|a| a.slice == 2).collect();
    assert_eq!(slice1.len() + slice2.len(), out.len() - 1);
    assert_eq!(block_count(&slice1), 255);
    assert!(slice1.iter().all(|a| a.height == 4));
    assert!(slice1
        .iter()
        .all(|a| !(a.from.0 <= 5 && 5 <= a.to.0 && a.from.1 <= 5 && 5 <= a.to.1)));
    assert_eq!(
        slice2,
        vec![SliceNavArea {
            slice: 2,
            from: (5, 5),
            to: (5, 5),
            height: 4,
        }]
    );
    // the slices come in order
    assert!(out[1..].windows(2).all(|w| w[0].slice <= w[1].slice));
}

#[test]
fn top_areas_extend_into_slab_above() {
    // space of 3 at the top of the slab
    let vs = slab_with_solids(&floor_at(28));

    let mut alone = vec![];
    discover_navmesh(&vs, None, &mut alone);
    assert_eq!(alone.len(), 1);
    assert_eq!(alone[0].slice, 29);
    assert_eq!(alone[0].height, 3);

    let open_above = slab_with_solids(&[]);
    let mut extended = vec![];
    discover_navmesh(&vs, Some(&open_above), &mut extended);
    assert_eq!(extended.len(), 1);
    assert_eq!(extended[0].height, 4);

    let solid_above = slab_with_solids(&floor_at(0));
    let mut capped = vec![];
    discover_navmesh(&vs, Some(&solid_above), &mut capped);
    assert_eq!(capped.len(), 1);
    assert_eq!(capped[0].height, 3);
}

#[test]
fn bottom_slice_over_solid_top_below() {
    let this = slab_with_solids(&[]);
    let below = slab_with_solids(&floor_at(31));
    let mut out = vec![];
    discover_bottom_slice_areas(&this, &below, &mut out);
    assert_eq!(
        out,
        vec![SliceNavArea {
            slice: 0,
            from: (0, 0),
            to: (15, 15),
            height: 4,
        }]
    );

    // nothing to stand on
    let open_below = slab_with_solids(&[]);
    let mut none = vec![];
    discover_bottom_slice_areas(&this, &open_below, &mut none);
    assert!(none.is_empty());

    // a solid bottom block of this slab leaves no area there
    let this_with_block = slab_with_solids(&[(3, 4, 0)]);
    let mut holed = vec![];
    discover_bottom_slice_areas(&this_with_block, &below, &mut holed);
    assert_eq!(block_count(&holed), 255);
    assert!(holed.iter().all(|a| a.slice == 0 && a.height == 4));
}

#[test]
fn area_info() {
    let info = AreaInfo {
        height: 3,
        range: ((0, 2), (4, 15)),
    };
    assert!(info.contains(SliceBlock(BlockCoord(0), BlockCoord(2))));
    assert!(info.contains(SliceBlock(BlockCoord(4), BlockCoord(15))));
    assert!(!info.contains(SliceBlock(BlockCoord(5), BlockCoord(15))));
    assert!(!info.contains(SliceBlock(BlockCoord(0), BlockCoord(1))));
    assert_eq!(info.size(), (5, 14));
    assert_eq!(
        info.borders(),
        vec![NeighbourOffset::North, NeighbourOffset::West]
    );
}

#[test]
fn area_info_positions() {
    let info = AreaInfo {
        height: 2,
        range: ((1, 2), (6, 4)),
    };
    let area = WorldArea {
        chunk_idx: ChunkPosition(-1, 2),
        chunk_area: ChunkArea {
            slab_idx: -1,
            slab_area: SlabArea {
                slice_idx: 3,
                slice_area: SliceAreaIndex(0),
            },
        },
    };
    // slice -32 + 3, chunk (-1, 2) starts at world (-16, 32)
    assert_eq!(info.min_pos(area), WorldPosition(-15, 34, -29));
    assert_eq!(info.max_pos(area), WorldPosition(-10, 36, -29));
    assert_eq!(info.centre_pos(area), WorldPosition(-13, 35, -29));

    // the smaller side is 3 blocks
    assert!(info.fits_xy(2));
    assert!(!info.fits_xy(3));

    let nav = info.as_slice_nav_area(7);
    assert_eq!(
        nav,
        SliceNavArea {
            slice: 7,
            from: (1, 2),
            to: (6, 4),
            height: 2
        }
    );
}
