use world::chunk::slab::{AreaInfo, SliceNavArea};
use world::chunk::slice_navmesh::SliceAreaIndex;
use world::coordinate::world::ChunkPosition;
use world::chunk::vertical_space::SlabVerticalSpace;
use world::loader::loading::{above_border_area, faces_needing_neighbours, init_internal_occlusion, UpdateNeighbour};
use world::occlusion::{BlockOpacity, OcclusionFace};
use world::navigationv2::world_graph::WorldGraph;
use world::navigationv2::{ChunkArea, NeighbourOffset, SlabArea, SlabNavEdge, WorldArea};
use world::slab::{SlabLocation, SlabPosition};

#[test]
fn neighbour_slabs() {
    let this = SlabLocation::new(3, ChunkPosition(-2, 5));
    assert_eq!(
        UpdateNeighbour::North.neighbour_slab(this),
        SlabLocation::new(3, ChunkPosition(-2, 6))
    );
    assert_eq!(
        UpdateNeighbour::West.neighbour_slab(this),
        SlabLocation::new(3, ChunkPosition(-3, 5))
    );
    assert_eq!(
        UpdateNeighbour::Above.neighbour_slab(this),
        SlabLocation::new(4, ChunkPosition(-2, 5))
    );
    assert_eq!(UpdateNeighbour::Above.direction(), None);
    assert_eq!(
        UpdateNeighbour::South.direction(),
        Some(NeighbourOffset::South)
    );
}

#[test]
fn border_areas_of_this_slab() {
    let areas = vec![
        SliceNavArea {
            slice: 2,
            from: (0, 0),
            to: (3, 15),
            height: 2,
        },
        SliceNavArea {
            slice: 30,
            from: (5, 5),
            to: (6, 6),
            height: 4,
        },
    ];
    assert_eq!(
        UpdateNeighbour::North.this_border_areas(&areas),
        vec![(areas[0], SliceAreaIndex(0))]
    );
    assert_eq!(
        UpdateNeighbour::Above.this_border_areas(&areas),
        vec![(areas[1], SliceAreaIndex(0))]
    );
    assert!(UpdateNeighbour::East.this_border_areas(&areas).is_empty());
}

#[test]
fn areas_of_the_slab_above() {
    let info = AreaInfo {
        height: 3,
        range: ((1, 2), (3, 4)),
    };
    let low = ChunkArea {
        slab_idx: 1,
        slab_area: SlabArea {
            slice_idx: 8,
            slice_area: SliceAreaIndex(2),
        },
    };
    assert_eq!(
        above_border_area(low, &info),
        Some((
            SliceNavArea {
                slice: 8,
                from: (1, 2),
                to: (3, 4),
                height: 3,
            },
            SliceAreaIndex(2)
        ))
    );
    let high = ChunkArea {
        slab_idx: 1,
        slab_area: SlabArea {
            slice_idx: 9,
            slice_area: SliceAreaIndex(0),
        },
    };
    assert_eq!(above_border_area(high, &info), None);
}

#[test]
fn link_replaces_edges_to_neighbour() {
    let this_slab = SlabLocation::new(0, ChunkPosition(0, 0));
    let east_slab = SlabLocation::new(0, ChunkPosition(1, 0));
    let this_areas = [
        SliceNavArea {
            slice: 1,
            from: (0, 0),
            to: (3, 3),
            height: 2,
        },
        SliceNavArea {
            slice: 2,
            from: (5, 5),
            to: (15, 8),
            height: 5,
        },
    ];
    let touching = [(
        ChunkArea {
            slab_idx: 0,
            slab_area: SlabArea {
                slice_idx: 4,
                slice_area: SliceAreaIndex(0),
            },
        },
        AreaInfo {
            height: 8,
            range: ((0, 3), (2, 8)),
        },
    )];
    let mut g = WorldGraph::new();
    assert!(UpdateNeighbour::East.link(&mut g, this_slab, &this_areas, &touching));
    assert_eq!(
        g.iter_inter_slab_edges(),
        vec![(
            WorldArea::from((
                this_slab,
                SlabArea {
                    slice_idx: 2,
                    slice_area: SliceAreaIndex(0)
                }
            )),
            WorldArea::from((
                east_slab,
                SlabArea {
                    slice_idx: 4,
                    slice_area: SliceAreaIndex(0)
                }
            )),
            SlabNavEdge::new(3, 2).unwrap(),
        )]
    );

    // the neighbour changed: the old edge goes
    let not_touching = [(
        touching[0].0,
        AreaInfo {
            height: 8,
            range: ((0, 0), (2, 3)),
        },
    )];
    assert!(UpdateNeighbour::East.link(&mut g, this_slab, &this_areas, &not_touching));
    assert!(g.iter_inter_slab_edges().is_empty());

    // nothing of this slab reaches the slab above
    assert!(UpdateNeighbour::Above.link(&mut g, this_slab, &this_areas, &touching));
    assert!(g.iter_inter_slab_edges().is_empty());
}

#[test]
fn faces_needing_neighbours_of_a_floor() {
    // a solid bottom slice under air
    let air: Vec<bool> = (0..8192).map(|i| i >= 256).collect();
    let vs = SlabVerticalSpace::discover(&air);
    let needs = faces_needing_neighbours(&vs);
    assert_eq!(needs.len(), 512);
    // the floor under each column's air, with the faces at the chunk's edges and the top
    assert_eq!(needs[0], (SlabPosition(0, 0, 0), [true, true, true, true], true));
    assert_eq!(needs[5], (SlabPosition(5, 0, 0), [false, true, true, true], true));
    assert_eq!(needs[85], (SlabPosition(5, 5, 0), [false, false, false, false], true));
    assert_eq!(needs[255], (SlabPosition(15, 15, 0), [true, true, true, true], true));
    // then the solid bottom of every column, with its side faces only
    assert_eq!(needs[256], (SlabPosition(0, 0, 0), [true, true, true, true], false));
    assert_eq!(needs[511], (SlabPosition(15, 15, 0), [true, true, true, true], false));
}

#[test]
fn relink_only_when_border_changes() {
    let area = |slice, from, to| SliceNavArea { slice, from, to, height: 3 };
    let areas = [area(0, (0, 10), (4, 15)), area(0, (5, 0), (6, 3)), area(2, (0, 0), (15, 15))];
    // both areas touching the north border
    let north = [area(0, (0, 10), (4, 15)), area(2, (0, 0), (15, 15))];
    assert!(!UpdateNeighbour::North.border_changed(&areas, &north));
    // last linked with fewer areas, or with one that differs
    assert!(UpdateNeighbour::North.border_changed(&areas, &north[..1]));
    let moved = [area(0, (0, 11), (4, 15)), area(2, (0, 0), (15, 15))];
    assert!(UpdateNeighbour::North.border_changed(&areas, &moved));
    // the east border has only the full area
    assert!(!UpdateNeighbour::East.border_changed(&areas, &[area(2, (0, 0), (15, 15))]));
}

#[test]
fn internal_occlusion_of_a_floor_with_a_pillar() {
    // a solid bottom slice with one more solid block on it at (5, 5, 1)
    let solid: Vec<bool> = (0..8192).map(|i| i < 256 || i == 256 + 5 * 16 + 5).collect();
    let air: Vec<bool> = solid.iter().map(|s| !s).collect();
    let vs = SlabVerticalSpace::discover(&air);
    let grid = init_internal_occlusion(&solid, &vs);
    assert_eq!(grid.len(), 256);

    let at = |p: SlabPosition| grid.iter().find(|(q, _)| *q == p).expect("block has occlusion").1;

    // beside the pillar: the pillar is its top face's eastern neighbour, and the block in
    // front of its east face is solid floor
    let beside = at(SlabPosition(4, 5, 0));
    let top = beside.get_face(OcclusionFace::Top).0;
    assert_eq!(top[2], BlockOpacity::Solid);
    assert_eq!(top.iter().filter(|o| **o == BlockOpacity::Solid).count(), 1);
    assert!(beside.get_face(OcclusionFace::East).0.iter().all(|o| *o == BlockOpacity::Solid));

    // the pillar: nothing above it; its north face sees the floor in the slice below
    let pillar = at(SlabPosition(5, 5, 1));
    assert!(pillar.get_face(OcclusionFace::Top).0.iter().all(|o| *o == BlockOpacity::Transparent));
    let north = pillar.get_face(OcclusionFace::North).0;
    assert_eq!(
        north,
        [
            BlockOpacity::Solid,
            BlockOpacity::Solid,
            BlockOpacity::Transparent,
            BlockOpacity::Transparent,
            BlockOpacity::Transparent,
            BlockOpacity::Transparent,
            BlockOpacity::Transparent,
            BlockOpacity::Solid,
        ]
    );
    // the floor under the pillar is not a block under air
    assert!(grid.iter().all(|(p, _)| *p != SlabPosition(5, 5, 0)));
}
