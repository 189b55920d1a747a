use world::coordinate::world::{BlockCoord, SliceBlock};
use world::navigationv2::NeighbourOffset;
use world::slab::SlabPosition;
use world::occlusion::{
    apply_occlusion_changes, combine_neighbour_opacity, neighbouring_slice_lookups, NeighbourLookup,
    BlockOcclusion, BlockOpacity, NeighbourOpacity, OcclusionFace, OcclusionFlip, VertexOcclusion,
};

#[test]
fn face_offsets() {
    assert_eq!(OcclusionFace::North.xy_delta(), (0, 1));
    assert_eq!(OcclusionFace::West.xy_delta(), (-1, 0));
    assert_eq!(OcclusionFace::Top.offset_i32(), (0, 0, 1));
    assert_eq!(OcclusionFace::South.offset_i32(), (0, -1, 0));
    for f in OcclusionFace::ordinals() {
        let (x, y) = f.xy_delta();
        let (ox, oy, _) = f.offset_i32();
        assert_eq!((x as i32, y as i32), (ox, oy));
    }
    assert_eq!(OcclusionFace::faces()[3], OcclusionFace::Top);
    assert_eq!(OcclusionFace::side_faces().len(), 4);
}

#[test]
fn extend_sideways() {
    let b = SliceBlock(BlockCoord(0), BlockCoord(15));
    assert_eq!(OcclusionFace::Top.extend_sideways(b), None);
    assert_eq!(OcclusionFace::North.extend_sideways(b), None);
    assert_eq!(OcclusionFace::West.extend_sideways(b), None);
    assert_eq!(
        OcclusionFace::East.extend_sideways(b),
        Some(SliceBlock(BlockCoord(1), BlockCoord(15)))
    );
    assert_eq!(
        OcclusionFace::South.extend_sideways(b),
        Some(SliceBlock(BlockCoord(0), BlockCoord(14)))
    );
}

#[test]
fn vertex_occlusion() {
    assert_eq!(VertexOcclusion::default(), VertexOcclusion::NotAtAll);
    assert_eq!(VertexOcclusion::Full + VertexOcclusion::NotAtAll, 3);
    assert_eq!(VertexOcclusion::Mildly + VertexOcclusion::Mostly, 3);
    assert!(VertexOcclusion::Full < VertexOcclusion::Mildly);
}

#[test]
fn visible_faces() {
    let mut o = BlockOcclusion::default();
    assert_eq!(o.visible_faces().len(), 5);
    o.set_face(OcclusionFace::East, NeighbourOpacity::all_solid());
    assert!(o.get_face(OcclusionFace::East).is_all_solid());
    assert!(o.get_face(OcclusionFace::Top).is_all_transparent());
    assert_eq!(
        o.visible_faces(),
        vec![OcclusionFace::Top, OcclusionFace::North, OcclusionFace::South, OcclusionFace::West]
    );
    let mut partly = NeighbourOpacity::all_transparent();
    partly.0[3] = BlockOpacity::Solid;
    assert!(!partly.is_all_solid() && !partly.is_all_transparent());
    assert!(BlockOpacity::Solid.solid() && BlockOpacity::Transparent.transparent());
}

#[test]
fn neighbour_offsets_go_round() {
    assert_eq!(NeighbourOffset::South.next(), NeighbourOffset::SouthEast);
    assert_eq!(NeighbourOffset::SouthWest.next(), NeighbourOffset::South);
    assert_eq!(NeighbourOffset::South.prev(), NeighbourOffset::SouthWest);
    assert_eq!(NeighbourOffset::NorthEast.prev(), NeighbourOffset::East);
    assert_eq!(NeighbourOffset::West.ordinal(), 6);
}

#[test]
fn resolve_top_vertices() {
    let mut occ = BlockOcclusion::all_transparent();
    let (v, flip) = occ.resolve_vertices(OcclusionFace::Top);
    assert_eq!(v, [VertexOcclusion::NotAtAll; 4]);
    assert_eq!(flip, OcclusionFlip::DontFlip);

    // a solid block to the south darkens the two southern corners a step
    let mut n = NeighbourOpacity::all_transparent();
    n.0[NeighbourOffset::South.ordinal()] = BlockOpacity::Solid;
    occ.set_face(OcclusionFace::Top, n);
    let (v, flip) = occ.resolve_vertices(OcclusionFace::Top);
    assert_eq!(
        v,
        [VertexOcclusion::Mildly, VertexOcclusion::NotAtAll, VertexOcclusion::NotAtAll, VertexOcclusion::Mildly]
    );
    assert_eq!(flip, OcclusionFlip::DontFlip);

    // solid to the south and east, and the corner between: the south-east corner is fully dark
    let face = occ.get_face_mut(OcclusionFace::Top);
    face.0[NeighbourOffset::East.ordinal()] = BlockOpacity::Solid;
    assert_eq!(occ.top_corner(0), VertexOcclusion::Full);
    assert_eq!(occ.top_corner(1), VertexOcclusion::Mildly);
    assert_eq!(occ.top_corner(2), VertexOcclusion::NotAtAll);
    assert_eq!(occ.top_corner(3), VertexOcclusion::Mildly);
    // the dark diagonal (0 + 3) is darker than the other (2 + 2), so the quad is flipped
    assert_eq!(occ.resolve_vertices(OcclusionFace::Top).1, OcclusionFlip::Flip);

    // a lone solid corner to the north-west darkens one vertex and flips the quad
    let mut n = NeighbourOpacity::all_transparent();
    n.0[NeighbourOffset::NorthWest.ordinal()] = BlockOpacity::Solid;
    occ.set_face(OcclusionFace::North, n);
    let (v, flip) = occ.resolve_vertices(OcclusionFace::North);
    assert_eq!(
        v,
        [VertexOcclusion::NotAtAll, VertexOcclusion::NotAtAll, VertexOcclusion::Mildly, VertexOcclusion::NotAtAll]
    );
    assert_eq!(flip, OcclusionFlip::Flip);
}

#[test]
fn iter_faces_in_order() {
    let mut occ = BlockOcclusion::all_transparent();
    occ.set_face(OcclusionFace::East, NeighbourOpacity::all_solid());
    let faces = occ.iter_faces();
    assert_eq!(faces.len(), 5);
    let order: Vec<OcclusionFace> = faces.iter().map(|(_, f)| *f).collect();
    assert_eq!(
        order,
        vec![OcclusionFace::Top, OcclusionFace::North, OcclusionFace::East, OcclusionFace::South, OcclusionFace::West]
    );
    assert!(faces[2].0.is_all_solid());
    assert!(faces[0].0.is_all_transparent());
}

fn lookup(dx: i32, dy: i32, dz: i32, x: u8, y: u8, z: i32) -> NeighbourLookup {
    NeighbourLookup {
        slab_dx: dx,
        slab_dy: dy,
        slab_dz: dz,
        pos: SlabPosition(x, y, z),
    }
}

#[test]
fn side_face_neighbours_cross_slabs() {
    // west face of a block at the west edge of the chunk, in the bottom slice
    let (front, ns) = neighbouring_slice_lookups(SlabPosition(0, 5, 0), OcclusionFace::West);
    assert_eq!(front, lookup(-1, 0, 0, 15, 5, 0));
    assert_eq!(
        ns,
        [
            lookup(-1, 0, -1, 15, 5, 31),
            lookup(-1, 0, -1, 15, 4, 31),
            lookup(-1, 0, 0, 15, 4, 0),
            lookup(-1, 0, 0, 15, 4, 1),
            lookup(-1, 0, 0, 15, 5, 1),
            lookup(-1, 0, 0, 15, 6, 1),
            lookup(-1, 0, 0, 15, 6, 0),
            lookup(-1, 0, -1, 15, 6, 31),
        ]
    );

    // north face at the north edge, in the middle of the slab
    let (front, ns) = neighbouring_slice_lookups(SlabPosition(3, 15, 10), OcclusionFace::North);
    assert_eq!(front, lookup(0, 1, 0, 3, 0, 10));
    assert_eq!(ns[2], lookup(0, 1, 0, 2, 0, 10));
    assert_eq!(ns[4], lookup(0, 1, 0, 3, 0, 11));
    assert_eq!(ns[6], lookup(0, 1, 0, 4, 0, 10));
}

#[test]
fn neighbour_opacity_combined() {
    let found = [None, Some(BlockOpacity::Transparent), None, None, None, None, None, Some(BlockOpacity::Solid)];
    assert_eq!(combine_neighbour_opacity(true, found), [Some(BlockOpacity::Solid); 8]);
    assert_eq!(combine_neighbour_opacity(false, found), found);
}

#[test]
fn occlusion_changes_written_back() {
    let a = SlabPosition(1, 2, 3);
    let b = SlabPosition(15, 0, 0);
    let mut grid = vec![(a, BlockOcclusion::default_const())];
    assert!(!apply_occlusion_changes(&mut grid, &[]));
    assert_eq!(grid.len(), 1);

    let changes = [
        (a, OcclusionFace::North, 2, BlockOpacity::Solid),
        (b, OcclusionFace::Top, 7, BlockOpacity::Solid),
        (a, OcclusionFace::North, 2, BlockOpacity::Transparent),
        (a, OcclusionFace::Top, 0, BlockOpacity::Solid),
    ];
    assert!(apply_occlusion_changes(&mut grid, &changes));
    assert_eq!(grid.len(), 2);
    let (pa, oa) = grid[0];
    assert_eq!(pa, a);
    // the later change of the same neighbour wins
    assert_eq!(oa.get_face(OcclusionFace::North).0[2], BlockOpacity::Transparent);
    assert_eq!(oa.get_face(OcclusionFace::Top).0[0], BlockOpacity::Solid);
    let (pb, ob) = grid[1];
    assert_eq!(pb, b);
    assert_eq!(ob.get_face(OcclusionFace::Top).0[7], BlockOpacity::Solid);
    assert_eq!(ob.get_face(OcclusionFace::Top).0[6], BlockOpacity::Transparent);
}
