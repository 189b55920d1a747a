use world::mesh::{greedy_quads, make_collision_mesh};

/// A slab with the given blocks solid, slice by slice from the bottom.
fn slab_with_solids(solids: &[(usize, usize, usize)]) -> Vec<bool> {
    let mut solid = vec![false; 8192];
    for &(x, y, z) in solids {
        solid[z * 256 + y * 16 + x] = true;
    }
    solid
}

#[test]
fn greedy_single_block() {
    let slab = slab_with_solids(&[(0, 0, 0)]);

    let mut vertices = Vec::new();
    let mut indices = Vec::new();
    make_collision_mesh(&slab, &mut vertices, &mut indices);

    assert_eq!(
        vertices.len(),
        6 /* 6 quads */ * 4 /* 4 verts per quad */ * 3 /* x,y,z per vert */
    );
    assert_eq!(
        indices.len(),
        6 /* 6 quads */ * 6 /* 6 indices per quad */
    );
}

#[test]
fn greedy_column() {
    let slab = slab_with_solids(&[(1, 1, 1), (1, 1, 2)]);

    let mut vertices = Vec::new();
    let mut indices = Vec::new();
    make_collision_mesh(&slab, &mut vertices, &mut indices);

    // same as single block above
    assert_eq!(vertices.len(), 6 * 4 * 3);
    assert_eq!(indices.len(), 6 * 6);
}

#[test]
fn greedy_plane() {
    let mut solids = vec![];
    for y in 0..16 {
        for x in 0..16 {
            solids.push((x, y, 0));
        }
    }
    solids.push((1, 1, 1));
    let slab = slab_with_solids(&solids);

    let mut vertices = Vec::new();
    let mut indices = Vec::new();
    make_collision_mesh(&slab, &mut vertices, &mut indices);
    assert_eq!(vertices.len(), 168); // more of a regression test
    assert_eq!(indices.len(), 84);
}

#[test]
fn single_block_corners_and_triangles() {
    let slab = slab_with_solids(&[(2, 3, 4)]);
    let mut vertices = vec![7, 7, 7];
    let mut indices = vec![];
    make_collision_mesh(&slab, &mut vertices, &mut indices);

    // what was there first stays first
    assert_eq!(&vertices[..3], &[7, 7, 7]);
    // the first quad is the west face of the block, at x = 2, spanning y and z
    assert_eq!(
        &vertices[3..15],
        &[2, 3, 4, 2, 4, 4, 2, 4, 5, 2, 3, 5]
    );
    // its triangles index the vertices after the one already there
    assert_eq!(&indices[..6], &[1, 2, 3, 3, 4, 1]);
    // every coordinate lies on the block's surface
    for v in vertices[3..].chunks(3) {
        assert!((2..=3).contains(&v[0]));
        assert!((3..=4).contains(&v[1]));
        assert!((4..=5).contains(&v[2]));
    }
}

#[test]
fn greedy_quads_merge_rows_and_columns() {
    // 4 wide, 3 high:
    // X X . X
    // X X . X
    // . . . X
    let mut mask = vec![
        true, true, false, true, //
        true, true, false, true, //
        false, false, false, true,
    ];
    let quads = greedy_quads(&mut mask, 4, 3);
    assert_eq!(quads, vec![(0, 0, 2, 2), (3, 0, 1, 3)]);
    assert!(mask.iter().all(|m| !m));
}

#[test]
fn greedy_quads_stop_at_a_narrower_row() {
    // X X X
    // X X .
    let mut mask = vec![true, true, true, true, true, false];
    let quads = greedy_quads(&mut mask, 3, 2);
    assert_eq!(quads, vec![(0, 0, 3, 1), (0, 1, 2, 1)]);
}

#[test]
fn collision_mesh_scan_bounds() {
    let mut solid = vec![false; 8192];
    solid[0] = true;
    let (mut vertices, mut indices) = (Vec::new(), Vec::new());
    assert!(world::mesh::collision_mesh_checked(&solid, &mut vertices, &mut indices));
    assert_eq!(vertices.len(), 6 * 4 * 3);

    // a block in the top corner row: the x layers' quad starts in the last row of the mask
    // and reaches its last column
    let mut solid = vec![false; 8192];
    solid[31 * 256 + 15 * 16] = true;
    let (mut vertices, mut indices) = (Vec::new(), Vec::new());
    assert!(!world::mesh::collision_mesh_checked(&solid, &mut vertices, &mut indices));
    assert_eq!(vertices.len(), 6 * 4 * 3);
}
