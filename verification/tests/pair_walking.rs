use world::chunk::pair_walking::{
    calculate_boundary_slice_block_offsets, cross_chunk_pairs, extend_boundary_slice_block,
    ChunkOpacity, WhichChunk, SLAB_VOLUME,
};
use world::occlusion::BlockOpacity;
use world::navigationv2::NeighbourOffset;

#[test]
fn boundary_blocks_walk_anti_clockwise() {
    let mut coords = [(0, 0); 16];
    calculate_boundary_slice_block_offsets(NeighbourOffset::North, &mut coords);
    assert_eq!(coords[0], (15, 15));
    assert_eq!(coords[15], (0, 15));

    calculate_boundary_slice_block_offsets(NeighbourOffset::South, &mut coords);
    assert_eq!(coords[0], (0, 0));
    assert_eq!(coords[15], (15, 0));

    calculate_boundary_slice_block_offsets(NeighbourOffset::West, &mut coords);
    assert_eq!(coords[0], (0, 15));
    assert_eq!(coords[15], (0, 0));

    calculate_boundary_slice_block_offsets(NeighbourOffset::East, &mut coords);
    assert_eq!(coords[3], (15, 3));
}

#[test]
fn extended_blocks_are_across_the_border() {
    assert_eq!(extend_boundary_slice_block(NeighbourOffset::North, (4, 15)), (4, 0));
    assert_eq!(extend_boundary_slice_block(NeighbourOffset::South, (4, 0)), (4, 15));
    assert_eq!(extend_boundary_slice_block(NeighbourOffset::West, (0, 9)), (15, 9));
    assert_eq!(extend_boundary_slice_block(NeighbourOffset::East, (15, 9)), (0, 9));
}

fn single_slab(min_slab: i32, solid_blocks: &[(usize, usize, usize)]) -> ChunkOpacity {
    let mut solid = vec![false; SLAB_VOLUME];
    for &(x, y, z) in solid_blocks {
        solid[(z * 16 + y) * 16 + x] = true;
    }
    ChunkOpacity { min_slab, solid }
}

#[test]
fn cross_chunk_pairs_side() {
    let this = single_slab(0, &[]);
    let other = single_slab(0, &[(0, 5, 3)]);
    let pairs = cross_chunk_pairs(&this, &other, NeighbourOffset::East, (-10, 10));

    let this_count = pairs.iter().filter(|p| p.0 == WhichChunk::ThisChunk).count();
    let other_count = pairs.iter().filter(|p| p.0 == WhichChunk::OtherChunk).count();
    // every border block of the 31 lower slices of this chunk
    assert_eq!(this_count, 31 * 16);
    // the other's border block under its solid block is covered
    assert_eq!(other_count, 31 * 16 - 1);
    assert!(!pairs.iter().any(|p| p.0 == WhichChunk::OtherChunk
        && (p.1).0 .0 == 0
        && (p.1).1 .0 == 5
        && (p.1).2 .0 == 2));

    let find = |y: u16| {
        pairs
            .iter()
            .find(|p| p.0 == WhichChunk::ThisChunk && (p.1).0 .0 == 15 && (p.1).1 .0 == y && (p.1).2 .0 == 2)
            .expect("paired")
            .2
    };
    // directly across (east), and to either side of the solid block
    assert_eq!(find(5).0[2], BlockOpacity::Solid);
    assert_eq!(find(4).0[1], BlockOpacity::Solid);
    assert_eq!(find(6).0[3], BlockOpacity::Solid);
    assert!(find(7).0.iter().all(|o| *o == BlockOpacity::Transparent));
}

#[test]
fn cross_chunk_pairs_corner() {
    let this = single_slab(0, &[]);
    let other = single_slab(0, &[(0, 0, 3)]);
    let pairs = cross_chunk_pairs(&this, &other, NeighbourOffset::NorthEast, (-10, 10));
    assert_eq!(pairs.len(), 1);
    let (which, pos, opacity) = pairs[0];
    assert_eq!(which, WhichChunk::ThisChunk);
    assert_eq!(((pos.0).0, (pos.1).0, (pos.2).0), (15, 15, 2));
    assert_eq!(opacity.0[3], BlockOpacity::Solid);
    assert_eq!(opacity.0.iter().filter(|o| **o == BlockOpacity::Solid).count(), 1);
}

#[test]
fn cross_chunk_pairs_different_heights() {
    // this chunk holds slab 0, the other slabs 1 and 2: only the boundary between this chunk's
    // top and the other's bottom is paired, then the other ends higher
    let this = single_slab(0, &[]);
    let mut other = single_slab(1, &[(15, 15, 0)]);
    other.solid.extend(vec![false; SLAB_VOLUME]);
    let pairs = cross_chunk_pairs(&this, &other, NeighbourOffset::SouthWest, (-10, 10));
    assert_eq!(pairs.len(), 1);
    let (which, pos, _) = pairs[0];
    assert_eq!(which, WhichChunk::ThisChunk);
    assert_eq!(((pos.0).0, (pos.1).0, (pos.2).0), (0, 0, 31));
}
