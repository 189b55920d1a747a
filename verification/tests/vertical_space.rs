use world::chunk::vertical_space::{
    PackedSlabBlockVerticalSpace, SlabVerticalSpace, ABSOLUTE_MAX_FREE_VERTICAL_SPACE,
    SLAB_BLOCKS,
};
use world::slab::{SlabPosition, SLAB_SIZE};

/// A slab of air with the given blocks solid, slice by slice from the bottom.
fn slab_with_solids(solids: &[(usize, usize, usize)]) -> Vec<bool> {
    let mut air = vec![true; SLAB_BLOCKS];
    for &(x, y, z) in solids {
        air[z * 256 + y * 16 + x] = false;
    }
    air
}

#[test]
fn packed() {
    let x = PackedSlabBlockVerticalSpace::new_(5, 6, 7, ABSOLUTE_MAX_FREE_VERTICAL_SPACE);
    assert_eq!(x.pos(), SlabPosition(5, 6, 7));
    assert_eq!(x.height(), ABSOLUTE_MAX_FREE_VERTICAL_SPACE);
}

#[test]
fn packed_fields_round_trip() {
    let x = PackedSlabBlockVerticalSpace::new_(15, 0, 31, 1);
    assert_eq!((x.x(), x.y(), x.z(), x.height()), (15, 0, 31, 1));
    let y = PackedSlabBlockVerticalSpace::new_(0, 15, 0, 5);
    assert_eq!(y.pos(), SlabPosition(0, 15, 0));
    assert_eq!(y.height(), 5);
}

#[test]
fn floating_blocks() {
    let air = slab_with_solids(&[
        (3, 3, 3),
        (3, 3, 7),
        (3, 3, SLAB_SIZE - 3),
        // ceiling
        (4, 4, SLAB_SIZE - 1),
        // pillar
        (5, 5, 20),
        (5, 5, 21),
        (5, 5, 22),
    ]);
    let x = SlabVerticalSpace::discover(&air);

    // bottom of slab up to block
    assert_eq!(x.find_block_exact(SlabPosition(3, 3, 0)), Some(3));

    // same as bottom space
    assert_eq!(x.below_at((3, 3)), 3);

    // between the 2 blocks
    assert_eq!(x.find_block_exact(SlabPosition(3, 3, 4)), Some(3));

    // above the top block
    assert_eq!(
        x.find_block_exact(SlabPosition(3, 3, 8)),
        Some(ABSOLUTE_MAX_FREE_VERTICAL_SPACE)
    );

    // really high block
    assert_eq!(x.above_at((3, 3)), 2);

    // ceiling block
    assert_eq!(x.above_at((4, 4)), 0);

    // open space
    assert_eq!(x.below_at((6, 7)), ABSOLUTE_MAX_FREE_VERTICAL_SPACE);
    assert_eq!(x.above_at((6, 7)), ABSOLUTE_MAX_FREE_VERTICAL_SPACE);
}

#[test]
fn entire_empty_slab() {
    let air = slab_with_solids(&[]);
    let x = SlabVerticalSpace::discover(&air);
    assert!(x
        .iter_blocks()
        .iter()
        .all(|(_, h)| *h == ABSOLUTE_MAX_FREE_VERTICAL_SPACE));

    assert_eq!(x.below_at((0, 0)), ABSOLUTE_MAX_FREE_VERTICAL_SPACE);
    assert_eq!(x.below_at((5, 5)), ABSOLUTE_MAX_FREE_VERTICAL_SPACE);

    let shared_empty = SlabVerticalSpace::empty();
    assert_eq!(shared_empty.iter_blocks(), x.iter_blocks());
    assert_eq!(shared_empty.above(), x.above());
    for col_y in 0..16u8 {
        for col_x in 0..16u8 {
            assert_eq!(
                shared_empty.below_at((col_x, col_y)),
                x.below_at((col_x, col_y))
            );
        }
    }
}

#[test]
fn entire_full_slab() {
    let air = vec![false; SLAB_BLOCKS];
    let x = SlabVerticalSpace::discover(&air);
    assert_eq!(x.iter_blocks().len(), 0);
    assert!(x.is_empty());
    assert_eq!(x.above_at((5, 5)), 0);
    assert_eq!(x.below_at((5, 5)), 0);
}

#[test]
fn above_top_slice() {
    let air = slab_with_solids(&[(5, 5, SLAB_SIZE - 1), (4, 5, SLAB_SIZE - 2)]);
    let x = SlabVerticalSpace::discover(&air);

    assert_eq!(x.above_at((3, 5)), ABSOLUTE_MAX_FREE_VERTICAL_SPACE);
    assert_eq!(x.above_at((4, 5)), 1);
    assert_eq!(x.above_at((5, 5)), 0);
}

#[test]
fn just_slice_0() {
    let mut solids = vec![];
    for y in 0..16 {
        for x in 0..16 {
            if (x, y) != (5, 5) {
                solids.push((x, y, 0));
            }
        }
    }
    let air = slab_with_solids(&solids);
    let x = SlabVerticalSpace::discover(&air);
    assert_eq!(x.below_at((5, 4)), 0); // solid
    assert_eq!(x.below_at((5, 5)), ABSOLUTE_MAX_FREE_VERTICAL_SPACE); // air
}

#[test]
fn find_block_downwards() {
    let air = slab_with_solids(&[(2, 2, 0), (2, 2, 4), (2, 2, 5)]);
    let x = SlabVerticalSpace::discover(&air);

    let get_slice = |z: i32| x.find_slice(SlabPosition(2, 2, z));
    assert_eq!(get_slice(0), None); // solid

    for z in 1..=3 {
        assert_eq!(get_slice(z), Some(1));
    }

    assert_eq!(get_slice(4), None);
    assert_eq!(get_slice(5), None);

    // the space above goes up to the max
    for z in 6..6 + ABSOLUTE_MAX_FREE_VERTICAL_SPACE as i32 {
        assert_eq!(get_slice(z), Some(6));
    }

    // should not search further than the max
    for z in 6 + ABSOLUTE_MAX_FREE_VERTICAL_SPACE as i32..SLAB_SIZE as i32 {
        assert_eq!(get_slice(z), None);
    }
}

#[test]
fn blocks_sorted_by_slice_then_row() {
    let air = slab_with_solids(&[(1, 0, 2), (0, 1, 0), (3, 3, 10)]);
    let x = SlabVerticalSpace::discover(&air);
    let blocks = x.iter_blocks();
    // every column starts at the bottom except (0, 1), which starts at slice 1
    let keys: Vec<i32> = blocks
        .iter()
        .map(|(p, _)| p.2 * 256 + p.1 as i32 * 16 + p.0 as i32)
        .collect();
    let mut sorted = keys.clone();
    sorted.sort();
    assert_eq!(keys, sorted);
    assert!(blocks.contains(&(SlabPosition(1, 0, 0), 2)));
    assert!(blocks.contains(&(SlabPosition(1, 0, 3), 8)));
    assert!(blocks.contains(&(SlabPosition(0, 1, 1), 8)));
    assert!(blocks.contains(&(SlabPosition(3, 3, 0), 8)));
    assert!(blocks.contains(&(SlabPosition(3, 3, 11), 8)));
    assert_eq!(x.find_block_exact(SlabPosition(0, 1, 0)), None);
    assert_eq!(x.below_at((0, 1)), 0);
}

#[test]
fn iter_above_row_major() {
    let air = slab_with_solids(&[(2, 1, SLAB_SIZE - 3)]);
    let x = SlabVerticalSpace::discover(&air);
    let above = x.iter_above();
    assert_eq!(above.len(), 256);
    let (b, h) = above[16 + 2];
    assert_eq!((b.0 .0, b.1 .0, h), (2, 1, 2));
    assert_eq!(above[0].1, ABSOLUTE_MAX_FREE_VERTICAL_SPACE);
}
