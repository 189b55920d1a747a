use world::area::boundary::ChunkBoundary;
use world::coordinate::world::WorldPosition;
use world::slab::SLAB_SIZE;

#[test]
fn boundary() {
    let v: Vec<_> = ChunkBoundary::Up.blocks_in_slab(1);
    assert_eq!(v.len(), 16 * SLAB_SIZE);
    assert!(v.iter().all(|b| {
        let y_is_constant = (b.1).0 == 16 - 1;
        let z_is_in_range_of_slab =
            (b.2).0 >= SLAB_SIZE as i32 && (b.2).0 < (SLAB_SIZE as i32 * 2);
        y_is_constant && z_is_in_range_of_slab
    }));
}

#[test]
fn boundary_sides() {
    let left = ChunkBoundary::Left.blocks_in_slab(-1);
    assert!(left.iter().all(|b| (b.0).0 == 0 && (b.2).0 >= -32 && (b.2).0 < 0));
    let right = ChunkBoundary::Right.blocks_in_slab(0);
    assert!(right.iter().all(|b| (b.0).0 == 15));
    assert_eq!((right[17].1).0, 1);
    assert_eq!((right[17].2).0, 1);
    let down = ChunkBoundary::Down.blocks_in_slab(0);
    assert!(down.iter().all(|b| (b.1).0 == 0));
}

#[test]
fn boundary_opposites() {
    for b in ChunkBoundary::boundaries() {
        assert_eq!(b.opposite().opposite(), b);
        assert_ne!(b.opposite(), b);
        let p = WorldPosition(3, -4, 5);
        assert_eq!(b.opposite().shift(b.shift(p)), p);
    }
    assert_eq!(ChunkBoundary::Up.shift(WorldPosition(0, 0, 0)), WorldPosition(0, 1, 0));
    assert_eq!(ChunkBoundary::Left.shift(WorldPosition(0, 0, 0)), WorldPosition(-1, 0, 0));
    assert_eq!(ChunkBoundary::boundaries().len(), 4);
}
