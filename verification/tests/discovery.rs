use world::area::discovery::Neighbours;
use world::area::{ChunkArea, SlabAreaIndex, WorldArea};
use world::coordinate::world::ChunkPosition;

fn count(mut n: Neighbours) -> usize {
    let mut c = 0;
    while n.next().is_some() {
        c += 1;
    }
    c
}

#[test]
fn neighbours() {
    let n = Neighbours::new([2, 2, 2]);
    assert_eq!(count(n), 4);
}

#[test]
fn neighbours_at_edges() {
    assert_eq!(count(Neighbours::new([0, 0, 0])), 2);
    assert_eq!(count(Neighbours::new([15, 3, 0])), 3);
    let mut n = Neighbours::new([0, 5, 7]);
    assert_eq!(n.next(), Some([0, 4, 7]));
    assert_eq!(n.next(), Some([0, 6, 7]));
    assert_eq!(n.next(), Some([1, 5, 7]));
    assert_eq!(n.next(), None);
}

#[test]
fn slab_area_index() {
    let mut a = SlabAreaIndex::uninitialized();
    assert!(!a.initialized());
    assert_eq!(a.ok(), None);
    a.increment();
    assert_eq!(a, SlabAreaIndex::first());
    assert_eq!(a.ok(), Some(SlabAreaIndex(1)));
    let c = ChunkArea { slab: 2, area: a };
    assert_eq!(
        c.into_world_area(ChunkPosition(3, 4)),
        WorldArea { chunk: ChunkPosition(3, 4), slab: 2, area: SlabAreaIndex(1) }
    );
}
