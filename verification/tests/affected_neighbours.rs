use world::chunk::affected_neighbours::{
    OcclusionAffectedNeighbourSlab, OcclusionAffectedNeighbourSlabs,
};
use world::range::WorldRange;
use world::slab::SlabPosition;

use OcclusionAffectedNeighbourSlab::{
    Below, BelowNorth, BelowNorthWest, BelowSouth, BelowSouthWest, BelowWest, East, North,
    NorthWest, South, SouthWest, West,
};

fn p((x, y, z): (i32, i32, i32)) -> SlabPosition {
    SlabPosition(x as u8, y as u8, z)
}

fn check(inputs: Vec<WorldRange<SlabPosition>>, mut expected: Vec<OcclusionAffectedNeighbourSlab>) {
    let mut output = OcclusionAffectedNeighbourSlabs::default();
    for range in inputs {
        output.update(range);
    }
    let mut actual = output.finish();
    actual.sort_by_key(|n| n.ordinal());
    expected.sort_by_key(|n| n.ordinal());
    assert_eq!(expected, actual);
}

fn single(t: (i32, i32, i32)) -> WorldRange<SlabPosition> {
    WorldRange::Single(p(t))
}

fn multi(a: (i32, i32, i32), b: (i32, i32, i32)) -> WorldRange<SlabPosition> {
    WorldRange::Range(p(a), p(b))
}

#[test]
fn affected_none() {
    check(vec![], vec![]);
    // all internal
    check(vec![single((5, 5, 5)), multi((2, 2, 1), (8, 8, 4))], vec![]);
}

#[test]
fn affected_single_block_in_middle() {
    check(vec![single((5, 0, 5))], vec![South]);
    check(vec![single((5, 15, 5))], vec![North]);
    check(vec![single((15, 5, 5))], vec![East]);
}

#[test]
fn affected_along_left_side() {
    check(
        vec![multi((0, 0, 5), (0, 15, 5))],
        vec![West, SouthWest, NorthWest, North, South],
    );
}

#[test]
fn affected_bottom_corner() {
    check(
        vec![single((0, 0, 0))],
        vec![South, West, SouthWest, BelowSouth, BelowWest, BelowSouthWest, Below],
    );
}

#[test]
fn affected_along_left_side_on_bottom() {
    check(
        vec![multi((0, 0, 0), (0, 15, 1))],
        vec![
            South, West, North, NorthWest, SouthWest, BelowSouth, BelowWest, BelowNorth,
            BelowNorthWest, BelowSouthWest, Below,
        ],
    );
}

#[test]
fn affected_full_slab() {
    let all: Vec<_> = (0..26).map(OcclusionAffectedNeighbourSlab::from_ordinal).collect();
    check(vec![multi((0, 0, 0), (15, 15, 31))], all);
}

#[test]
fn offsets_round_trip() {
    for i in 0..26 {
        let n = OcclusionAffectedNeighbourSlab::from_ordinal(i);
        assert_eq!(n.ordinal(), i);
        assert_eq!(OcclusionAffectedNeighbourSlab::from_offset(n.offset()), Some(n));
    }
    assert_eq!(OcclusionAffectedNeighbourSlab::from_offset([0, 0, 0]), None);
    assert_eq!(BelowNorthWest.offset(), [-1, 1, -1]);
}
