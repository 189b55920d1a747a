use world::coordinate::world::{BlockCoord, SliceBlock};
use world::slice::{flatten_coords, unflatten_index};

#[test]
fn unflatten_slice_index() {
    let size = 16usize;
    assert!(size >= 3);

    assert_eq!(unflatten_index(0), (0u16, 0u16).into());
    assert_eq!(unflatten_index(1), (1u16, 0u16).into());
    assert_eq!(unflatten_index(2), (2u16, 0u16).into());

    assert_eq!(unflatten_index(size + 0), (0u16, 1u16).into());
    assert_eq!(unflatten_index(size + 1), (1u16, 1u16).into());
    assert_eq!(unflatten_index(size + 2), (2u16, 1u16).into());
}

#[test]
fn flatten_round_trip() {
    for i in 0..256 {
        assert_eq!(flatten_coords(unflatten_index(i)), i);
    }
    assert_eq!(flatten_coords(SliceBlock(BlockCoord(3), BlockCoord(2))), 35);
}
