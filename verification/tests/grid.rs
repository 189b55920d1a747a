use world::grid::{Grid, GridImpl};

// grid of u32s with dimensions 4x5x6
struct TestImpl;

impl GridImpl for TestImpl {
    type Item = u32;
    const DIMS: [i32; 3] = [4, 5, 6];
    const FULL_SIZE: usize = 4 * 5 * 6;
}

type TestGrid = Grid<TestImpl>;

#[test]
fn grid_simple() {
    let mut grid = TestGrid::default();

    // check the number of elements is as expected
    assert_eq!(TestGrid::full_size(), 4 * 5 * 6);
    assert_eq!(TestGrid::full_size(), grid.indices().len());

    // check coordinate resolution works
    assert_eq!(TestGrid::flatten(&[0, 0, 0]), 0);
    assert_eq!(TestGrid::flatten(&[1, 0, 0]), 1);
    assert_eq!(TestGrid::flatten(&[0, 1, 0]), 4);
    assert_eq!(TestGrid::flatten(&[0, 0, 1]), 20);

    for i in grid.indices() {
        let coord = TestGrid::unflatten(i);
        let j = TestGrid::flatten(&coord);
        assert_eq!(i, j);
    }

    // check setting every cell actually sets values
    for i in grid.indices() {
        grid.set(i, 1);
    }

    assert_eq!(*grid.get_coord(&[2, 2, 3]), 1);
}

#[test]
fn grid_slices() {
    let grid = TestGrid::new_filled(7);
    assert_eq!(TestGrid::slice_count(), 6);
    assert_eq!(TestGrid::slice_range(0), (0, 20));
    assert_eq!(TestGrid::slice_range(2), (40, 60));
    assert_eq!(grid.unflatten_index(23), [3, 0, 1]);
    assert_eq!(*grid.get(119), 7);
    assert_eq!(grid.as_slice().len(), 120);
    let mut grid = grid;
    grid.set_coord(&[3, 4, 5], 9);
    assert_eq!(*grid.get(119), 9);
}
