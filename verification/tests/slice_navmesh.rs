use world::chunk::slice_navmesh::{
    make_mesh, make_mesh_from_heights, SliceAreaIndex, SliceAreaIndexAllocator, SliceConfig,
};

#[test]
fn slice_area_allocator() {
    let mut a = SliceAreaIndexAllocator::default();

    assert_eq!(a.allocate(2), SliceAreaIndex(0));
    assert_eq!(a.allocate(2), SliceAreaIndex(1));
    assert_eq!(a.allocate(2), SliceAreaIndex(2));
    assert_eq!(a.allocate(3), SliceAreaIndex(0));
    assert_eq!(a.allocate(3), SliceAreaIndex(1));
    assert_eq!(a.allocate(3), SliceAreaIndex(2));
    assert_eq!(a.allocate(5), SliceAreaIndex(0));
    assert_eq!(a.allocate(5), SliceAreaIndex(1));
}

#[derive(Debug, Eq, PartialEq)]
struct Rect {
    from: [usize; 2],
    to: [usize; 2],
    height: u8,
    area: u8,
}

#[derive(Default)]
struct Cfg(Vec<Rect>);

impl SliceConfig for Cfg {
    const SZ: usize = 5;
    const FILL_OUTPUT: bool = true;
    type InputElem = i32;

    fn available_height(elem: Self::InputElem) -> u8 {
        elem as u8
    }

    fn emit(&mut self, range: [usize; 2], height: u8, area: u8) {
        let unflatten_idx = |i: usize| [i % <Cfg as SliceConfig>::SZ, i / <Cfg as SliceConfig>::SZ];
        self.0.push(Rect {
            from: unflatten_idx(range[0]),
            to: unflatten_idx(range[1]),
            height,
            area,
        })
    }
}

fn do_it(input: [i32; 25]) -> (Vec<Rect>, Vec<Option<SliceAreaIndex>>) {
    let mut output = vec![SliceAreaIndex::default_index(); 25];
    let mut visited = [false; 25];
    let mut cfg = Cfg::default();
    make_mesh::<Cfg>(&mut cfg, &input, &mut output, &mut visited);

    let to_skip = input.iter().filter(|i| **i == 0).count();
    let not_visited = visited.iter().filter(|b| !**b).count();
    assert_eq!(to_skip, not_visited);

    (
        cfg.0,
        output
            .into_iter()
            .zip(visited.into_iter())
            .map(|(val, b)| if b { Some(val) } else { None })
            .collect(),
    )
}

#[test]
fn single() {
    let input = [
        0, 0, 0, 0, 0, //
        0, 2, 2, 2, 0, //
        0, 2, 2, 2, 0, //
        0, 2, 2, 2, 0, //
        0, 0, 0, 0, 0, //
    ];
    let (rects, _out) = do_it(input);
    assert_eq!(
        rects,
        vec![Rect {
            from: [1, 1],
            to: [3, 3],
            height: 2,
            area: 0
        }]
    );
}

#[test]
fn single_fully_covered() {
    let input = [
        2, 2, 2, 2, 2, //
        2, 2, 2, 2, 2, //
        2, 2, 2, 2, 2, //
        2, 2, 2, 2, 2, //
        2, 2, 2, 2, 2, //
    ];
    let (rects, _out) = do_it(input);
    assert_eq!(
        rects,
        vec![Rect {
            from: [0, 0],
            to: [4, 4],
            height: 2,
            area: 0
        }]
    );
}

#[test]
fn single_mostly_fully_covered() {
    let input = [
        0, 2, 2, 2, 2, //
        0, 2, 2, 2, 2, //
        0, 2, 2, 2, 2, //
        0, 2, 2, 2, 2, //
        0, 2, 2, 2, 2, //
    ];
    let (rects, _out) = do_it(input);
    assert_eq!(
        rects,
        vec![Rect {
            from: [1, 0],
            to: [4, 4],
            height: 2,
            area: 0
        }]
    );
}

#[test]
fn single_full_interrupted_by_single_block() {
    let input = [
        2, 2, 2, 2, 2, //
        2, 2, 2, 2, 2, //
        2, 2, 2, 0, 2, //
        2, 2, 2, 2, 2, //
        2, 2, 2, 2, 2, //
    ];
    let (rects, out) = do_it(input);
    assert_eq!(rects.len(), 4);

    assert!(out[13].is_none());
    assert_eq!(out.iter().filter(|o| o.is_some()).count(), 25 - 1);
}

#[test]
fn complex() {
    let input = [
        0, 0, 0, 0, 0, //
        0, 2, 2, 4, 4, //
        0, 2, 2, 3, 3, //
        0, 2, 2, 3, 3, //
        0, 0, 0, 4, 2, //
    ];
    let (rects, out) = do_it(input);
    assert_eq!(rects.len(), 5);
    assert_ne!(out[7].unwrap(), out[8].unwrap());
    assert_ne!(out[23].unwrap(), out[24].unwrap());
}

#[test]
fn mesh_from_heights_without_output() {
    let heights = [1u8, 1, 0, 1];
    let mut output = vec![SliceAreaIndex(9); 4];
    let mut initialised = vec![false; 4];
    let rects = make_mesh_from_heights(2, false, &heights, &mut output, &mut initialised);
    assert_eq!(rects.len(), 2);
    assert_eq!((rects[0].from, rects[0].to, rects[0].area), (0, 1, 0));
    assert_eq!((rects[1].from, rects[1].to, rects[1].area), (3, 3, 1));
    assert_eq!(initialised, vec![true, true, false, true]);
    assert_eq!(output, vec![SliceAreaIndex(9); 4]);
}

#[test]
fn mesh_rows_truncated_halfway() {
    // the second row stops matching halfway along the first row's run
    let heights = [1u8, 1, 1, 1, 2, 2, 1, 1, 1];
    let mut output = vec![SliceAreaIndex(0); 9];
    let mut initialised = vec![false; 9];
    let rects = make_mesh_from_heights(3, true, &heights, &mut output, &mut initialised);
    assert_eq!((rects[0].from, rects[0].to, rects[0].height), (0, 3, 1));
    assert_eq!(output[3], SliceAreaIndex(0));
    assert_eq!(output[4], SliceAreaIndex(rects[2].area));
    assert_eq!((rects[1].from, rects[1].to), (1, 2));
    assert_eq!((rects[2].from, rects[2].to, rects[2].height), (4, 5, 2));
    assert!(initialised.iter().all(|b| *b));
}

#[test]
fn mesh_of_an_empty_square() {
    let heights: [u8; 0] = [];
    let mut output: [SliceAreaIndex; 0] = [];
    let mut initialised: [bool; 0] = [];
    let rects = make_mesh_from_heights(0, true, &heights, &mut output, &mut initialised);
    assert!(rects.is_empty());
}
