use world::chunk::slab::SliceNavArea;
use std::collections::HashSet;
use world::chunk::slice_navmesh::{SliceAreaIndex, SliceAreaIndexAllocator};
use world::navigationv2::{
    areas_touch, border_areas_touch, discover_border_edges, filter_border_areas, filter_bottom_areas, filter_top_areas,
    is_border, is_bottom_area, is_sorted_by, is_top_area, no_dupes, NeighbourOffset, SlabArea,
    SlabNavEdge, SlabNavGraph,
};

struct TestArea {
    slice: u8,
    height: u8,
    /// Inclusive
    bounds: ((u8, u8), (u8, u8)),
}

#[derive(Eq, PartialEq, Debug)]
struct TestNode {
    slice: u8,
    slice_area: u8,
}

#[derive(Eq, PartialEq, Debug)]
struct TestEdge {
    from: TestNode,
    to: TestNode,
    edge: SlabNavEdge,
}

fn do_it(areas: Vec<TestArea>) -> SlabNavGraph {
    let areas: Vec<SliceNavArea> = areas
        .into_iter()
        .map(|a| SliceNavArea {
            slice: a.slice,
            from: a.bounds.0,
            to: a.bounds.1,
            height: a.height,
        })
        .collect();

    SlabNavGraph::discover(&areas)
}

fn edges(graph: &SlabNavGraph) -> Vec<TestEdge> {
    graph
        .iter_edges()
        .into_iter()
        .map(|(a, b, e)| TestEdge {
            from: TestNode {
                slice: a.slice_idx,
                slice_area: a.slice_area.0,
            },
            to: TestNode {
                slice: b.slice_idx,
                slice_area: b.slice_area.0,
            },
            edge: e,
        })
        .collect()
}

fn edge(clearance: u8, height_diff: u8) -> SlabNavEdge {
    SlabNavEdge::new(clearance, height_diff).unwrap()
}

#[test]
fn touching() {
    assert!(areas_touch(((1, 1), (2, 2)), ((3, 1), (4, 2)),)); // adjacent
    assert!(!areas_touch(((1, 1), (2, 2)), ((4, 1), (4, 2)),)); // 1 gap inbetween

    assert!(!areas_touch(((1, 1), (2, 2)), ((3, 3), (4, 4)),)); // diagonal
    assert!(areas_touch(((1, 1), (2, 3)), ((3, 3), (4, 4)),)); // now actually touching
}

#[test]
fn touching_is_symmetric_and_at_the_edge_of_the_chunk() {
    assert!(areas_touch(((0, 0), (0, 0)), ((0, 1), (3, 1))));
    assert!(areas_touch(((0, 1), (3, 1)), ((0, 0), (0, 0))));
    assert!(!areas_touch(((0, 0), (0, 0)), ((1, 1), (1, 1))));
    // overlapping counts as touching
    assert!(areas_touch(((0, 0), (5, 5)), ((2, 2), (3, 3))));
}

/*

  0 1 2 3 4
0
1   a a b b
2   a a b b
3
*/

#[test]
fn simple_step_up_same_roof() {
    let x = do_it(vec![
        TestArea {
            slice: 1,
            height: 3,
            bounds: ((1, 1), (2, 2)),
        },
        TestArea {
            slice: 2,
            height: 2,
            bounds: ((3, 1), (4, 2)),
        },
    ]);

    // step up with clearance of 2
    assert_eq!(x.iter_nodes().len(), 2);
    assert_eq!(
        edges(&x),
        vec![TestEdge {
            from: TestNode {
                slice: 1,
                slice_area: 0
            },
            to: TestNode {
                slice: 2,
                slice_area: 0
            },
            edge: edge(2, 1),
        }]
    );
}

#[test]
fn simple_step_up_diff_roof() {
    let x = do_it(vec![
        TestArea {
            slice: 1,
            height: 3,
            bounds: ((1, 1), (2, 2)),
        },
        TestArea {
            slice: 2,
            height: 5,
            bounds: ((3, 1), (4, 2)),
        },
    ]);

    // step up with clearance of 2 still
    assert_eq!(x.iter_nodes().len(), 2);
    assert_eq!(
        edges(&x),
        vec![TestEdge {
            from: TestNode {
                slice: 1,
                slice_area: 0
            },
            to: TestNode {
                slice: 2,
                slice_area: 0
            },
            edge: edge(2, 1),
        }]
    );
}

#[test]
fn simple_multiple_step_up_same_roof() {
    let x = do_it(vec![
        TestArea {
            slice: 1,
            height: 3,
            bounds: ((1, 1), (2, 2)),
        },
        TestArea {
            slice: 3,
            height: 1,
            bounds: ((3, 1), (4, 2)),
        },
    ]);

    assert_eq!(x.iter_nodes().len(), 2);
    assert_eq!(
        edges(&x),
        vec![TestEdge {
            from: TestNode {
                slice: 1,
                slice_area: 0
            },
            to: TestNode {
                slice: 3,
                slice_area: 0
            },
            edge: edge(1, 2),
        }]
    );
}

#[test]
fn simple_multiple_step_up_diff_roof() {
    let x = do_it(vec![
        TestArea {
            slice: 1,
            height: 3,
            bounds: ((1, 1), (2, 2)),
        },
        TestArea {
            slice: 3,
            height: 5,
            bounds: ((3, 1), (4, 2)),
        },
    ]);

    assert_eq!(x.iter_nodes().len(), 2);
    assert_eq!(
        edges(&x),
        vec![TestEdge {
            from: TestNode {
                slice: 1,
                slice_area: 0
            },
            to: TestNode {
                slice: 3,
                slice_area: 0
            },
            edge: edge(1, 2),
        }]
    );
}

#[test]
fn simple_flat_walk_same_roof() {
    let x = do_it(vec![
        TestArea {
            slice: 1,
            height: 3,
            bounds: ((1, 1), (2, 2)),
        },
        TestArea {
            slice: 1,
            height: 3,
            bounds: ((3, 1), (4, 2)),
        },
    ]);

    assert_eq!(x.iter_nodes().len(), 2);
    assert_eq!(
        edges(&x),
        vec![TestEdge {
            from: TestNode {
                slice: 1,
                slice_area: 0
            },
            to: TestNode {
                slice: 1,
                slice_area: 1
            },
            edge: edge(3, 0),
        }]
    );
}

#[test]
fn dont_link_with_inaccessible_roof() {
    let x = do_it(vec![
        TestArea {
            slice: 1,
            height: 3,
            bounds: ((1, 1), (2, 2)),
        },
        TestArea {
            slice: 5,
            height: 3,
            bounds: ((1, 1), (2, 2)),
        },
    ]);

    assert_eq!(edges(&x), vec![]);
}

#[test]
fn single_area() {
    let x = do_it(vec![TestArea {
        slice: 1,
        height: 3,
        bounds: ((1, 1), (2, 2)),
    }]);

    assert_eq!(x.iter_nodes().len(), 1); // should still have a node
}

#[test]
fn empty_slab_graph() {
    let x = do_it(vec![]);
    assert!(x.iter_nodes().is_empty());
    assert!(x.iter_edges().is_empty());
}

#[test]
fn nodes_in_order_with_slice_indices() {
    let x = do_it(vec![
        TestArea {
            slice: 1,
            height: 3,
            bounds: ((0, 0), (0, 0)),
        },
        TestArea {
            slice: 1,
            height: 3,
            bounds: ((5, 5), (5, 5)),
        },
        TestArea {
            slice: 4,
            height: 3,
            bounds: ((9, 9), (9, 9)),
        },
    ]);
    assert_eq!(
        x.iter_nodes(),
        vec![
            SlabArea {
                slice_idx: 1,
                slice_area: SliceAreaIndex(0)
            },
            SlabArea {
                slice_idx: 1,
                slice_area: SliceAreaIndex(1)
            },
            SlabArea {
                slice_idx: 4,
                slice_area: SliceAreaIndex(0)
            },
        ]
    );
    assert!(x.iter_edges().is_empty());
}

#[test]
fn top_area_check() {
    let area = |slice: u8, height| SliceNavArea {
        slice,
        from: (0, 0),
        to: (1, 1),
        height,
    };

    let base = 32 - 3;
    assert!(is_top_area(&area(base, 5)));
    assert!(is_top_area(&area(base, 4)));
    assert!(!is_top_area(&area(base, 3))); // touches top only but no protrusion
    assert!(!is_top_area(&area(base, 2)));
    assert!(!is_top_area(&area(base, 1)));
}

#[test]
fn bottom_area_check() {
    let area = |slice: u8| SliceNavArea {
        slice,
        from: (0, 0),
        to: (1, 1),
        height: 2,
    };
    assert!(is_bottom_area(&area(0)));
    assert!(!is_bottom_area(&area(1)));
}

#[test]
fn all_edges() {
    // old bug: slice 2 area should link to all 5 of the slice 1 ones
    let areas = vec![
        TestArea {
            slice: 1,
            bounds: ((0, 0), (6, 2)),
            height: 4,
        },
        TestArea {
            slice: 1,
            bounds: ((7, 0), (15, 1)),
            height: 4,
        },
        TestArea {
            slice: 1,
            bounds: ((8, 2), (15, 15)),
            height: 4,
        },
        TestArea {
            slice: 1,
            bounds: ((0, 3), (6, 15)),
            height: 4,
        },
        TestArea {
            slice: 1,
            bounds: ((7, 6), (7, 15)),
            height: 4,
        },
        TestArea {
            slice: 2,
            bounds: ((7, 2), (7, 5)),
            height: 4,
        },
    ];
    let graph = do_it(areas);
    let target = SlabArea {
        slice_idx: 2,
        slice_area: SliceAreaIndex(0),
    };
    let edges: Vec<_> = graph
        .iter_edges()
        .into_iter()
        .filter(|(a, b, _)| *a == target || *b == target)
        .collect();
    assert_eq!(edges.len(), 5, "edges: {:?}", edges);
}

#[test]
fn no_diagonal_border_edges() {
    // diagonal to each other
    let a = ((0, 0), (0, 0));
    let b = ((1, 15), (1, 15));
    let a_to_b = NeighbourOffset::South;

    assert!(!border_areas_touch(a, b, a_to_b));
    assert!(!border_areas_touch(b, a, a_to_b.opposite()));
}

#[test]
fn borders_of_ranges() {
    let r = ((0, 3), (15, 15));
    assert!(is_border(NeighbourOffset::West, r));
    assert!(is_border(NeighbourOffset::East, r));
    assert!(is_border(NeighbourOffset::North, r));
    assert!(!is_border(NeighbourOffset::South, r));
    assert!(!is_border(NeighbourOffset::NorthEast, r));
    assert_eq!(NeighbourOffset::East.opposite(), NeighbourOffset::West);
    assert_eq!(NeighbourOffset::SouthWest.opposite(), NeighbourOffset::NorthEast);
    assert!(NeighbourOffset::North.is_aligned());
    assert!(!NeighbourOffset::NorthWest.is_aligned());
}

fn nav_area(slice: u8, from: (u8, u8), to: (u8, u8), height: u8) -> SliceNavArea {
    SliceNavArea {
        slice,
        from,
        to,
        height,
    }
}

#[test]
fn filters_keep_slice_indices() {
    let areas = vec![
        nav_area(3, (0, 0), (15, 2), 2),
        nav_area(3, (0, 3), (4, 4), 2),
        nav_area(24, (5, 5), (6, 6), 8),
        nav_area(24, (0, 7), (1, 8), 3),
        nav_area(30, (3, 3), (15, 3), 2),
        nav_area(30, (9, 9), (9, 9), 4),
    ];

    let west = filter_border_areas(&areas, NeighbourOffset::West);
    assert_eq!(
        west,
        vec![
            (areas[0], SliceAreaIndex(0)),
            (areas[1], SliceAreaIndex(1)),
            (areas[3], SliceAreaIndex(1)),
        ]
    );
    let east = filter_border_areas(&areas, NeighbourOffset::East);
    assert_eq!(
        east,
        vec![(areas[0], SliceAreaIndex(0)), (areas[4], SliceAreaIndex(0))]
    );

    let top = filter_top_areas(&areas);
    assert_eq!(top, vec![(areas[5], SliceAreaIndex(1))]);
    let bottom = filter_bottom_areas(&areas);
    assert_eq!(
        bottom,
        vec![
            (areas[2], SliceAreaIndex(0)),
            (areas[4], SliceAreaIndex(0)),
            (areas[5], SliceAreaIndex(1))
        ]
    );

    assert!(no_dupes(&west));
    assert!(!no_dupes(&[(areas[0], SliceAreaIndex(0)), (areas[1], SliceAreaIndex(0))]));
    assert!(is_sorted_by(&areas, |a| a.slice));
    assert!(!is_sorted_by(&[areas[2], areas[0]], |a| a.slice));
}

fn do_it_neighbours(
    this: Vec<TestArea>,
    other: Vec<TestArea>,
    dir: Option<NeighbourOffset>,
) -> Vec<(SlabArea, SlabArea, SlabNavEdge)> {
    let prepare = |mut areas: Vec<TestArea>| {
        let mut alloc = SliceAreaIndexAllocator::default();
        areas.sort_by_key(|x| x.slice);
        areas
            .into_iter()
            .map(|a| {
                (
                    SliceNavArea {
                        slice: a.slice,
                        from: a.bounds.0,
                        to: a.bounds.1,
                        height: a.height,
                    },
                    alloc.allocate(a.slice),
                )
            })
            .collect::<Vec<_>>()
    };
    let this = prepare(this);
    let other = prepare(other);

    let mut edges = HashSet::new();
    for (a, b, e) in discover_border_edges(&this, &other, dir) {
        assert!(edges.insert((a, b, e)), "duplicate {:?}->{:?}", a, b)
    }
    edges.into_iter().collect()
}

#[test]
fn neighbours_touching() {
    let edges = do_it_neighbours(
        vec![TestArea {
            slice: 2,
            height: 5,
            bounds: ((5, 5), (15, 8)),
        }],
        vec![TestArea {
            slice: 4,
            height: 8,
            bounds: ((0, 3), (2, 8)),
        }],
        Some(NeighbourOffset::East),
    );

    assert_eq!(
        edges,
        vec![(
            SlabArea {
                slice_idx: 2,
                slice_area: SliceAreaIndex(0),
            },
            SlabArea {
                slice_idx: 4,
                slice_area: SliceAreaIndex(0),
            },
            edge(3, 2)
        )]
    );
}

#[test]
fn neighbours_not_touching() {
    let edges = do_it_neighbours(
        vec![TestArea {
            slice: 2,
            height: 5,
            bounds: ((5, 5), (15, 8)),
        }],
        vec![TestArea {
            slice: 4,
            height: 8,
            bounds: ((0, 0), (2, 3)),
        }],
        Some(NeighbourOffset::East),
    );

    assert_eq!(edges, vec![])
}

#[test]
fn neighbours_vertical_protrude() {
    let edges = do_it_neighbours(
        // below slab protrudes a few blocks into above
        vec![TestArea {
            slice: 32 - 3,
            height: 5,
            bounds: ((5, 5), (5, 5)),
        }],
        vec![TestArea {
            slice: 0,
            height: 4,
            bounds: ((6, 5), (6, 5)),
        }],
        None, // above
    );

    assert_eq!(
        edges,
        vec![(
            SlabArea {
                // below slab
                slice_idx: 32 - 3,
                slice_area: SliceAreaIndex(0),
            },
            SlabArea {
                // above slab
                slice_idx: 0,
                slice_area: SliceAreaIndex(0),
            },
            // 29,30,31|32,33
            // X        X
            edge(2, 4), // 29 -> 32
        )]
    );
}

#[test]
fn neighbour_edges_point_from_this_slab() {
    // the neighbour's area starts lower, so it is met first, but the edge still starts here
    let edges = do_it_neighbours(
        vec![TestArea {
            slice: 5,
            height: 3,
            bounds: ((15, 0), (15, 4)),
        }],
        vec![TestArea {
            slice: 3,
            height: 4,
            bounds: ((0, 2), (0, 9)),
        }],
        Some(NeighbourOffset::East),
    );
    assert_eq!(
        edges,
        vec![(
            SlabArea {
                slice_idx: 5,
                slice_area: SliceAreaIndex(0),
            },
            SlabArea {
                slice_idx: 3,
                slice_area: SliceAreaIndex(0),
            },
            edge(2, 2)
        )]
    );

    // out of reach: the neighbour's space ends below this area
    let none = do_it_neighbours(
        vec![TestArea {
            slice: 8,
            height: 3,
            bounds: ((15, 0), (15, 4)),
        }],
        vec![TestArea {
            slice: 3,
            height: 4,
            bounds: ((0, 2), (0, 9)),
        }],
        Some(NeighbourOffset::East),
    );
    assert!(none.is_empty());
}

#[test]
fn is_sorted_by_keys_of_any_ordered_type() {
    let empty: [u32; 0] = [];
    assert!(is_sorted_by(&empty, |x| *x));
    assert!(is_sorted_by(&[7u32], |x| *x));
    assert!(is_sorted_by(&[1u32, 2, 2, 3], |x| *x));
    assert!(!is_sorted_by(&[1u32, 3, 2], |x| *x));
    assert!(is_sorted_by(&[-3i64, -3, 0, 10], |x| *x));
    assert!(!is_sorted_by(&[(1u8, 2u8), (1, 1)], |p| *p));
}
