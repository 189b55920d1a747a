use world::chunk::slab::SliceNavArea;
use world::chunk::slice_navmesh::SliceAreaIndex;
use world::coordinate::world::ChunkPosition;
use world::navigationv2::world_graph::{directional_height, Path, PathTracker, WorldGraph};
use world::navigationv2::{
    ChunkArea, DirectionalSlabNavEdge, SlabArea, SlabNavEdge, SlabNavGraph, WorldArea,
};
use world::slab::SlabLocation;

fn slab(idx: i32, chunk: (i32, i32)) -> SlabLocation {
    SlabLocation::new(idx, ChunkPosition(chunk.0, chunk.1))
}

fn slab_area(slice: u8, area: u8) -> SlabArea {
    SlabArea {
        slice_idx: slice,
        slice_area: SliceAreaIndex(area),
    }
}

fn edge(clearance: u8, height_diff: u8) -> SlabNavEdge {
    SlabNavEdge::new(clearance, height_diff).unwrap()
}

/// A slab with a step up from slice 1 to slice 2: two areas and one edge.
fn step_graph() -> SlabNavGraph {
    SlabNavGraph::discover(&[
        SliceNavArea {
            slice: 1,
            from: (1, 1),
            to: (2, 2),
            height: 3,
        },
        SliceNavArea {
            slice: 2,
            from: (3, 1),
            to: (4, 2),
            height: 2,
        },
    ])
}

#[test]
fn world_area_of_slab_area() {
    let s = slab(-2, (3, -4));
    let a = WorldArea::from((s, slab_area(5, 1)));
    assert_eq!(
        a,
        WorldArea {
            chunk_idx: ChunkPosition(3, -4),
            chunk_area: ChunkArea {
                slab_idx: -2,
                slab_area: slab_area(5, 1),
            },
        }
    );
    assert_eq!(a.slab(), s);
}

#[test]
fn new_graph_is_empty() {
    let g = WorldGraph::default();
    assert!(g.iter_nodes().is_empty());
    assert!(g.iter_inter_slab_edges().is_empty());
}

#[test]
fn absorb_slab_graph() {
    let mut g = WorldGraph::new();
    let s = slab(0, (0, 0));
    assert!(g.absorb(s, &step_graph()));

    let lower = WorldArea::from((s, slab_area(1, 0)));
    let upper = WorldArea::from((s, slab_area(2, 0)));
    assert_eq!(g.iter_nodes(), vec![lower, upper]);
    assert_eq!(g.iter_edges(lower), vec![(upper, edge(2, 1))]);
    assert_eq!(g.iter_edges(upper), vec![(lower, edge(2, 1))]);
    // within one slab
    assert!(g.iter_inter_slab_edges().is_empty());

    // absorbing again replaces, it does not add
    assert!(g.absorb(s, &step_graph()));
    assert_eq!(g.iter_nodes().len(), 2);
    assert_eq!(g.iter_edges(lower), vec![(upper, edge(2, 1))]);

    // absorbing an empty graph of the slab empties it
    assert!(g.absorb(s, &SlabNavGraph::empty()));
    assert!(g.iter_nodes().is_empty());
}

#[test]
fn inter_slab_edges_are_replaced() {
    let mut g = WorldGraph::new();
    let a = slab(0, (0, 0));
    let b = slab(0, (1, 0));
    assert!(g.absorb(a, &step_graph()));
    assert!(g.absorb(b, &step_graph()));
    assert_eq!(g.iter_nodes().len(), 4);

    let links = vec![(slab_area(2, 0), slab_area(2, 0), edge(2, 0))];
    assert!(g.add_inter_slab_edges(a, b, &links));
    let expected = vec![(
        WorldArea::from((a, slab_area(2, 0))),
        WorldArea::from((b, slab_area(2, 0))),
        edge(2, 0),
    )];
    assert_eq!(g.iter_inter_slab_edges(), expected);

    // the same link again replaces the old one
    assert!(g.add_inter_slab_edges(a, b, &links));
    assert_eq!(g.iter_inter_slab_edges(), expected);
    // given the other way round too
    assert!(g.add_inter_slab_edges(b, a, &vec![]));
    assert!(g.iter_inter_slab_edges().is_empty());
    // the edges within the slabs stay
    let upper = WorldArea::from((a, slab_area(2, 0)));
    assert_eq!(g.iter_edges(upper).len(), 1);
}

#[test]
fn inter_slab_edges_add_missing_areas() {
    let mut g = WorldGraph::new();
    let a = slab(1, (0, 0));
    let b = slab(2, (0, 0));
    let links = vec![(slab_area(31, 0), slab_area(0, 3), edge(1, 1))];
    assert!(g.add_inter_slab_edges(a, b, &links));
    let lo = WorldArea::from((a, slab_area(31, 0)));
    let hi = WorldArea::from((b, slab_area(0, 3)));
    assert_eq!(g.iter_nodes(), vec![lo, hi]);
    assert_eq!(g.iter_edges(hi), vec![(lo, edge(1, 1))]);
}

#[test]
fn disconnect_slab_drops_its_areas_and_edges() {
    let mut g = WorldGraph::new();
    let a = slab(0, (0, 0));
    let b = slab(0, (1, 0));
    assert!(g.absorb(a, &step_graph()));
    assert!(g.absorb(b, &step_graph()));
    assert!(g.add_inter_slab_edges(
        a,
        b,
        &vec![(slab_area(2, 0), slab_area(2, 0), edge(2, 0))]
    ));

    g.disconnect_slab(b);
    let lower = WorldArea::from((a, slab_area(1, 0)));
    let upper = WorldArea::from((a, slab_area(2, 0)));
    assert_eq!(g.iter_nodes(), vec![lower, upper]);
    assert!(g.iter_inter_slab_edges().is_empty());
    assert_eq!(g.iter_edges(upper), vec![(lower, edge(2, 1))]);

    // absorbing a slab drops the edges that crossed into it
    assert!(g.absorb(b, &step_graph()));
    assert!(g.add_inter_slab_edges(
        a,
        b,
        &vec![(slab_area(2, 0), slab_area(2, 0), edge(2, 0))]
    ));
    assert_eq!(g.iter_inter_slab_edges().len(), 1);
    assert!(g.absorb(b, &step_graph()));
    assert!(g.iter_inter_slab_edges().is_empty());
}

#[test]
fn path_areas_and_slabs() {
    let a = slab(0, (0, 0));
    let b = slab(1, (0, 0));
    let a1 = WorldArea::from((a, slab_area(1, 0)));
    let a2 = WorldArea::from((a, slab_area(2, 0)));
    let b1 = WorldArea::from((b, slab_area(0, 0)));
    let b2 = WorldArea::from((b, slab_area(4, 1)));
    let path = Path::new(
        vec![(a1, edge(2, 1)), (a2, edge(2, 0)), (b1, edge(3, 0))],
        b2,
    );
    assert_eq!(path.area_count(), 3);
    assert_eq!(path.target(), b2);
    assert_eq!(path.iter_areas(), vec![a1, a2, b1, b2]);
    assert_eq!(path.iter_slabs(), vec![a, b]);
    assert_eq!(path.route().len(), 3);
    assert_eq!(path.route()[1], (a2, edge(2, 0)));

    // already in the goal area
    let here = Path::new(vec![], a1);
    assert_eq!(here.iter_areas(), vec![a1]);
    assert_eq!(here.iter_slabs(), vec![a]);
    assert_eq!(here.area_count(), 0);

    // back into a slab counts it again
    let back = Path::new(vec![(a1, edge(1, 0)), (b1, edge(1, 0))], a2);
    assert_eq!(back.iter_slabs(), vec![a, b, a]);
}

#[test]
fn path_tracker_walks_back_to_the_start() {
    let mut t: PathTracker<u32, u32> = PathTracker::new();
    t.set_predecessor(2, 1, 10);
    t.set_predecessor(3, 2, 20);
    t.set_predecessor(5, 4, 40);

    let mut path = Vec::new();
    t.reconstruct_path_to(3, |n, e| (n, e), &mut path);
    assert_eq!(path, vec![(1, 10), (2, 20)]);

    // a later predecessor replaces an earlier one
    t.set_predecessor(3, 5, 30);
    let mut path = Vec::new();
    t.reconstruct_path_to(3, |n, e| (n * 100, e + 1), &mut path);
    assert_eq!(path, vec![(400, 41), (500, 31)]);

    // the start itself: nothing to walk
    let mut path = Vec::new();
    t.reconstruct_path_to(1, |n, e| (n, e), &mut path);
    assert!(path.is_empty());

    // what was there already ends up reversed after the path
    let mut path = vec![(7, 7), (9, 9)];
    t.reconstruct_path_to(2, |n, e| (n, e), &mut path);
    assert_eq!(path, vec![(1, 10), (9, 9), (7, 7)]);
}

#[test]
fn edge_steps_by_direction() {
    let up = DirectionalSlabNavEdge::new(edge(3, 2), 7, true, 4);
    assert_eq!(up.step(), 2);
    assert_eq!(up.clearance(), 3);
    assert_eq!(up.other_node(), 4);
    let down = DirectionalSlabNavEdge::new(edge(3, 2), 7, false, 1);
    assert_eq!(down.step(), -2);

    assert_eq!(directional_height(5, edge(2, 1), 5), 1);
    assert_eq!(directional_height(5, edge(2, 1), 6), -1);
    assert_eq!(directional_height(5, edge(2, 0), 6), 0);
}
