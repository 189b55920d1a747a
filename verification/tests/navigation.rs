use world::navigation::Navigation;

fn chunk_with(blocks: &[(usize, usize, usize)]) -> Vec<bool> {
    let mut solid = vec![false; 16 * 16 * 16];
    for &(x, y, z) in blocks {
        solid[(z * 16 + y) * 16 + x] = true;
    }
    solid
}

#[test]
fn navigation_simple() {
    let solid = chunk_with(&[(1, 1, 1), (1, 2, 1)]);
    let nav = Navigation::from_chunk(&solid);

    // only 1 on top of each block
    assert_eq!(nav.node_count(), 2);
    assert_eq!(nav.all_edges().len(), 1); // 1 edge because undirected
}

#[test]
fn step_up() {
    let solid = chunk_with(&[(0, 0, 0), (1, 0, 0), (1, 1, 0), (0, 1, 0), (1, 1, 1)]);
    let nav = Navigation::from_chunk(&solid);

    // only 1 on top of each block
    assert_eq!(nav.node_count(), 4);
    assert_eq!(nav.all_edges().len(), 4); // all should be interconnected
}

#[test]
fn impossible_step_up() {
    let solid = chunk_with(&[(1, 1, 1), (1, 2, 3)]);
    let nav = Navigation::from_chunk(&solid);

    assert_eq!(nav.node_count(), 2);
    assert_eq!(nav.all_edges().len(), 0); // unconnected because out of reach
}

#[test]
fn navigation_nodes_are_blocks_above_solid_ones() {
    let solid = chunk_with(&[(1, 1, 1), (1, 2, 1), (5, 5, 14), (7, 7, 15)]);
    let nav = Navigation::from_chunk(&solid);
    // (5, 5, 15) is at the top of the chunk and (7, 7, 16) outside it
    assert_eq!(nav.node_count(), 2);
    let a = nav.resolve_node((1, 1, 2)).expect("standing on (1, 1, 1)");
    let b = nav.resolve_node((1, 2, 2)).expect("standing on (1, 2, 1)");
    assert_eq!(nav.node_position(a), (1, 1, 2));
    assert_eq!(nav.node_position(b), (1, 2, 2));
    assert_eq!(nav.resolve_node((5, 5, 15)), None);
    let edge = nav.all_edges()[0];
    assert_eq!(edge, (a.min(b), a.max(b)));
}

#[test]
fn navigation_simple_path() {
    let solid = chunk_with(&[(1, 1, 1), (1, 2, 1), (1, 3, 1)]);
    let nav = Navigation::from_chunk(&solid);
    let path = nav.find_path((1, 1, 2), (1, 3, 2)).expect("path succeeded");
    assert_eq!(path, vec![(1, 1, 2), (1, 2, 2), (1, 3, 2)]);
}

#[test]
fn navigation_null_path() {
    let solid = chunk_with(&[(1, 1, 1), (1, 2, 1), (1, 3, 1)]);
    let nav = Navigation::from_chunk(&solid);
    assert!(nav.find_path((3, 3, 7), (4, 2, 12)).is_none());
    assert!(nav.find_path((1, 1, 2), (9, 9, 9)).is_none());
    assert!(nav.find_path((9, 9, 9), (1, 3, 2)).is_none());
}

fn floor_with_wall(wall_to_y: usize) -> Vec<bool> {
    let mut blocks = Vec::new();
    for x in 0..16 {
        for y in 0..16 {
            blocks.push((x, y, 0));
        }
    }
    for x in 3..=4 {
        for y in 0..=wall_to_y {
            for z in 0..=4 {
                blocks.push((x, y, z));
            }
        }
    }
    chunk_with(&blocks)
}

#[test]
fn navigation_no_wrapping() {
    let solid = floor_with_wall(0).iter().enumerate().map(|(i, s)| *s && i < 256).collect::<Vec<_>>();
    let nav = Navigation::from_chunk(&solid);
    let node = nav.resolve_node((0, 1, 1)).unwrap();
    let far_far_away = nav.resolve_node((15, 0, 1)).unwrap();

    // there should definitely not be a edge between these 2
    for (s, t) in nav.all_edges() {
        if s == node || t == node {
            assert_ne!(s, far_far_away);
            assert_ne!(t, far_far_away);
        }
    }
}

#[test]
fn navigation_complex_path() {
    // big wall at x=3
    let nav = Navigation::from_chunk(&floor_with_wall(4));
    let path = nav.find_path((0, 0, 1), (8, 0, 1));
    assert!(path.is_some());

    // impassible wall at x=3
    let nav = Navigation::from_chunk(&floor_with_wall(15));
    let path = nav.find_path((0, 0, 1), (8, 0, 1));
    assert!(path.is_none());
}
