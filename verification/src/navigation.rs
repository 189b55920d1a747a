use vstd::prelude::*;

use petgraph::algo::astar;
use petgraph::graph::{Graph, NodeIndex};
use petgraph::visit::EdgeRef;
use petgraph::Undirected;

verus! {

#[verifier::external_type_specification]
#[verifier::external_body]
#[verifier::reject_recursive_types(N)]
#[verifier::reject_recursive_types(E)]
#[verifier::reject_recursive_types(Ty)]
#[verifier::reject_recursive_types(Ix)]
pub struct ExGraph<N, E, Ty, Ix>(Graph<N, E, Ty, Ix>);

/// A block of a chunk, x, y and z.
pub type NavBlock = (u16, u16, u16);

/// The block graph of a chunk as petgraph holds it: each node a block that can be stood on.
pub type NavGraph = Graph<NavBlock, (), Undirected, u32>;

/// The block of each node of the graph, by node index.
pub uninterp spec fn block_graph_nodes(g: NavGraph) -> Seq<NavBlock>;

/// The two ends of each edge of the graph, by edge index, in the order they were given.
pub uninterp spec fn block_graph_edges(g: NavGraph) -> Seq<(u32, u32)>;

/// The most nodes, and the most edges, that the graph's 32-bit indices can number.
pub open spec fn block_graph_index_limit() -> nat {
    0xFFFF_FFFF
}

/// An edge joins the two nodes, either way round.
pub open spec fn edge_joins(edges: Seq<(u32, u32)>, a: u32, b: u32) -> bool {
    edges.contains((a, b)) || edges.contains((b, a))
}

/// `Graph::new_undirected`: a graph with no nodes and no edges.
#[verifier::external_body]
fn block_graph_new() -> (g: NavGraph)
    ensures
        block_graph_nodes(g) == Seq::<NavBlock>::empty(),
        block_graph_edges(g) == Seq::<(u32, u32)>::empty(),
{
    Graph::new_undirected()
}

/// `Graph::add_node`: the node goes at the next index, and its index is returned. It panics only
/// when every index is taken, which `requires` leaves out.
#[verifier::external_body]
fn block_graph_add_node(g: &mut NavGraph, block: NavBlock) -> (r: u32)
    requires
        block_graph_nodes(*old(g)).len() < block_graph_index_limit(),
    ensures
        r == block_graph_nodes(*old(g)).len(),
        block_graph_nodes(*final(g)) == block_graph_nodes(*old(g)).push(block),
        block_graph_edges(*final(g)) == block_graph_edges(*old(g)),
{
    g.add_node(block).index() as u32
}

/// `Graph::update_edge` on an undirected graph with unit weights: where an edge already joins
/// the two nodes, either way round, its weight is set again and nothing else changes; else an
/// edge from `a` to `b` is added at the next index. It panics only for a missing node or when
/// every edge index is taken, which `requires` leaves out.
#[verifier::external_body]
fn block_graph_update_edge(g: &mut NavGraph, a: u32, b: u32)
    requires
        a < block_graph_nodes(*old(g)).len(),
        b < block_graph_nodes(*old(g)).len(),
        block_graph_edges(*old(g)).len() < block_graph_index_limit(),
    ensures
        block_graph_nodes(*final(g)) == block_graph_nodes(*old(g)),
        block_graph_edges(*final(g)) == if edge_joins(block_graph_edges(*old(g)), a, b) {
            block_graph_edges(*old(g))
        } else {
            block_graph_edges(*old(g)).push((a, b))
        },
{
    g.update_edge(NodeIndex::new(a as usize), NodeIndex::new(b as usize), ());
}

/// `Graph::node_count`.
#[verifier::external_body]
fn block_graph_node_count(g: &NavGraph) -> (r: usize)
    ensures
        r == block_graph_nodes(*g).len(),
{
    g.node_count()
}

/// `Graph::node_weight` of a node that is there.
#[verifier::external_body]
fn block_graph_node_weight(g: &NavGraph, i: u32) -> (r: NavBlock)
    requires
        i < block_graph_nodes(*g).len(),
    ensures
        r == block_graph_nodes(*g)[i as int],
{
    *g.node_weight(NodeIndex::new(i as usize)).unwrap()
}

/// `Graph::edge_references`, each edge as its source and target index, in edge index order.
#[verifier::external_body]
fn block_graph_edge_list(g: &NavGraph) -> (r: Vec<(u32, u32)>)
    ensures
        r@ == block_graph_edges(*g),
{
    g.edge_references().map(|e| (e.source().index() as u32, e.target().index() as u32)).collect()
}


/// The path `petgraph::algo::astar` finds through a block graph with these node blocks and
/// edges, from node `start` to node `goal`, each edge costing 1 and each node estimated by
/// [block_distance2] to the goal's block: its total cost and its nodes, if one was found.
pub uninterp spec fn block_astar(nodes: Seq<NavBlock>, edges: Seq<(u32, u32)>, start: u32, goal: u32) -> Option<(i32, Seq<u32>)>;

/// The squared distance between two blocks.
pub open spec fn block_distance2_spec(a: NavBlock, b: NavBlock) -> int {
    let dx = a.0 - b.0;
    let dy = a.1 - b.1;
    let dz = a.2 - b.2;
    dx * dx + dy * dy + dz * dz
}

/// The squared distance between two blocks of a chunk, the search's estimate of the cost from
/// one to the other.
pub fn block_distance2(a: NavBlock, b: NavBlock) -> (r: i32)
    requires
        a.0 < 16 && a.1 < 16 && a.2 < 16,
        b.0 < 16 && b.1 < 16 && b.2 < 16,
    ensures
        r == block_distance2_spec(a, b),
{
    let dx = a.0 as i32 - b.0 as i32;
    let dy = a.1 as i32 - b.1 as i32;
    let dz = a.2 as i32 - b.2 as i32;
    assert(0 <= dx * dx <= 225) by (nonlinear_arith)
        requires
            -15 <= dx <= 15,
    ;
    assert(0 <= dy * dy <= 225) by (nonlinear_arith)
        requires
            -15 <= dy <= 15,
    ;
    assert(0 <= dz * dz <= 225) by (nonlinear_arith)
        requires
            -15 <= dz <= 15,
    ;
    let sx = dx * dx;
    let sy = dy * dy;
    let sz = dz * dz;
    sx + sy + sz
}

/// The search's estimate of the cost from node `n` to the block `goal`.
fn nav_estimate(g: &NavGraph, n: u32, goal: NavBlock) -> i32 {
    if (n as usize) < block_graph_node_count(g) {
        let b = block_graph_node_weight(g, n);
        if b.0 < 16 && b.1 < 16 && b.2 < 16 && goal.0 < 16 && goal.1 < 16 && goal.2 < 16 {
            return block_distance2(b, goal);
        }
    }
    0
}

/// The cost of an edge of the block graph.
fn unit_edge_cost(_weight: ()) -> i32 {
    1
}

/// The node is the goal.
fn is_node(n: u32, goal: u32) -> bool {
    n == goal
}

/// `petgraph::algo::astar` on the block graph from node `start` to the goal node, each edge
/// costing 1 and each node estimated by its squared distance to the goal's block. Its result is
/// named ([block_astar]); the crate documents a result as the total cost and a path from the
/// start to the goal, so a path found starts at the start, ends at the goal, goes along edges,
/// and costs one per edge.
#[verifier::external_body]
fn block_graph_astar(g: &NavGraph, start: u32, goal: u32, goal_block: NavBlock) -> (r: Option<(i32, Vec<u32>)>)
    requires
        start < block_graph_nodes(*g).len(),
        goal < block_graph_nodes(*g).len(),
        goal_block == block_graph_nodes(*g)[goal as int],
    ensures
        r matches Some(found) ==> block_astar(block_graph_nodes(*g), block_graph_edges(*g), start, goal) == Some(
            (found.0, found.1@),
        ),
        r is None ==> block_astar(block_graph_nodes(*g), block_graph_edges(*g), start, goal) is None,
        r matches Some(found) ==> {
            let p = found.1@;
            &&& p.len() >= 1
            &&& p[0] == start
            &&& p.last() == goal
            &&& found.0 == p.len() - 1
            &&& forall|i: int| 0 <= i < p.len() ==> #[trigger] p[i] < block_graph_nodes(*g).len()
            &&& forall|i: int| 0 <= i < p.len() - 1 ==> edge_joins(block_graph_edges(*g), #[trigger] p[i], p[i + 1])
        },
{
    astar(
        g,
        NodeIndex::new(start as usize),
        |n| is_node(n.index() as u32, goal),
        |e| unit_edge_cost(*e.weight()),
        |n| nav_estimate(g, n.index() as u32, goal_block),
    ).map(|(cost, path)| (cost, path.iter().map(|n| n.index() as u32).collect()))
}

/// The number of blocks along each side of the chunk the graph is made from.
pub const NAV_CHUNK_SIZE: u16 = 16;

/// The index of block `(x, y, z)` in the chunk's solid flags.
pub open spec fn nav_index(x: int, y: int, z: int) -> int {
    (z * 16 + y) * 16 + x
}

pub open spec fn in_nav_chunk(x: int, y: int, z: int) -> bool {
    0 <= x < 16 && 0 <= y < 16 && 0 <= z < 16
}

/// A block can be stood in: it is inside the chunk, neither at its bottom nor its top, not
/// solid, and the block below it is solid.
pub open spec fn walkable(solid: Seq<bool>, x: int, y: int, z: int) -> bool {
    &&& in_nav_chunk(x, y, z)
    &&& 0 < z < 15
    &&& !solid[nav_index(x, y, z)]
    &&& solid[nav_index(x, y, z - 1)]
}

/// The four horizontal directions, no corners, in the order they are tried.
pub open spec fn nav_delta(k: int) -> (int, int) {
    if k == 0 {
        (-1, 0)
    } else if k == 1 {
        (0, -1)
    } else if k == 2 {
        (0, 1)
    } else {
        (1, 0)
    }
}

/// The block that a walkable block links to in direction `k`: the neighbour on its level where
/// that is walkable, else the block above that neighbour where that is walkable.
pub open spec fn link_target(solid: Seq<bool>, x: int, y: int, z: int, k: int) -> Option<(int, int, int)> {
    let nx = x + nav_delta(k).0;
    let ny = y + nav_delta(k).1;
    if !(0 <= nx < 16 && 0 <= ny < 16) {
        None
    } else if walkable(solid, nx, ny, z) {
        Some((nx, ny, z))
    } else if walkable(solid, nx, ny, z + 1) {
        Some((nx, ny, z + 1))
    } else {
        None
    }
}

pub open spec fn block_ints(b: NavBlock) -> (int, int, int) {
    (b.0 as int, b.1 as int, b.2 as int)
}

/// Block `a` is walkable and links to block `b` in one of the four directions.
pub open spec fn links(solid: Seq<bool>, a: (int, int, int), b: (int, int, int)) -> bool {
    &&& walkable(solid, a.0, a.1, a.2)
    &&& exists|k: int| 0 <= k < 4 && #[trigger] link_target(solid, a.0, a.1, a.2, k) == Some(b)
}

/// Two blocks are joined in the chunk's graph: one links to the other.
pub open spec fn joined(solid: Seq<bool>, a: (int, int, int), b: (int, int, int)) -> bool {
    links(solid, a, b) || links(solid, b, a)
}

/// Each node is a distinct walkable block, and `node_of` gives the node of each block that has
/// one.
pub open spec fn node_map_ok(solid: Seq<bool>, nodes: Seq<NavBlock>, node_of: Seq<Option<u32>>) -> bool {
    &&& node_of.len() == 4096
    &&& forall|k: int|
        0 <= k < nodes.len() ==> {
            let b = block_ints(#[trigger] nodes[k]);
            &&& walkable(solid, b.0, b.1, b.2)
            &&& node_of[nav_index(b.0, b.1, b.2)] == Some(k as u32)
        }
    &&& forall|q: int|
        0 <= q < 4096 && #[trigger] node_of[q] is Some ==> {
            let k = node_of[q]->0;
            &&& k < nodes.len()
            &&& nav_index(block_ints(nodes[k as int]).0, block_ints(nodes[k as int]).1, block_ints(nodes[k as int]).2) == q
        }
}

/// Each edge joins two distinct nodes, lower index first, whose blocks are joined, and no two
/// edges are the same.
pub open spec fn edges_ok(solid: Seq<bool>, nodes: Seq<NavBlock>, edges: Seq<(u32, u32)>) -> bool {
    &&& forall|e: int|
        0 <= e < edges.len() ==> {
            let (a, b) = #[trigger] edges[e];
            &&& a < b < nodes.len()
            &&& joined(solid, block_ints(nodes[a as int]), block_ints(nodes[b as int]))
        }
    &&& forall|e: int, f: int| 0 <= e < f < edges.len() ==> #[trigger] edges[e] != #[trigger] edges[f]
}

/// The navigation graph of a chunk.
pub struct Navigation {
    graph: NavGraph,
}

impl Navigation {
    /// A chunk's graph has at most five nodes made for each of its blocks.
    #[verifier::type_invariant]
    spec fn bounded(self) -> bool {
        block_graph_nodes(self.graph).len() <= 20480
    }

    /// The block of each node, by node index.
    pub closed spec fn nodes(&self) -> Seq<NavBlock> {
        block_graph_nodes(self.graph)
    }

    /// The two node indices of each edge, by edge index.
    pub closed spec fn edges(&self) -> Seq<(u32, u32)> {
        block_graph_edges(self.graph)
    }
}

fn walkable_at(solid: &[bool], x: u16, y: u16, z: u16) -> (r: bool)
    requires
        solid@.len() == 4096,
        in_nav_chunk(x as int, y as int, z as int),
    ensures
        r == walkable(solid@, x as int, y as int, z as int),
{
    // nothing below or above: nope
    if z == 0 || z >= NAV_CHUNK_SIZE - 1 {
        return false;
    }
    let here = ((z as usize * 16) + y as usize) * 16 + x as usize;
    // solid: nope
    if solid[here] {
        return false;
    }
    // below not solid either: nope
    solid[here - 256]
}

/// The in-chunk neighbour of a block column in the direction, where there is one.
fn get_neighbour(src: (u16, u16), k: usize) -> (r: Option<(u16, u16)>)
    requires
        src.0 < 16,
        src.1 < 16,
        k < 4,
    ensures
        r == if 0 <= src.0 + nav_delta(k as int).0 < 16 && 0 <= src.1 + nav_delta(k as int).1 < 16 {
            Some(((src.0 + nav_delta(k as int).0) as u16, (src.1 + nav_delta(k as int).1) as u16))
        } else {
            None
        },
{
    let (dx, dy): (i32, i32) = if k == 0 {
        (-1, 0)
    } else if k == 1 {
        (0, -1)
    } else if k == 2 {
        (0, 1)
    } else {
        (1, 0)
    };
    let nx: i32 = src.0 as i32 + dx;
    let ny: i32 = src.1 as i32 + dy;
    if 0 <= nx && nx < 16 && 0 <= ny && ny < 16 {
        Some((nx as u16, ny as u16))
    } else {
        None
    }
}

/// The node of a walkable block, made where it has none yet.
fn get_or_create_node(
    graph: &mut NavGraph,
    node_of: &mut Vec<Option<u32>>,
    Ghost(solid): Ghost<Seq<bool>>,
    b: NavBlock,
) -> (r: u32)
    requires
        node_map_ok(solid, block_graph_nodes(*old(graph)), old(node_of)@),
        walkable(solid, b.0 as int, b.1 as int, b.2 as int),
        block_graph_nodes(*old(graph)).len() < block_graph_index_limit(),
    ensures
        node_map_ok(solid, block_graph_nodes(*final(graph)), final(node_of)@),
        block_graph_edges(*final(graph)) == block_graph_edges(*old(graph)),
        block_graph_nodes(*old(graph)).is_prefix_of(block_graph_nodes(*final(graph))),
        block_graph_nodes(*final(graph)).len() <= block_graph_nodes(*old(graph)).len() + 1,
        forall|q: int| 0 <= q < 4096 && (#[trigger] old(node_of)@[q]) is Some ==> final(node_of)@[q] == old(node_of)@[q],
        r < block_graph_nodes(*final(graph)).len(),
        block_graph_nodes(*final(graph))[r as int] == b,
        final(node_of)@[nav_index(b.0 as int, b.1 as int, b.2 as int)] == Some(r),
{
    let q = ((b.2 as usize * 16) + b.1 as usize) * 16 + b.0 as usize;
    match node_of[q] {
        Some(node) => {
            proof {
                let k = node_of@[q as int]->0;
                let nb = block_ints(block_graph_nodes(*graph)[k as int]);
                assert(nav_index(nb.0, nb.1, nb.2) == q);
                assert(block_graph_nodes(*graph)[k as int] == b);
                assert(block_graph_nodes(*graph).is_prefix_of(block_graph_nodes(*graph)));
            }
            node
        },
        None => {
            let ghost old_nodes = block_graph_nodes(*graph);
            let ghost old_map = node_of@;
            let node = block_graph_add_node(graph, b);
            node_of.set(q, Some(node));
            proof {
                let nodes = block_graph_nodes(*graph);
                assert(old_nodes.is_prefix_of(nodes));
                assert forall|k: int| 0 <= k < nodes.len() implies {
                    let c = block_ints(#[trigger] nodes[k]);
                    &&& walkable(solid, c.0, c.1, c.2)
                    &&& node_of@[nav_index(c.0, c.1, c.2)] == Some(k as u32)
                } by {
                    if k < old_nodes.len() {
                        let c = block_ints(old_nodes[k]);
                        assert(old_map[nav_index(c.0, c.1, c.2)] == Some(k as u32));
                    }
                }
                assert forall|p: int| 0 <= p < 4096 && #[trigger] node_of@[p] is Some implies {
                    let k = node_of@[p]->0;
                    &&& k < nodes.len()
                    &&& nav_index(block_ints(nodes[k as int]).0, block_ints(nodes[k as int]).1, block_ints(nodes[k as int]).2) == p
                } by {
                    if p != q {
                        assert(old_map[p] is Some);
                    }
                }
            }
            node
        },
    }
}

/// Joins two nodes whose blocks are joined, lower index first, unless an edge joins them already.
fn add_edge(graph: &mut NavGraph, Ghost(solid): Ghost<Seq<bool>>, a: u32, b: u32)
    requires
        a != b,
        a < block_graph_nodes(*old(graph)).len(),
        b < block_graph_nodes(*old(graph)).len(),
        joined(solid, block_ints(block_graph_nodes(*old(graph))[a as int]), block_ints(block_graph_nodes(*old(graph))[b as int])),
        edges_ok(solid, block_graph_nodes(*old(graph)), block_graph_edges(*old(graph))),
        block_graph_edges(*old(graph)).len() < block_graph_index_limit(),
    ensures
        block_graph_nodes(*final(graph)) == block_graph_nodes(*old(graph)),
        edges_ok(solid, block_graph_nodes(*final(graph)), block_graph_edges(*final(graph))),
        block_graph_edges(*old(graph)).is_prefix_of(block_graph_edges(*final(graph))),
        block_graph_edges(*final(graph)).len() <= block_graph_edges(*old(graph)).len() + 1,
        block_graph_edges(*final(graph)).contains(if a < b { (a, b) } else { (b, a) }),
{
    let (from, to) = if a < b { (a, b) } else { (b, a) };
    let ghost old_edges = block_graph_edges(*graph);
    proof {
        // an edge joining the two either way round is the lower-first one
        if old_edges.contains((to, from)) {
            let e = choose|e: int| 0 <= e < old_edges.len() && old_edges[e] == (to, from);
            assert(old_edges[e].0 < old_edges[e].1);
        }
    }
    block_graph_update_edge(graph, from, to);
    proof {
        let edges = block_graph_edges(*graph);
        assert(old_edges.is_prefix_of(edges));
        if !edge_joins(old_edges, from, to) {
            assert(edges[old_edges.len() as int] == (from, to));
            assert forall|e: int, f: int| 0 <= e < f < edges.len() implies #[trigger] edges[e] != #[trigger] edges[f] by {
                if f == old_edges.len() {
                    assert(old_edges[e] == edges[e]);
                    assert(!old_edges.contains((from, to)));
                }
            }
        }
    }
}

/// Joins a walkable block's node with the block it links to in direction `k`, if any.
#[verifier::rlimit(40)]
#[verifier::spinoff_prover]
fn link_direction(
    graph: &mut NavGraph,
    node_of: &mut Vec<Option<u32>>,
    solid: &[bool],
    b: NavBlock,
    node: u32,
    k: usize,
)
    requires
        solid@.len() == 4096,
        k < 4,
        walkable(solid@, b.0 as int, b.1 as int, b.2 as int),
        node_map_ok(solid@, block_graph_nodes(*old(graph)), old(node_of)@),
        edges_ok(solid@, block_graph_nodes(*old(graph)), block_graph_edges(*old(graph))),
        old(node_of)@[nav_index(b.0 as int, b.1 as int, b.2 as int)] == Some(node),
        block_graph_nodes(*old(graph)).len() < 30000,
        block_graph_edges(*old(graph)).len() < 30000,
    ensures
        node_map_ok(solid@, block_graph_nodes(*final(graph)), final(node_of)@),
        edges_ok(solid@, block_graph_nodes(*final(graph)), block_graph_edges(*final(graph))),
        block_graph_nodes(*final(graph)).len() <= block_graph_nodes(*old(graph)).len() + 1,
        block_graph_edges(*final(graph)).len() <= block_graph_edges(*old(graph)).len() + 1,
        block_graph_edges(*old(graph)).is_prefix_of(block_graph_edges(*final(graph))),
        forall|q: int| 0 <= q < 4096 && (#[trigger] old(node_of)@[q]) is Some ==> final(node_of)@[q] == old(node_of)@[q],
        link_target(solid@, b.0 as int, b.1 as int, b.2 as int, k as int) is Some ==> recorded(
            solid@,
            block_graph_edges(*final(graph)),
            final(node_of)@,
            b.0 as int,
            b.1 as int,
            b.2 as int,
            k as int,
        ),
{
    let ghost sv = solid@;
    let (x, y, z) = b;
    let ghost idx = nav_index(x as int, y as int, z as int);
    assert(block_graph_edges(*graph).is_prefix_of(block_graph_edges(*graph)));
    if let Some((nx, ny)) = get_neighbour((x, y), k) {
        let target: Option<NavBlock> = if walkable_at(solid, nx, ny, z) {
            Some((nx, ny, z))
        } else if walkable_at(solid, nx, ny, z + 1) {
            Some((nx, ny, z + 1))
        } else {
            None
        };
        if let Some(t) = target {
            let ghost map0 = node_of@;
            let other = get_or_create_node(graph, node_of, Ghost(sv), t);
            proof {
                assert(link_target(sv, x as int, y as int, z as int, k as int) == Some(block_ints(t)));
                assert(links(sv, (x as int, y as int, z as int), block_ints(t)));
                assert(map0[idx] is Some);
                assert(node_of@[idx] == Some(node));
                assert(block_graph_nodes(*graph)[node as int] == (x, y, z)) by {
                    let nb = block_ints(block_graph_nodes(*graph)[node as int]);
                    assert(nav_index(nb.0, nb.1, nb.2) == idx);
                }
                assert(node != other) by {
                    assert(nav_index(t.0 as int, t.1 as int, t.2 as int) != idx);
                }
            }
            add_edge(graph, Ghost(sv), node, other);
        }
    }
}

/// Makes the node of the `idx`th block of the chunk if it is walkable, and joins it with each
/// block it links to.
#[verifier::rlimit(60)]
#[verifier::spinoff_prover]
fn visit_block(graph: &mut NavGraph, node_of: &mut Vec<Option<u32>>, solid: &[bool], idx: usize)
    requires
        solid@.len() == 4096,
        idx < 4096,
        node_map_ok(solid@, block_graph_nodes(*old(graph)), old(node_of)@),
        edges_ok(solid@, block_graph_nodes(*old(graph)), block_graph_edges(*old(graph))),
        block_graph_nodes(*old(graph)).len() <= 5 * idx,
        block_graph_edges(*old(graph)).len() <= 4 * idx,
        forall|x: int, y: int, z: int|
            #[trigger] walkable(solid@, x, y, z) && nav_index(x, y, z) < idx ==> old(node_of)@[nav_index(x, y, z)] is Some,
        forall|x: int, y: int, z: int, k: int|
            #[trigger] link_target(solid@, x, y, z, k) is Some && walkable(solid@, x, y, z) && nav_index(x, y, z) < idx && 0 <= k < 4
                ==> recorded(solid@, block_graph_edges(*old(graph)), old(node_of)@, x, y, z, k),
    ensures
        node_map_ok(solid@, block_graph_nodes(*final(graph)), final(node_of)@),
        edges_ok(solid@, block_graph_nodes(*final(graph)), block_graph_edges(*final(graph))),
        block_graph_nodes(*final(graph)).len() <= 5 * (idx + 1),
        block_graph_edges(*final(graph)).len() <= 4 * (idx + 1),
        forall|x: int, y: int, z: int|
            #[trigger] walkable(solid@, x, y, z) && nav_index(x, y, z) < idx + 1 ==> final(node_of)@[nav_index(x, y, z)] is Some,
        forall|x: int, y: int, z: int, k: int|
            #[trigger] link_target(solid@, x, y, z, k) is Some && walkable(solid@, x, y, z) && nav_index(x, y, z) < idx + 1 && 0 <= k < 4
                ==> recorded(solid@, block_graph_edges(*final(graph)), final(node_of)@, x, y, z, k),
{
    let ghost sv = solid@;
    let x = (idx % 16) as u16;
    let y = ((idx / 16) % 16) as u16;
    let z = (idx / 256) as u16;
    assert(nav_index(x as int, y as int, z as int) == idx);
    if walkable_at(solid, x, y, z) {
        let node = get_or_create_node(graph, node_of, Ghost(sv), (x, y, z));
        let mut k: usize = 0;
        while k < 4
            invariant
                sv == solid@,
                sv.len() == 4096,
                idx < 4096,
                k <= 4,
                nav_index(x as int, y as int, z as int) == idx,
                in_nav_chunk(x as int, y as int, z as int),
                walkable(sv, x as int, y as int, z as int),
                node_map_ok(sv, block_graph_nodes(*graph), node_of@),
                edges_ok(sv, block_graph_nodes(*graph), block_graph_edges(*graph)),
                node_of@[idx as int] == Some(node),
                block_graph_nodes(*graph).len() <= 5 * idx + 1 + k,
                block_graph_edges(*graph).len() <= 4 * idx + k,
                forall|x: int, y: int, z: int|
                    #[trigger] walkable(sv, x, y, z) && nav_index(x, y, z) < idx ==> node_of@[nav_index(x, y, z)] is Some,
                forall|x: int, y: int, z: int, j: int|
                    #[trigger] link_target(sv, x, y, z, j) is Some && walkable(sv, x, y, z) && nav_index(x, y, z) < idx && 0 <= j < 4
                        ==> recorded(sv, block_graph_edges(*graph), node_of@, x, y, z, j),
                forall|j: int|
                    0 <= j < k && (#[trigger] link_target(sv, x as int, y as int, z as int, j)) is Some
                        ==> recorded(sv, block_graph_edges(*graph), node_of@, x as int, y as int, z as int, j),
            decreases 4 - k,
        {
            let ghost edges0 = block_graph_edges(*graph);
            let ghost map0 = node_of@;
            link_direction(graph, node_of, solid, (x, y, z), node, k);
            proof {
                lemma_recorded_kept(sv, edges0, block_graph_edges(*graph), map0, node_of@);
            }
            k = k + 1;
        }
    }
}

impl Navigation {
    /// Builds the navigation graph of a chunk from whether each of its blocks is solid, indexed
    /// `(z * 16 + y) * 16 + x`: a node for each walkable block, and an edge between each two
    /// blocks where one links to the other.
    pub fn from_chunk(solid: &[bool]) -> (r: Navigation)
        requires
            solid@.len() == 4096,
        ensures
            forall|k: int|
                0 <= k < r.nodes().len() ==> walkable(
                    solid@,
                    block_ints(#[trigger] r.nodes()[k]).0,
                    block_ints(r.nodes()[k]).1,
                    block_ints(r.nodes()[k]).2,
                ),
            forall|x: int, y: int, z: int| #[trigger]
                walkable(solid@, x, y, z) ==> r.nodes().contains((x as u16, y as u16, z as u16)),
            r.nodes().no_duplicates(),
            edges_ok(solid@, r.nodes(), r.edges()),
            forall|i: int, j: int|
                0 <= i < j < r.nodes().len() && joined(solid@, block_ints(#[trigger] r.nodes()[i]), block_ints(#[trigger] r.nodes()[j]))
                    ==> r.edges().contains((i as u32, j as u32)),
    {
        let ghost sv = solid@;
        let mut graph = block_graph_new();
        let mut node_of: Vec<Option<u32>> = Vec::new();
        while node_of.len() < 4096
            invariant
                node_of.len() <= 4096,
                forall|q: int| 0 <= q < node_of@.len() ==> #[trigger] node_of@[q] is None,
            decreases 4096 - node_of.len(),
        {
            node_of.push(None);
        }
        let mut idx: usize = 0;
        while idx < 4096
            invariant
                sv == solid@,
                sv.len() == 4096,
                idx <= 4096,
                node_map_ok(sv, block_graph_nodes(graph), node_of@),
                edges_ok(sv, block_graph_nodes(graph), block_graph_edges(graph)),
                block_graph_nodes(graph).len() <= 5 * idx,
                block_graph_edges(graph).len() <= 4 * idx,
                forall|x: int, y: int, z: int|
                    #[trigger] walkable(sv, x, y, z) && nav_index(x, y, z) < idx ==> node_of@[nav_index(x, y, z)] is Some,
                forall|x: int, y: int, z: int, k: int|
                    #[trigger] link_target(sv, x, y, z, k) is Some && walkable(sv, x, y, z) && nav_index(x, y, z) < idx && 0 <= k < 4
                        ==> recorded(sv, block_graph_edges(graph), node_of@, x, y, z, k),
            decreases 4096 - idx,
        {
            visit_block(&mut graph, &mut node_of, solid, idx);
            idx = idx + 1;
        }
        let r = Navigation { graph };
        proof {
            let nodes = block_graph_nodes(r.graph);
            let edges = block_graph_edges(r.graph);
            assert forall|x: int, y: int, z: int| #[trigger] walkable(sv, x, y, z) implies nodes.contains((x as u16, y as u16, z as u16)) by {
                let k = node_of@[nav_index(x, y, z)]->0;
                assert(nodes[k as int] == (x as u16, y as u16, z as u16));
            }
            assert forall|i: int, j: int| 0 <= i < j < nodes.len() implies nodes[i] != nodes[j] by {
                assert(node_of@[nav_index(block_ints(nodes[i]).0, block_ints(nodes[i]).1, block_ints(nodes[i]).2)] == Some(i as u32));
                assert(node_of@[nav_index(block_ints(nodes[j]).0, block_ints(nodes[j]).1, block_ints(nodes[j]).2)] == Some(j as u32));
            }
            assert forall|i: int, j: int|
                0 <= i < j < nodes.len() && joined(sv, block_ints(#[trigger] nodes[i]), block_ints(#[trigger] nodes[j]))
                    implies edges.contains((i as u32, j as u32)) by {
                let a = block_ints(nodes[i]);
                let b = block_ints(nodes[j]);
                if links(sv, a, b) {
                    let k = choose|k: int| 0 <= k < 4 && #[trigger] link_target(sv, a.0, a.1, a.2, k) == Some(b);
                    assert(recorded(sv, edges, node_of@, a.0, a.1, a.2, k));
                } else {
                    let k = choose|k: int| 0 <= k < 4 && #[trigger] link_target(sv, b.0, b.1, b.2, k) == Some(a);
                    assert(recorded(sv, edges, node_of@, b.0, b.1, b.2, k));
                }
            }
        }
        r
    }
}

impl Navigation {
    /// The block of a node. Panics where there is no such node, which `requires` leaves out.
    pub fn node_position(&self, idx: u32) -> (r: NavBlock)
        requires
            idx < self.nodes().len(),
        ensures
            r == self.nodes()[idx as int],
    {
        block_graph_node_weight(&self.graph, idx)
    }

    /// The number of nodes.
    pub fn node_count(&self) -> (r: usize)
        ensures
            r == self.nodes().len(),
    {
        block_graph_node_count(&self.graph)
    }

    /// Every edge as its two node indices, in edge index order.
    pub fn all_edges(&self) -> (r: Vec<(u32, u32)>)
        ensures
            r@ == self.edges(),
    {
        block_graph_edge_list(&self.graph)
    }

    /// A path from one block to another through the graph, as `petgraph::algo::astar` finds it
    /// (see [block_astar]): each block of the path, from `from` to `to`, each joined to the
    /// next by an edge. `None` where either block is not a node, or no path was found.
    pub fn find_path(&self, from: NavBlock, to: NavBlock) -> (r: Option<Vec<NavBlock>>)
        ensures
            !self.nodes().contains(from) || !self.nodes().contains(to) ==> r is None,
            r matches Some(path) ==> {
                let p = path@;
                &&& p.len() >= 1
                &&& p[0] == from
                &&& p.last() == to
                &&& forall|i: int|
                    0 <= i < p.len() - 1 ==> exists|a: u32, b: u32|
                        edge_joins(self.edges(), a, b) && self.nodes()[a as int] == #[trigger] p[i]
                            && self.nodes()[b as int] == p[i + 1]
            },
            self.nodes().contains(from) && self.nodes().contains(to) ==> {
                let i = self.first_node_of(from);
                let j = self.first_node_of(to);
                match block_astar(self.nodes(), self.edges(), i, j) {
                    Some(found) => r matches Some(path) && path@ == found.1.map_values(|k: u32| self.nodes()[k as int]),
                    None => r is None,
                }
            },
    {
        proof {
            use_type_invariant(self);
        }
        let (i, j) = match (self.resolve_node(from), self.resolve_node(to)) {
            (Some(i), Some(j)) => (i, j),
            _ => return None,
        };
        proof {
            self.lemma_first_node_of(from, i);
            self.lemma_first_node_of(to, j);
        }
        let goal_block = block_graph_node_weight(&self.graph, j);
        match block_graph_astar(&self.graph, i, j, goal_block) {
            Some((_cost, nodes)) => {
                let ghost p = nodes@;
                let mut out: Vec<NavBlock> = Vec::new();
                let mut k: usize = 0;
                while k < nodes.len()
                    invariant
                        k <= nodes@.len(),
                        nodes@ == p,
                        p.len() >= 1,
                        p[0] == i,
                        p.last() == j,
                        forall|a: int| 0 <= a < p.len() - 1 ==> edge_joins(self.edges(), #[trigger] p[a], p[a + 1]),
                        self.edges() == block_graph_edges(self.graph),
                        self.nodes() == block_graph_nodes(self.graph),
                        out@.len() == k,
                        forall|a: int| 0 <= a < k ==> #[trigger] out@[a] == self.nodes()[p[a] as int],
                        forall|a: int| 0 <= a < p.len() ==> (#[trigger] p[a]) < self.nodes().len(),
                    decreases nodes@.len() - k,
                {
                    out.push(block_graph_node_weight(&self.graph, nodes[k]));
                    k = k + 1;
                }
                proof {
                    assert(out@ =~= p.map_values(|k: u32| self.nodes()[k as int]));
                    assert forall|a: int| 0 <= a < out@.len() - 1 implies exists|x: u32, y: u32|
                        edge_joins(self.edges(), x, y) && self.nodes()[x as int] == #[trigger] out@[a]
                            && self.nodes()[y as int] == out@[a + 1] by {
                        assert(edge_joins(self.edges(), p[a], p[a + 1]));
                    }
                }
                Some(out)
            },
            None => None,
        }
    }

    /// The first node whose block is the given one.
    pub closed spec fn first_node_of(&self, block: NavBlock) -> u32 {
        (choose|i: int| 0 <= i < self.nodes().len() && self.nodes()[i] == block && forall|j: int| 0 <= j < i ==> self.nodes()[j] != block) as u32
    }

    proof fn lemma_first_node_of(&self, block: NavBlock, i: u32)
        requires
            i < self.nodes().len(),
            self.nodes()[i as int] == block,
            forall|j: int| 0 <= j < i ==> self.nodes()[j] != block,
        ensures
            self.first_node_of(block) == i,
    {
        let c = choose|c: int| 0 <= c < self.nodes().len() && self.nodes()[c] == block && forall|j: int| 0 <= j < c ==> self.nodes()[j] != block;
        assert(c == i) by {
            if c < i {
                assert(self.nodes()[c] != block);
            } else if c > i {
                assert(self.nodes()[i as int] != block);
            }
        }
    }

    /// The first node whose block is the given one, if any.
    pub fn resolve_node(&self, block: NavBlock) -> (r: Option<u32>)
        ensures
            match r {
                Some(i) => i < self.nodes().len() && self.nodes()[i as int] == block && forall|j: int|
                    0 <= j < i ==> self.nodes()[j] != block,
                None => !self.nodes().contains(block),
            },
    {
        proof {
            use_type_invariant(self);
        }
        let n = block_graph_node_count(&self.graph);
        let mut i: usize = 0;
        while i < n
            invariant
                n == self.nodes().len(),
                n <= 20480,
                i <= n,
                forall|j: int| 0 <= j < i ==> self.nodes()[j] != block,
            decreases n - i,
        {
            let w = block_graph_node_weight(&self.graph, i as u32);
            if w.0 == block.0 && w.1 == block.1 && w.2 == block.2 {
                return Some(i as u32);
            }
            i = i + 1;
        }
        None
    }
}

/// The link of walkable block `(x, y, z)` in direction `k` is an edge: both blocks have nodes,
/// and an edge joins them lower index first.
pub open spec fn recorded(solid: Seq<bool>, edges: Seq<(u32, u32)>, node_of: Seq<Option<u32>>, x: int, y: int, z: int, k: int) -> bool {
    let t = link_target(solid, x, y, z, k)->0;
    let a = node_of[nav_index(x, y, z)];
    let b = node_of[nav_index(t.0, t.1, t.2)];
    &&& a is Some
    &&& b is Some
    &&& edges.contains(if a->0 < b->0 { (a->0, b->0) } else { (b->0, a->0) })
}

proof fn lemma_recorded_kept(
    solid: Seq<bool>,
    edges0: Seq<(u32, u32)>,
    edges1: Seq<(u32, u32)>,
    map0: Seq<Option<u32>>,
    map1: Seq<Option<u32>>,
)
    requires
        edges0.is_prefix_of(edges1),
        map0.len() == 4096,
        map1.len() == 4096,
        forall|q: int| 0 <= q < 4096 && (#[trigger] map0[q]) is Some ==> map1[q] == map0[q],
    ensures
        forall|x: int, y: int, z: int, k: int|
            link_target(solid, x, y, z, k) is Some && walkable(solid, x, y, z) && 0 <= k < 4
                && #[trigger] recorded(solid, edges0, map0, x, y, z, k) ==> recorded(solid, edges1, map1, x, y, z, k),
{
    assert forall|x: int, y: int, z: int, k: int|
        link_target(solid, x, y, z, k) is Some && walkable(solid, x, y, z) && 0 <= k < 4
            && #[trigger] recorded(solid, edges0, map0, x, y, z, k) implies recorded(solid, edges1, map1, x, y, z, k) by {
        let t = link_target(solid, x, y, z, k)->0;
        assert(in_nav_chunk(t.0, t.1, t.2));
        let a = map0[nav_index(x, y, z)]->0;
        let b = map0[nav_index(t.0, t.1, t.2)]->0;
        let p = if a < b { (a, b) } else { (b, a) };
        let e = choose|e: int| 0 <= e < edges0.len() && edges0[e] == p;
        assert(edges1[e] == p);
    }
}

} // verus!
