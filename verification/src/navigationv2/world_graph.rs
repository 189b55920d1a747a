use vstd::prelude::*;

use crate::navigationv2::{
    directed_step, nav_edge_of, slab_area_of, ChunkArea, EdgeEntry, NodeKey, SlabArea, SlabNavEdge, SlabNavGraph,
    WorldArea,
};
use crate::slab::SlabLocation;
use petgraph::stable_graph::{EdgeIndex, NodeIndex, StableGraph};
use petgraph::visit::EdgeRef;
use petgraph::Undirected;
use std::collections::HashMap;

verus! {

#[verifier::external_type_specification]
#[verifier::external_body]
#[verifier::reject_recursive_types(N)]
#[verifier::reject_recursive_types(E)]
#[verifier::reject_recursive_types(Ty)]
#[verifier::reject_recursive_types(Ix)]
pub struct ExStableGraph<N, E, Ty, Ix>(StableGraph<N, E, Ty, Ix>);

#[verifier::external_type_specification]
#[verifier::external_body]
pub struct ExUndirected(Undirected);

/// The world's graph of areas as petgraph holds it.
pub type WorldNavGraphType = StableGraph<WorldArea, SlabNavEdge, Undirected, u32>;

/// The edges of a graph by index: the indices of each edge's two nodes and its weight.
pub type NavEdgeMap = Map<u32, (u32, u32, SlabNavEdge)>;

/// The nodes of a graph by index: the area of each node.
pub type NavNodeMap = Map<u32, WorldArea>;

/// The nodes of the graph: each node's index and its area.
pub uninterp spec fn nav_graph_nodes(g: WorldNavGraphType) -> NavNodeMap;

/// The edges of the graph: each edge's index, the indices of its two nodes in the order they
/// were given when it was added, and its weight.
pub uninterp spec fn nav_graph_edges(g: WorldNavGraphType) -> NavEdgeMap;

/// The edges that do not touch node `i`.
pub open spec fn edges_without_node(edges: NavEdgeMap, i: u32) -> NavEdgeMap {
    edges.restrict(edges.dom().filter(|e: u32| edges[e].0 != i && edges[e].1 != i))
}

/// `StableGraph::default`: a graph with no nodes and no edges.
#[verifier::external_body]
fn nav_graph_new() -> (g: WorldNavGraphType)
    ensures
        nav_graph_nodes(g) == NavNodeMap::empty(),
        nav_graph_edges(g) == NavEdgeMap::empty(),
{
    StableGraph::default()
}

/// The most nodes, and the most edges, that the graph's 32-bit indices can number: every index
/// but the largest, which stands for no node or edge.
pub open spec fn graph_index_limit() -> nat {
    0xFFFF_FFFF
}

/// `StableGraph::try_add_node`: the node takes an index that no node holds, and that index
/// comes back; `None` only when the graph is at the most nodes its 32-bit indices can number
/// (the crate documents the error for that case alone), the nodes then unchanged. The edges
/// stay.
#[verifier::external_body]
fn nav_graph_try_add_node(g: &mut WorldNavGraphType, area: WorldArea) -> (r: Option<u32>)
    ensures
        match r {
            Some(i) => !nav_graph_nodes(*old(g)).dom().contains(i) && nav_graph_nodes(*final(g))
                == nav_graph_nodes(*old(g)).insert(i, area),
            None => nav_graph_nodes(*final(g)) == nav_graph_nodes(*old(g))
                && nav_graph_nodes(*old(g)).dom().len() >= graph_index_limit(),
        },
        nav_graph_edges(*final(g)) == nav_graph_edges(*old(g)),
{
    match g.try_add_node(area) {
        Ok(i) => Some(i.index() as u32),
        Err(_) => None,
    }
}

/// `StableGraph::remove_node`: a node that is there leaves with every edge that touches it,
/// and its area comes back; otherwise nothing changes and `None` comes back.
#[verifier::external_body]
fn nav_graph_remove_node(g: &mut WorldNavGraphType, i: u32) -> (r: Option<WorldArea>)
    ensures
        nav_graph_nodes(*old(g)).dom().contains(i) ==> {
            &&& r == Some(nav_graph_nodes(*old(g))[i])
            &&& nav_graph_nodes(*final(g)) == nav_graph_nodes(*old(g)).remove(i)
            &&& nav_graph_edges(*final(g)) == edges_without_node(nav_graph_edges(*old(g)), i)
        },
        !nav_graph_nodes(*old(g)).dom().contains(i) ==> {
            &&& r is None
            &&& nav_graph_nodes(*final(g)) == nav_graph_nodes(*old(g))
            &&& nav_graph_edges(*final(g)) == nav_graph_edges(*old(g))
        },
{
    g.remove_node(NodeIndex::new(i as usize))
}

/// `StableGraph::try_add_edge` between two nodes that are there: the edge takes an index that
/// no edge holds, and that index comes back; `None` only when the graph is at the most edges
/// its 32-bit indices can number (the crate documents that error, and one for a missing node,
/// which the nodes being there rules out), the edges then unchanged. The nodes stay.
#[verifier::external_body]
fn nav_graph_try_add_edge(g: &mut WorldNavGraphType, a: u32, b: u32, weight: SlabNavEdge) -> (r: Option<u32>)
    requires
        nav_graph_nodes(*old(g)).dom().contains(a),
        nav_graph_nodes(*old(g)).dom().contains(b),
    ensures
        match r {
            Some(e) => !nav_graph_edges(*old(g)).dom().contains(e) && nav_graph_edges(*final(g))
                == nav_graph_edges(*old(g)).insert(e, (a, b, weight)),
            None => nav_graph_edges(*final(g)) == nav_graph_edges(*old(g))
                && nav_graph_edges(*old(g)).dom().len() >= graph_index_limit(),
        },
        nav_graph_nodes(*final(g)) == nav_graph_nodes(*old(g)),
{
    match g.try_add_edge(NodeIndex::new(a as usize), NodeIndex::new(b as usize), weight) {
        Ok(e) => Some(e.index() as u32),
        Err(_) => None,
    }
}

/// `StableGraph::remove_edge`: an edge that is there leaves and its weight comes back;
/// otherwise nothing changes and `None` comes back. The nodes stay.
#[verifier::external_body]
fn nav_graph_remove_edge(g: &mut WorldNavGraphType, e: u32) -> (r: Option<SlabNavEdge>)
    ensures
        nav_graph_edges(*old(g)).dom().contains(e) ==> r == Some(nav_graph_edges(*old(g))[e].2)
            && nav_graph_edges(*final(g)) == nav_graph_edges(*old(g)).remove(e),
        !nav_graph_edges(*old(g)).dom().contains(e) ==> r is None && nav_graph_edges(*final(g))
            == nav_graph_edges(*old(g)),
        nav_graph_nodes(*final(g)) == nav_graph_nodes(*old(g)),
{
    g.remove_edge(EdgeIndex::new(e as usize))
}

/// `StableGraph::node_weight`: the area of a node that is there.
#[verifier::external_body]
fn nav_graph_node_weight(g: &WorldNavGraphType, i: u32) -> (r: Option<WorldArea>)
    ensures
        r == if nav_graph_nodes(*g).dom().contains(i) {
            Some(nav_graph_nodes(*g)[i])
        } else {
            None
        },
{
    g.node_weight(NodeIndex::new(i as usize)).copied()
}

/// `StableGraph::edge_weight`: the weight of an edge that is there.
#[verifier::external_body]
fn nav_graph_edge_weight(g: &WorldNavGraphType, e: u32) -> (r: Option<SlabNavEdge>)
    ensures
        r == if nav_graph_edges(*g).dom().contains(e) {
            Some(nav_graph_edges(*g)[e].2)
        } else {
            None
        },
{
    g.edge_weight(EdgeIndex::new(e as usize)).copied()
}

/// `StableGraph::edge_endpoints`: the two nodes of an edge that is there, in the order they
/// were given when it was added.
#[verifier::external_body]
fn nav_graph_edge_endpoints(g: &WorldNavGraphType, e: u32) -> (r: Option<(u32, u32)>)
    ensures
        r == if nav_graph_edges(*g).dom().contains(e) {
            Some((nav_graph_edges(*g)[e].0, nav_graph_edges(*g)[e].1))
        } else {
            None
        },
{
    g.edge_endpoints(EdgeIndex::new(e as usize)).map(|(a, b)| (a.index() as u32, b.index() as u32))
}

/// The indices are exactly those of the map, in increasing order.
pub open spec fn indices_of<V>(r: Seq<u32>, m: Map<u32, V>) -> bool {
    &&& forall|i: u32| #[trigger] m.dom().contains(i) <==> r.contains(i)
    &&& forall|j: int, k: int| 0 <= j < k < r.len() ==> #[trigger] r[j] < #[trigger] r[k]
}

/// `StableGraph::node_indices`: the indices of the nodes, in increasing order.
#[verifier::external_body]
fn nav_graph_node_indices(g: &WorldNavGraphType) -> (r: Vec<u32>)
    ensures
        indices_of(r@, nav_graph_nodes(*g)),
{
    g.node_indices().map(|i| i.index() as u32).collect()
}

/// `StableGraph::edge_indices`: the indices of the edges, in increasing order.
#[verifier::external_body]
fn nav_graph_edge_indices(g: &WorldNavGraphType) -> (r: Vec<u32>)
    ensures
        indices_of(r@, nav_graph_edges(*g)),
{
    g.edge_indices().map(|e| e.index() as u32).collect()
}

/// `StableGraph::edges` of node `i`: each edge that touches the node once, as its index, its
/// source, which is the node, its target, which is the edge's other node, and its weight. The
/// order is left unsaid.
#[verifier::external_body]
fn nav_graph_edges_of(g: &WorldNavGraphType, i: u32) -> (r: Vec<(u32, u32, u32, SlabNavEdge)>)
    ensures
        forall|j: int|
            0 <= j < r@.len() ==> {
                let (e, s, t, w) = #[trigger] r@[j];
                &&& s == i
                &&& nav_graph_edges(*g).dom().contains(e)
                &&& nav_graph_edges(*g)[e] == (i, t, w) || nav_graph_edges(*g)[e] == (t, i, w)
            },
        forall|j: int, k: int| 0 <= j < k < r@.len() ==> #[trigger] r@[j].0 != #[trigger] r@[k].0,
        forall|e: u32|
            #[trigger] nav_graph_edges(*g).dom().contains(e) && (nav_graph_edges(*g)[e].0 == i
                || nav_graph_edges(*g)[e].1 == i) ==> exists|j: int| 0 <= j < r@.len() && r@[j].0 == e,
{
    g.edges(NodeIndex::new(i as usize)).map(
        |e| (e.id().index() as u32, e.source().index() as u32, e.target().index() as u32, *e.weight()),
    ).collect()
}

/// The slab a world area lies in.
pub open spec fn area_slab(a: WorldArea) -> SlabLocation {
    SlabLocation { slab: a.chunk_area.slab_idx, chunk: a.chunk_idx }
}

/// The world area of an area of the given slab.
pub open spec fn world_area_of(slab: SlabLocation, a: SlabArea) -> WorldArea {
    WorldArea { chunk_idx: slab.chunk, chunk_area: ChunkArea { slab_idx: slab.slab, slab_area: a } }
}

impl WorldArea {
    /// The slab the area lies in.
    pub fn slab(&self) -> (r: SlabLocation)
        ensures
            r == area_slab(*self),
    {
        SlabLocation { chunk: self.chunk_idx, slab: self.chunk_area.slab_idx }
    }
}

impl From<(SlabLocation, SlabArea)> for WorldArea {
    fn from(v: (SlabLocation, SlabArea)) -> (r: Self) {
        let (slab, area) = v;
        WorldArea { chunk_idx: slab.chunk, chunk_area: ChunkArea { slab_idx: slab.slab, slab_area: area } }
    }
}

impl vstd::std_specs::convert::FromSpecImpl<(SlabLocation, SlabArea)> for WorldArea {
    open spec fn obeys_from_spec() -> bool {
        true
    }

    open spec fn from_spec(v: (SlabLocation, SlabArea)) -> Self {
        world_area_of(v.0, v.1)
    }
}

/// The number under which the graph files a world area: its chunk, slab, slice and index in
/// the slice, each shifted into a range of its own.
pub open spec fn area_key_int(a: WorldArea) -> int {
    let c0 = a.chunk_idx.0 as int + 0x8000_0000;
    let c1 = a.chunk_idx.1 as int + 0x8000_0000;
    let s = a.chunk_area.slab_idx as int + 0x8000_0000;
    let z = a.chunk_area.slab_area.slice_idx as int;
    let n = a.chunk_area.slab_area.slice_area.0 as int;
    (((c0 * 0x1_0000_0000 + c1) * 0x1_0000_0000 + s) * 256 + z) * 256 + n
}

/// The number under which the graph files a world area, as the key of its index map.
pub open spec fn area_key(a: WorldArea) -> u128 {
    area_key_int(a) as u128
}

/// The number fits the key type.
proof fn lemma_area_key_bounds(a: WorldArea)
    ensures
        0 <= area_key_int(a) < 0x1_0000_0000_0000_0000_0000_0000_0000,
        area_key(a) as int == area_key_int(a),
{
    let c0 = a.chunk_idx.0 as int + 0x8000_0000;
    let c1 = a.chunk_idx.1 as int + 0x8000_0000;
    let s = a.chunk_area.slab_idx as int + 0x8000_0000;
    let z = a.chunk_area.slab_area.slice_idx as int;
    let n = a.chunk_area.slab_area.slice_area.0 as int;
    assert(0 <= c0 * 0x1_0000_0000 + c1 < 0x1_0000_0000_0000_0000) by (nonlinear_arith)
        requires
            0 <= c0 < 0x1_0000_0000,
            0 <= c1 < 0x1_0000_0000,
    ;
    assert(0 <= (c0 * 0x1_0000_0000 + c1) * 0x1_0000_0000 + s < 0x1_0000_0000_0000_0000_0000_0000)
        by (nonlinear_arith)
        requires
            0 <= c0 * 0x1_0000_0000 + c1 < 0x1_0000_0000_0000_0000,
            0 <= s < 0x1_0000_0000,
    ;
}

fn area_key_of(a: WorldArea) -> (k: u128)
    ensures
        k == area_key(a),
{
    proof {
        lemma_area_key_bounds(a);
    }
    let c0 = (a.chunk_idx.0 as i64 + 0x8000_0000) as u128;
    let c1 = (a.chunk_idx.1 as i64 + 0x8000_0000) as u128;
    let s = (a.chunk_area.slab_idx as i64 + 0x8000_0000) as u128;
    let z = a.chunk_area.slab_area.slice_idx as u128;
    let n = a.chunk_area.slab_area.slice_area.0 as u128;
    proof {
        assert(c0 * 0x1_0000_0000 + c1 < 0x1_0000_0000_0000_0000) by (nonlinear_arith)
            requires
                c0 < 0x1_0000_0000,
                c1 < 0x1_0000_0000,
        ;
        assert((c0 * 0x1_0000_0000 + c1) * 0x1_0000_0000 + s < 0x1_0000_0000_0000_0000_0000_0000)
            by (nonlinear_arith)
            requires
                c0 * 0x1_0000_0000 + c1 < 0x1_0000_0000_0000_0000,
                s < 0x1_0000_0000,
        ;
    }
    (((c0 * 0x1_0000_0000 + c1) * 0x1_0000_0000 + s) * 256 + z) * 256 + n
}

/// Splits a number into its last digit in base `d` and what comes before.
pub(crate) proof fn lemma_digit(x: int, y: int, d: int, qx: int, rx: int, qy: int, ry: int)
    requires
        d > 0,
        0 <= rx < d,
        0 <= ry < d,
        x == qx * d + rx,
        y == qy * d + ry,
        x == y,
    ensures
        qx == qy,
        rx == ry,
{
    vstd::arithmetic::div_mod::lemma_fundamental_div_mod_converse(x, d, qx, rx);
    vstd::arithmetic::div_mod::lemma_fundamental_div_mod_converse(y, d, qy, ry);
}

/// Different world areas are filed under different numbers.
pub proof fn lemma_area_key_injective(a: WorldArea, b: WorldArea)
    requires
        area_key(a) == area_key(b),
    ensures
        a == b,
{
    lemma_area_key_bounds(a);
    lemma_area_key_bounds(b);
    let ca0 = a.chunk_idx.0 as int + 0x8000_0000;
    let ca1 = a.chunk_idx.1 as int + 0x8000_0000;
    let sa = a.chunk_area.slab_idx as int + 0x8000_0000;
    let za = a.chunk_area.slab_area.slice_idx as int;
    let na = a.chunk_area.slab_area.slice_area.0 as int;
    let cb0 = b.chunk_idx.0 as int + 0x8000_0000;
    let cb1 = b.chunk_idx.1 as int + 0x8000_0000;
    let sb = b.chunk_area.slab_idx as int + 0x8000_0000;
    let zb = b.chunk_area.slab_area.slice_idx as int;
    let nb = b.chunk_area.slab_area.slice_area.0 as int;
    let wa = ca0 * 0x1_0000_0000 + ca1;
    let wb = cb0 * 0x1_0000_0000 + cb1;
    let ya = wa * 0x1_0000_0000 + sa;
    let yb = wb * 0x1_0000_0000 + sb;
    let xa = ya * 256 + za;
    let xb = yb * 256 + zb;
    lemma_digit(xa * 256 + na, xb * 256 + nb, 256, xa, na, xb, nb);
    lemma_digit(xa, xb, 256, ya, za, yb, zb);
    lemma_digit(ya, yb, 0x1_0000_0000, wa, sa, wb, sb);
    lemma_digit(wa, wb, 0x1_0000_0000, ca0, ca1, cb0, cb1);
    assert(a.chunk_area.slab_area.slice_area == b.chunk_area.slab_area.slice_area);
    assert(a.chunk_area.slab_area == b.chunk_area.slab_area);
    assert(a.chunk_area == b.chunk_area);
    assert(a.chunk_idx == b.chunk_idx);
}

/// The graph of the areas of the loaded world and the edges between them, within a slab and
/// across slab borders.
pub struct WorldGraph {
    graph: WorldNavGraphType,
    /// The node index of each area, filed under the area's number (see [area_key]).
    nodes: HashMap<u128, u32>,
}

/// The area at each end of an edge, and its weight.
pub open spec fn edge_triple(
    node_areas: NavNodeMap,
    edge: (u32, u32, SlabNavEdge),
) -> (WorldArea, WorldArea, SlabNavEdge) {
    (node_areas[edge.0], node_areas[edge.1], edge.2)
}

/// Some edge of the map joins the two areas, in that order, with that weight.
pub open spec fn has_edge_in(
    node_areas: NavNodeMap,
    edges: NavEdgeMap,
    t: (WorldArea, WorldArea, SlabNavEdge),
) -> bool {
    exists|e: u32| #[trigger] edges.dom().contains(e) && edge_triple(node_areas, edges[e]) == t
}

/// Every edge of the map joins nodes of the node map.
pub open spec fn edges_within(node_areas: NavNodeMap, edges: NavEdgeMap) -> bool {
    forall|e: u32|
        #[trigger] edges.dom().contains(e) ==> node_areas.dom().contains(edges[e].0)
            && node_areas.dom().contains(edges[e].1)
}

/// A node added at a new index, or given again its own area, changes no edge's areas.
proof fn lemma_edges_after_add_node(n0: NavNodeMap, edges: NavEdgeMap, i: u32, area: WorldArea)
    requires
        edges_within(n0, edges),
        !n0.dom().contains(i) || n0[i] == area,
    ensures
        forall|t: (WorldArea, WorldArea, SlabNavEdge)|
            #[trigger] has_edge_in(n0.insert(i, area), edges, t) == has_edge_in(n0, edges, t),
{
    let n1 = n0.insert(i, area);
    assert forall|e: u32| #[trigger] edges.dom().contains(e) implies edge_triple(n1, edges[e])
        == edge_triple(n0, edges[e]) by {}
    assert forall|t: (WorldArea, WorldArea, SlabNavEdge)|
        #[trigger] has_edge_in(n1, edges, t) == has_edge_in(n0, edges, t) by {
        if has_edge_in(n1, edges, t) {
            let e = choose|e: u32| #[trigger] edges.dom().contains(e) && edge_triple(n1, edges[e]) == t;
            assert(edge_triple(n0, edges[e]) == t);
        }
        if has_edge_in(n0, edges, t) {
            let e = choose|e: u32| #[trigger] edges.dom().contains(e) && edge_triple(n0, edges[e]) == t;
            assert(edge_triple(n1, edges[e]) == t);
        }
    }
}

/// An edge added at a new index adds its own areas and weight and changes no other edge's.
proof fn lemma_edges_after_add_edge(
    nodes: NavNodeMap,
    e0: NavEdgeMap,
    x: u32,
    edge: (u32, u32, SlabNavEdge),
)
    requires
        !e0.dom().contains(x),
    ensures
        forall|t: (WorldArea, WorldArea, SlabNavEdge)|
            #[trigger] has_edge_in(nodes, e0.insert(x, edge), t) == (has_edge_in(nodes, e0, t) || t
                == edge_triple(nodes, edge)),
{
    let e1 = e0.insert(x, edge);
    assert forall|t: (WorldArea, WorldArea, SlabNavEdge)|
        #[trigger] has_edge_in(nodes, e1, t) == (has_edge_in(nodes, e0, t) || t == edge_triple(nodes, edge)) by {
        if has_edge_in(nodes, e1, t) {
            let e = choose|e: u32| #[trigger] e1.dom().contains(e) && edge_triple(nodes, e1[e]) == t;
            if e != x {
                assert(e0.dom().contains(e));
            }
        }
        if has_edge_in(nodes, e0, t) {
            let e = choose|e: u32| #[trigger] e0.dom().contains(e) && edge_triple(nodes, e0[e]) == t;
            assert(e1.dom().contains(e) && e1[e] == e0[e]);
        }
        if t == edge_triple(nodes, edge) {
            assert(e1.dom().contains(x));
        }
    }
}

/// Taking out the nodes of a slab takes out exactly the edges with an area in the slab.
proof fn lemma_edges_after_disconnect(n0: NavNodeMap, e0: NavEdgeMap, slab: SlabLocation)
    requires
        edges_within(n0, e0),
    ensures
        forall|t: (WorldArea, WorldArea, SlabNavEdge)|
            #[trigger] has_edge_in(
                nodes_except(n0, slab_nodes(n0, slab)),
                edges_except(e0, slab_nodes(n0, slab)),
                t,
            ) == (has_edge_in(n0, e0, t) && area_slab(t.0) != slab && area_slab(t.1) != slab),
{
    let g = slab_nodes(n0, slab);
    let n1 = nodes_except(n0, g);
    let e1 = edges_except(e0, g);
    assert forall|t: (WorldArea, WorldArea, SlabNavEdge)|
        #[trigger] has_edge_in(n1, e1, t) == (has_edge_in(n0, e0, t) && area_slab(t.0) != slab
            && area_slab(t.1) != slab) by {
        if has_edge_in(n1, e1, t) {
            let e = choose|e: u32| #[trigger] e1.dom().contains(e) && edge_triple(n1, e1[e]) == t;
            assert(e0.dom().contains(e));
            assert(edge_triple(n0, e0[e]) == t);
        }
        if has_edge_in(n0, e0, t) && area_slab(t.0) != slab && area_slab(t.1) != slab {
            let e = choose|e: u32| #[trigger] e0.dom().contains(e) && edge_triple(n0, e0[e]) == t;
            assert(!g.contains(e0[e].0) && !g.contains(e0[e].1));
            assert(e1.dom().contains(e));
            assert(edge_triple(n1, e1[e]) == t);
        }
    }
}

impl WorldGraph {
    /// The area of each node, by node index.
    pub closed spec fn node_areas(&self) -> NavNodeMap {
        nav_graph_nodes(self.graph)
    }

    /// Each edge by edge index: the indices of its two nodes and its weight.
    pub closed spec fn edge_map(&self) -> NavEdgeMap {
        nav_graph_edges(self.graph)
    }

    /// The graph holds as many nodes, or as many edges, as its indices can number, so that one
    /// more may not fit.
    pub open spec fn is_full(&self) -> bool {
        ||| self.node_count() >= graph_index_limit()
        ||| self.edge_count() >= graph_index_limit()
    }

    /// How many nodes the graph has.
    pub open spec fn node_count(&self) -> nat {
        self.node_areas().dom().len()
    }

    /// How many edges the graph has.
    pub open spec fn edge_count(&self) -> nat {
        self.edge_map().dom().len()
    }

    /// The node index of each area in the graph.
    pub closed spec fn area_nodes(&self) -> Map<WorldArea, u32> {
        Map::new(
            |a: WorldArea| self.nodes@.contains_key(area_key(a)),
            |a: WorldArea| self.nodes@[area_key(a)],
        )
    }

    /// The area is a node of the graph.
    pub open spec fn has_area(&self, a: WorldArea) -> bool {
        self.area_nodes().contains_key(a)
    }

    /// Some edge joins the two areas, in that order, with that weight.
    pub open spec fn has_edge(&self, t: (WorldArea, WorldArea, SlabNavEdge)) -> bool {
        has_edge_in(self.node_areas(), self.edge_map(), t)
    }

    /// Every area is filed under its own number and its node's index; every edge joins nodes
    /// that are there; there are finitely many nodes and edges.
    pub closed spec fn wf(&self) -> bool {
        let g = nav_graph_nodes(self.graph);
        let m = self.nodes@;
        &&& forall|k: u128|
            #[trigger] m.contains_key(k) ==> g.dom().contains(m[k]) && area_key(g[m[k]]) == k
        &&& forall|i: u32|
            #[trigger] g.dom().contains(i) ==> m.contains_key(area_key(g[i])) && m[area_key(g[i])]
                == i
        &&& forall|e: u32|
            #[trigger] nav_graph_edges(self.graph).dom().contains(e) ==> g.dom().contains(
                nav_graph_edges(self.graph)[e].0,
            ) && g.dom().contains(nav_graph_edges(self.graph)[e].1)
        &&& g.dom().finite()
        &&& nav_graph_edges(self.graph).dom().finite()
    }

    /// In a well-formed graph the areas and the nodes match one for one, and every edge joins
    /// nodes that are there.
    pub proof fn lemma_wf(&self)
        requires
            self.wf(),
        ensures
            forall|a: WorldArea|
                #[trigger] self.area_nodes().contains_key(a) ==> self.node_areas().dom().contains(
                    self.area_nodes()[a],
                ) && self.node_areas()[self.area_nodes()[a]] == a,
            forall|i: u32|
                #[trigger] self.node_areas().dom().contains(i) ==> self.area_nodes().contains_key(
                    self.node_areas()[i],
                ) && self.area_nodes()[self.node_areas()[i]] == i,
            forall|e: u32|
                #[trigger] self.edge_map().dom().contains(e) ==> self.node_areas().dom().contains(
                    self.edge_map()[e].0,
                ) && self.node_areas().dom().contains(self.edge_map()[e].1),
    {
        assert forall|a: WorldArea| #[trigger] self.area_nodes().contains_key(a) implies self.node_areas().dom().contains(
            self.area_nodes()[a],
        ) && self.node_areas()[self.area_nodes()[a]] == a by {
            let k = area_key(a);
            assert(self.nodes@.contains_key(k));
            lemma_area_key_injective(self.node_areas()[self.nodes@[k]], a);
        }
    }

    pub fn new() -> (r: Self)
        ensures
            r.wf(),
            r.node_areas() == NavNodeMap::empty(),
            r.edge_map() == NavEdgeMap::empty(),
            r.area_nodes() == Map::<WorldArea, u32>::empty(),
    {
        let r = WorldGraph { graph: nav_graph_new(), nodes: HashMap::new() };
        proof {
            assert(r.area_nodes() =~= Map::<WorldArea, u32>::empty());
        }
        r
    }

    /// The node of the area: the one it has if it is there, else a new one; `None` when the
    /// graph has no index left for a new node.
    #[verifier::rlimit(40)]
    fn add_node(&mut self, area: WorldArea) -> (r: Option<u32>)
        requires
            old(self).wf(),
        ensures
            final(self).wf(),
            final(self).edge_map() == old(self).edge_map(),
            match r {
                Some(i) => {
                    &&& final(self).area_nodes() == old(self).area_nodes().insert(area, i)
                    &&& final(self).node_areas() == old(self).node_areas().insert(i, area)
                    &&& old(self).has_area(area) ==> i == old(self).area_nodes()[area]
                    &&& !old(self).has_area(area) ==> !old(self).node_areas().dom().contains(i)
                    &&& final(self).node_count() <= old(self).node_count() + 1
                },
                None => {
                    &&& !old(self).has_area(area)
                    &&& final(self).area_nodes() == old(self).area_nodes()
                    &&& final(self).node_areas() == old(self).node_areas()
                    &&& old(self).node_areas().dom().len() >= graph_index_limit()
                },
            },
    {
        let k = area_key_of(area);
        proof {
            old(self).lemma_wf();
        }
        match self.nodes.get(&k) {
            Some(i) => {
                let i = *i;
                proof {
                    assert(self.area_nodes() =~= old(self).area_nodes().insert(area, i));
                    assert(self.node_areas() =~= old(self).node_areas().insert(i, area));
                }
                Some(i)
            },
            None => {
                match nav_graph_try_add_node(&mut self.graph, area) {
                    Some(i) => {
                        self.nodes.insert(k, i);
                        proof {
                            assert forall|a: WorldArea| a != area implies area_key(a) != k by {
                                if area_key(a) == k {
                                    lemma_area_key_injective(a, area);
                                }
                            }
                            assert(self.area_nodes() =~= old(self).area_nodes().insert(area, i));
                            assert forall|k2: u128| #[trigger] self.nodes@.contains_key(k2) implies nav_graph_nodes(
                                self.graph,
                            ).dom().contains(self.nodes@[k2]) && area_key(
                                nav_graph_nodes(self.graph)[self.nodes@[k2]],
                            ) == k2 by {
                                if k2 != k {
                                    assert(old(self).nodes@.contains_key(k2));
                                    assert(self.nodes@[k2] != i);
                                }
                            }
                        }
                        Some(i)
                    },
                    None => {
                        proof {
                            assert(self.area_nodes() =~= old(self).area_nodes());
                        }
                        None
                    },
                }
            },
        }
    }

    /// The node of an area that is in the graph.
    fn node(&self, area: WorldArea) -> (r: u32)
        requires
            self.wf(),
            self.has_area(area),
        ensures
            r == self.area_nodes()[area],
    {
        let k = area_key_of(area);
        *self.nodes.get(&k).unwrap()
    }
}

/// The nodes not in the given set.
pub open spec fn nodes_except(node_areas: NavNodeMap, gone: Set<u32>) -> NavNodeMap {
    node_areas.restrict(node_areas.dom().filter(|i: u32| !gone.contains(i)))
}

/// The edges neither of whose nodes is in the given set.
pub open spec fn edges_except(edges: NavEdgeMap, gone: Set<u32>) -> NavEdgeMap {
    edges.restrict(
        edges.dom().filter(|e: u32| !gone.contains(edges[e].0) && !gone.contains(edges[e].1)),
    )
}

/// The nodes whose areas lie in the slab.
pub open spec fn slab_nodes(node_areas: NavNodeMap, slab: SlabLocation) -> Set<u32> {
    node_areas.dom().filter(|i: u32| area_slab(node_areas[i]) == slab)
}

/// The areas outside the slab.
pub open spec fn areas_outside(area_nodes: Map<WorldArea, u32>, slab: SlabLocation) -> Map<WorldArea, u32> {
    area_nodes.restrict(area_nodes.dom().filter(|a: WorldArea| area_slab(a) != slab))
}

/// `after` holds the areas of `before` outside the slab, and the edges of `before` that touch
/// none of the slab's areas.
pub open spec fn slab_taken_out(before: WorldGraph, after: WorldGraph, slab: SlabLocation) -> bool {
    &&& forall|a: WorldArea| #[trigger] after.has_area(a) == (before.has_area(a) && area_slab(a) != slab)
    &&& forall|t: (WorldArea, WorldArea, SlabNavEdge)|
        #[trigger] after.has_edge(t) == (before.has_edge(t) && area_slab(t.0) != slab && area_slab(t.1)
            != slab)
}

impl WorldGraph {
    /// Slab has been modified: its areas leave the graph, with every edge that touches one of
    /// them. The other nodes keep their indices.
    pub fn disconnect_slab(&mut self, slab: SlabLocation)
        requires
            old(self).wf(),
        ensures
            final(self).wf(),
            final(self).node_areas() == nodes_except(
                old(self).node_areas(),
                slab_nodes(old(self).node_areas(), slab),
            ),
            final(self).edge_map() == edges_except(
                old(self).edge_map(),
                slab_nodes(old(self).node_areas(), slab),
            ),
            final(self).area_nodes() == areas_outside(old(self).area_nodes(), slab),
            slab_taken_out(*old(self), *final(self), slab),
            final(self).node_count() <= old(self).node_count(),
            final(self).edge_count() <= old(self).edge_count(),
    {
        let ghost n0 = self.node_areas();
        let ghost e0 = self.edge_map();
        let ghost m0 = self.nodes@;
        let ghost a0 = self.area_nodes();
        let ghost mut gone: Set<u32> = Set::empty();
        proof {
            old(self).lemma_wf();
            assert(self.node_areas() =~= nodes_except(n0, gone));
            assert(self.edge_map() =~= edges_except(e0, gone));
            assert(self.nodes@ =~= m0.restrict(m0.dom().filter(|k: u128| !gone.contains(m0[k]))));
        }
        let idxs = nav_graph_node_indices(&self.graph);
        let mut j: usize = 0;
        while j < idxs.len()
            invariant
                j <= idxs@.len(),
                indices_of(idxs@, n0),
                self.wf(),
                forall|i: u32|
                    #[trigger] gone.contains(i) <==> (exists|p: int| 0 <= p < j && idxs@[p] == i)
                        && n0.dom().contains(i) && area_slab(n0[i]) == slab,
                self.node_areas() == nodes_except(n0, gone),
                self.edge_map() == edges_except(e0, gone),
                self.nodes@ == m0.restrict(m0.dom().filter(|k: u128| !gone.contains(m0[k]))),
                forall|k: u128| #[trigger] m0.contains_key(k) ==> n0.dom().contains(m0[k]) && area_key(n0[m0[k]]) == k,
                forall|i: u32| #[trigger] n0.dom().contains(i) ==> m0.contains_key(area_key(n0[i])) && m0[area_key(n0[i])] == i,
            decreases idxs@.len() - j,
        {
            let i = idxs[j];
            proof {
                assert(n0.dom().contains(i));
                assert(!gone.contains(i)) by {
                    if gone.contains(i) {
                        let p = choose|p: int| 0 <= p < j && idxs@[p] == i;
                        assert(idxs@[p] < idxs@[j as int]);
                    }
                }
            }
            let w = nav_graph_node_weight(&self.graph, i);
            let a = w.unwrap();
            if a.slab() == slab {
                let ghost pre_nodes = self.nodes@;
                let ghost pre_edges = self.edge_map();
                nav_graph_remove_node(&mut self.graph, i);
                proof {
                    assert(self.edge_map().dom().subset_of(pre_edges.dom()));
                    vstd::set_lib::lemma_len_subset(self.edge_map().dom(), pre_edges.dom());
                }
                let k = area_key_of(a);
                self.nodes.remove(&k);
                proof {
                    let old_gone = gone;
                    gone = gone.insert(i);
                    assert forall|x: u32| #[trigger] gone.contains(x) <==> (exists|p: int|
                        0 <= p < j + 1 && idxs@[p] == x) && n0.dom().contains(x) && area_slab(n0[x])
                        == slab by {
                        if x == i {
                            assert(idxs@[j as int] == x);
                        }
                        if x != i && (exists|p: int| 0 <= p < j + 1 && idxs@[p] == x) {
                            let p = choose|p: int| 0 <= p < j + 1 && idxs@[p] == x;
                            assert(p < j);
                        }
                    }
                    assert(self.node_areas() =~= nodes_except(n0, gone));
                    assert(self.edge_map() =~= edges_except(e0, gone));
                    assert(self.nodes@ =~= m0.restrict(m0.dom().filter(|k2: u128| !gone.contains(m0[k2]))));
                }
            } else {
                proof {
                    assert forall|x: u32| #[trigger] gone.contains(x) <==> (exists|p: int|
                        0 <= p < j + 1 && idxs@[p] == x) && n0.dom().contains(x) && area_slab(n0[x])
                        == slab by {
                        if x != i && (exists|p: int| 0 <= p < j + 1 && idxs@[p] == x) {
                            let p = choose|p: int| 0 <= p < j + 1 && idxs@[p] == x;
                            assert(p < j);
                        }
                    }
                }
            }
            j = j + 1;
        }
        proof {
            assert(gone =~= slab_nodes(n0, slab)) by {
                assert forall|x: u32| slab_nodes(n0, slab).contains(x) implies #[trigger] gone.contains(x) by {
                    assert(idxs@.contains(x));
                    let p = choose|p: int| 0 <= p < idxs@.len() && idxs@[p] == x;
                }
            }
            assert forall|a: WorldArea| #[trigger] self.area_nodes().contains_key(a) <==> areas_outside(a0, slab).contains_key(a) by {
                let k = area_key(a);
                if m0.contains_key(k) {
                    lemma_area_key_injective(n0[m0[k]], a);
                }
            }
            assert(self.area_nodes() =~= areas_outside(a0, slab));
            lemma_edges_after_disconnect(n0, e0, slab);
            assert(self.node_areas().dom().subset_of(n0.dom()));
            vstd::set_lib::lemma_len_subset(self.node_areas().dom(), n0.dom());
            assert(self.edge_map().dom().subset_of(e0.dom()));
            vstd::set_lib::lemma_len_subset(self.edge_map().dom(), e0.dom());
            assert forall|t: (WorldArea, WorldArea, SlabNavEdge)| #[trigger] self.has_edge(t) == (
            old(self).has_edge(t) && area_slab(t.0) != slab && area_slab(t.1) != slab) by {
                assert(has_edge_in(
                    nodes_except(n0, slab_nodes(n0, slab)),
                    edges_except(e0, slab_nodes(n0, slab)),
                    t,
                ) == (has_edge_in(n0, e0, t) && area_slab(t.0) != slab && area_slab(t.1) != slab));
            }
        }
    }
}

/// The area is one of the given areas of the slab.
pub open spec fn placed_node(slab: SlabLocation, ns: Seq<SlabArea>, a: WorldArea) -> bool {
    exists|j: int| 0 <= j < ns.len() && a == world_area_of(slab, #[trigger] ns[j])
}

/// The area is an end of one of the given edges, each of which goes from an area of slab `from`
/// to an area of slab `to`.
pub open spec fn placed_edge_area(
    from: SlabLocation,
    to: SlabLocation,
    es: Seq<(SlabArea, SlabArea, SlabNavEdge)>,
    a: WorldArea,
) -> bool {
    exists|j: int|
        0 <= j < es.len() && (a == world_area_of(from, (#[trigger] es[j]).0) || a == world_area_of(
            to,
            es[j].1,
        ))
}

/// The edge is one of the given edges, each of which goes from an area of slab `from` to an
/// area of slab `to`.
pub open spec fn placed_edge(
    from: SlabLocation,
    to: SlabLocation,
    es: Seq<(SlabArea, SlabArea, SlabNavEdge)>,
    t: (WorldArea, WorldArea, SlabNavEdge),
) -> bool {
    exists|j: int|
        0 <= j < es.len() && t == (
            world_area_of(from, (#[trigger] es[j]).0),
            world_area_of(to, es[j].1),
            es[j].2,
        )
}

/// The graph has every area it had, under the same node.
pub open spec fn keeps_areas(before: Map<WorldArea, u32>, after: Map<WorldArea, u32>) -> bool {
    forall|a: WorldArea|
        #[trigger] before.contains_key(a) ==> after.contains_key(a) && after[a] == before[a]
}

impl WorldGraph {
    /// Adds a node for each of the given areas of the slab that is not there yet; `false` when
    /// the graph ran out of node indices.
    fn add_nodes(&mut self, slab: SlabLocation, ns: &Vec<SlabArea>) -> (r: bool)
        requires
            old(self).wf(),
        ensures
            final(self).wf(),
            keeps_areas(old(self).area_nodes(), final(self).area_nodes()),
            forall|t: (WorldArea, WorldArea, SlabNavEdge)|
                #[trigger] final(self).has_edge(t) == old(self).has_edge(t),
            r ==> forall|a: WorldArea|
                #[trigger] final(self).has_area(a) == (old(self).has_area(a) || placed_node(slab, ns@, a)),
            !r ==> final(self).node_areas().dom().len() >= graph_index_limit(),
            final(self).edge_map() == old(self).edge_map(),
            final(self).node_count() <= old(self).node_count() + ns@.len(),
    {
        let ghost a0 = self.area_nodes();
        let mut j: usize = 0;
        while j < ns.len()
            invariant
                j <= ns@.len(),
                self.wf(),
                a0 == old(self).area_nodes(),
                keeps_areas(a0, self.area_nodes()),
                self.edge_map() == old(self).edge_map(),
                self.node_count() <= old(self).node_count() + j,
                forall|t: (WorldArea, WorldArea, SlabNavEdge)|
                    #[trigger] self.has_edge(t) == old(self).has_edge(t),
                forall|a: WorldArea|
                    #[trigger] self.has_area(a) == (a0.contains_key(a) || placed_node(slab, ns@.subrange(0, j as int), a)),
            decreases ns@.len() - j,
        {
            let area = WorldArea::from((slab, ns[j]));
            let ghost before = *self;
            proof {
                before.lemma_wf();
            }
            match self.add_node(area) {
                Some(i) => {
                    proof {
                        lemma_edges_after_add_node(before.node_areas(), before.edge_map(), i, area);
                        assert forall|t: (WorldArea, WorldArea, SlabNavEdge)| #[trigger] self.has_edge(t)
                            == old(self).has_edge(t) by {
                            assert(before.has_edge(t) == old(self).has_edge(t));
                            assert(has_edge_in(before.node_areas().insert(i, area), before.edge_map(), t)
                                == has_edge_in(before.node_areas(), before.edge_map(), t));
                        }
                        assert(area == world_area_of(slab, ns@[j as int]));
                        assert forall|a: WorldArea| #[trigger] self.has_area(a) == (before.has_area(a) || a == area) by {
                            if a != area {
                                assert(self.area_nodes().contains_key(a) == before.area_nodes().contains_key(a));
                            }
                        }
                        assert forall|a: WorldArea| #[trigger] self.has_area(a) == (a0.contains_key(a)
                            || placed_node(slab, ns@.subrange(0, j + 1), a)) by {
                            let s0 = ns@.subrange(0, j as int);
                            let s1 = ns@.subrange(0, j + 1);
                            if placed_node(slab, s0, a) {
                                let p = choose|p: int| 0 <= p < s0.len() && a == world_area_of(slab, #[trigger] s0[p]);
                                assert(s1[p] == s0[p]);
                            }
                            if placed_node(slab, s1, a) {
                                let p = choose|p: int| 0 <= p < s1.len() && a == world_area_of(slab, #[trigger] s1[p]);
                                if p < j {
                                    assert(s0[p] == s1[p]);
                                }
                            }
                            if a == area {
                                assert(s1[j as int] == ns@[j as int]);
                            }
                        }
                    }
                },
                None => {
                    proof {
                        assert forall|t: (WorldArea, WorldArea, SlabNavEdge)| #[trigger] self.has_edge(t)
                            == old(self).has_edge(t) by {
                            assert(before.has_edge(t) == old(self).has_edge(t));
                        }
                    }
                    return false;
                },
            }
            j = j + 1;
        }
        proof {
            assert(ns@.subrange(0, ns@.len() as int) =~= ns@);
        }
        true
    }

    /// Adds an edge for each of the given edges, from its first area, in slab `from`, to its
    /// second, in slab `to`, with a node for each area not there yet; `false` when the graph ran
    /// out of node or edge indices.
    fn add_edges(
        &mut self,
        from: SlabLocation,
        to: SlabLocation,
        es: &Vec<(SlabArea, SlabArea, SlabNavEdge)>,
    ) -> (r: bool)
        requires
            old(self).wf(),
        ensures
            final(self).wf(),
            keeps_areas(old(self).area_nodes(), final(self).area_nodes()),
            r ==> forall|a: WorldArea|
                #[trigger] final(self).has_area(a) == (old(self).has_area(a) || placed_edge_area(
                    from,
                    to,
                    es@,
                    a,
                )),
            r ==> forall|t: (WorldArea, WorldArea, SlabNavEdge)|
                #[trigger] final(self).has_edge(t) == (old(self).has_edge(t) || placed_edge(
                    from,
                    to,
                    es@,
                    t,
                )),
            !r ==> final(self).is_full(),
            final(self).node_count() <= old(self).node_count() + 2 * es@.len(),
            final(self).edge_count() <= old(self).edge_count() + es@.len(),
    {
        let ghost a0 = self.area_nodes();
        let mut j: usize = 0;
        while j < es.len()
            invariant
                j <= es@.len(),
                self.wf(),
                self.node_count() <= old(self).node_count() + 2 * j,
                self.edge_count() <= old(self).edge_count() + j,
                a0 == old(self).area_nodes(),
                keeps_areas(a0, self.area_nodes()),
                forall|a: WorldArea|
                    #[trigger] self.has_area(a) == (a0.contains_key(a) || placed_edge_area(
                        from,
                        to,
                        es@.subrange(0, j as int),
                        a,
                    )),
                forall|t: (WorldArea, WorldArea, SlabNavEdge)|
                    #[trigger] self.has_edge(t) == (old(self).has_edge(t) || placed_edge(
                        from,
                        to,
                        es@.subrange(0, j as int),
                        t,
                    )),
            decreases es@.len() - j,
        {
            let (sa, sb, w) = es[j];
            let area_a = WorldArea::from((from, sa));
            let area_b = WorldArea::from((to, sb));
            let ghost s0 = *self;
            proof {
                s0.lemma_wf();
            }
            let src = match self.add_node(area_a) {
                Some(i) => i,
                None => {
                    return false;
                },
            };
            let ghost s1 = *self;
            proof {
                lemma_edges_after_add_node(s0.node_areas(), s0.edge_map(), src, area_a);
                s1.lemma_wf();
            }
            let dst = match self.add_node(area_b) {
                Some(i) => i,
                None => {
                    return false;
                },
            };
            let ghost s2 = *self;
            proof {
                lemma_edges_after_add_node(s1.node_areas(), s1.edge_map(), dst, area_b);
                s2.lemma_wf();
                assert(s2.node_areas()[src] == area_a);
                assert(s2.node_areas()[dst] == area_b);
            }
            match nav_graph_try_add_edge(&mut self.graph, src, dst, w) {
                Some(x) => {
                    proof {
                        assert(self.edge_map().dom() =~= s2.edge_map().dom().insert(x));
                        lemma_edges_after_add_edge(s2.node_areas(), s2.edge_map(), x, (src, dst, w));
                        assert(self.area_nodes() == s2.area_nodes());
                        assert(area_a == world_area_of(from, es@[j as int].0));
                        assert(area_b == world_area_of(to, es@[j as int].1));
                        assert forall|a: WorldArea| #[trigger] self.has_area(a) == (s0.has_area(a) || a == area_a
                            || a == area_b) by {
                            if a != area_a {
                                assert(s1.area_nodes().contains_key(a) == s0.area_nodes().contains_key(a));
                            }
                            if a != area_b {
                                assert(s2.area_nodes().contains_key(a) == s1.area_nodes().contains_key(a));
                            }
                        }
                        let e0 = es@.subrange(0, j as int);
                        let e1 = es@.subrange(0, j + 1);
                        assert(e1[j as int] == es@[j as int]);
                        assert forall|a: WorldArea| #[trigger] self.has_area(a) == (a0.contains_key(a)
                            || placed_edge_area(from, to, e1, a)) by {
                            if placed_edge_area(from, to, e0, a) {
                                let p = choose|p: int| 0 <= p < e0.len() && (a == world_area_of(from, (#[trigger] e0[p]).0) || a == world_area_of(to, e0[p].1));
                                assert(e1[p] == e0[p]);
                            }
                            if placed_edge_area(from, to, e1, a) {
                                let p = choose|p: int| 0 <= p < e1.len() && (a == world_area_of(from, (#[trigger] e1[p]).0) || a == world_area_of(to, e1[p].1));
                                if p < j {
                                    assert(e0[p] == e1[p]);
                                }
                            }
                        }
                        assert forall|t: (WorldArea, WorldArea, SlabNavEdge)| #[trigger] self.has_edge(t) == (old(self).has_edge(t)
                            || placed_edge(from, to, e1, t)) by {
                            if placed_edge(from, to, e0, t) {
                                let p = choose|p: int| 0 <= p < e0.len() && t == (world_area_of(from, (#[trigger] e0[p]).0), world_area_of(to, e0[p].1), e0[p].2);
                                assert(e1[p] == e0[p]);
                            }
                            if placed_edge(from, to, e1, t) {
                                let p = choose|p: int| 0 <= p < e1.len() && t == (world_area_of(from, (#[trigger] e1[p]).0), world_area_of(to, e1[p].1), e1[p].2);
                                if p < j {
                                    assert(e0[p] == e1[p]);
                                }
                            }
                            assert(s1.has_edge(t) == s0.has_edge(t));
                            assert(s2.has_edge(t) == s1.has_edge(t));
                        }
                    }
                },
                None => {
                    return false;
                },
            }
            j = j + 1;
        }
        proof {
            assert(es@.subrange(0, es@.len() as int) =~= es@);
        }
        true
    }
}

/// The two slabs are `from` and `to`, in either order.
pub open spec fn between(a: SlabLocation, b: SlabLocation, from: SlabLocation, to: SlabLocation) -> bool {
    (a == from && b == to) || (a == to && b == from)
}

/// The edges that do not join an area of slab `from` and one of slab `to`.
pub open spec fn edges_not_between(
    node_areas: NavNodeMap,
    edges: NavEdgeMap,
    from: SlabLocation,
    to: SlabLocation,
) -> NavEdgeMap {
    edges.restrict(
        edges.dom().filter(
            |e: u32|
                !between(
                    area_slab(node_areas[edges[e].0]),
                    area_slab(node_areas[edges[e].1]),
                    from,
                    to,
                ),
        ),
    )
}

/// Taking out the edges between two slabs takes out exactly those.
proof fn lemma_edges_not_between(n: NavNodeMap, e0: NavEdgeMap, from: SlabLocation, to: SlabLocation)
    ensures
        forall|t: (WorldArea, WorldArea, SlabNavEdge)|
            #[trigger] has_edge_in(n, edges_not_between(n, e0, from, to), t) == (has_edge_in(n, e0, t)
                && !between(area_slab(t.0), area_slab(t.1), from, to)),
{
    let e1 = edges_not_between(n, e0, from, to);
    assert forall|t: (WorldArea, WorldArea, SlabNavEdge)|
        #[trigger] has_edge_in(n, e1, t) == (has_edge_in(n, e0, t) && !between(
            area_slab(t.0),
            area_slab(t.1),
            from,
            to,
        )) by {
        if has_edge_in(n, e1, t) {
            let e = choose|e: u32| #[trigger] e1.dom().contains(e) && edge_triple(n, e1[e]) == t;
            assert(e0.dom().contains(e) && e0[e] == e1[e]);
        }
        if has_edge_in(n, e0, t) && !between(area_slab(t.0), area_slab(t.1), from, to) {
            let e = choose|e: u32| #[trigger] e0.dom().contains(e) && edge_triple(n, e0[e]) == t;
            assert(e1.dom().contains(e));
        }
    }
}

/// `after` holds the areas of `before` outside the slab and the given areas of the slab (its
/// graph's nodes `ns` and the ends of its edges `es`); the edges of `before` that touch none of
/// the slab's areas, and the given edges.
pub open spec fn slab_absorbed(
    before: WorldGraph,
    after: WorldGraph,
    slab: SlabLocation,
    ns: Seq<SlabArea>,
    es: Seq<(SlabArea, SlabArea, SlabNavEdge)>,
) -> bool {
    &&& forall|a: WorldArea|
        #[trigger] after.has_area(a) == ((before.has_area(a) && area_slab(a) != slab) || placed_node(
            slab,
            ns,
            a,
        ) || placed_edge_area(slab, slab, es, a))
    &&& forall|t: (WorldArea, WorldArea, SlabNavEdge)|
        #[trigger] after.has_edge(t) == ((before.has_edge(t) && area_slab(t.0) != slab && area_slab(
            t.1,
        ) != slab) || placed_edge(slab, slab, es, t))
}

/// `after` holds the areas of `before` and the ends of the given edges; the edges of `before`
/// that do not join slabs `from` and `to`, and the given edges, from `from` to `to`.
pub open spec fn slabs_linked(
    before: WorldGraph,
    after: WorldGraph,
    from: SlabLocation,
    to: SlabLocation,
    es: Seq<(SlabArea, SlabArea, SlabNavEdge)>,
) -> bool {
    &&& forall|a: WorldArea|
        #[trigger] after.has_area(a) == (before.has_area(a) || placed_edge_area(from, to, es, a))
    &&& forall|t: (WorldArea, WorldArea, SlabNavEdge)|
        #[trigger] after.has_edge(t) == ((before.has_edge(t) && !between(
            area_slab(t.0),
            area_slab(t.1),
            from,
            to,
        )) || placed_edge(from, to, es, t))
}

impl WorldGraph {
    /// Takes in the graph of a slab's areas in place of what the world graph held of the slab:
    /// the slab's old areas leave, with every edge that touches one of them (those that
    /// crossed to other slabs too), and the slab graph's areas and edges come in. The other
    /// areas keep their nodes. `false` when the graph ran out of indices on the way.
    pub fn absorb(&mut self, slab: SlabLocation, graph: &SlabNavGraph) -> (r: bool)
        requires
            old(self).wf(),
        ensures
            final(self).wf(),
            keeps_areas(areas_outside(old(self).area_nodes(), slab), final(self).area_nodes()),
            r ==> slab_absorbed(
                *old(self),
                *final(self),
                slab,
                graph.nodes_view().map_values(|n: NodeKey| slab_area_of(n)),
                graph.edges_view().map_values(|e: EdgeEntry| nav_edge_of(e)),
            ),
            !r ==> final(self).is_full(),
            final(self).node_count() <= old(self).node_count() + graph.nodes_view().len() + 2
                * graph.edges_view().len(),
            final(self).edge_count() <= old(self).edge_count() + graph.edges_view().len(),
    {
        proof {
            old(self).lemma_wf();
            lemma_edges_after_disconnect(old(self).node_areas(), old(self).edge_map(), slab);
        }
        self.disconnect_slab(slab);
        let ghost s1 = *self;
        let nodes = graph.iter_nodes();
        if !self.add_nodes(slab, &nodes) {
            return false;
        }
        let ghost s2 = *self;
        let edges = graph.iter_edges();
        let ok = self.add_edges(slab, slab, &edges);
        proof {
            assert forall|a: WorldArea| #[trigger] s1.has_area(a) == (old(self).has_area(a) && area_slab(a) != slab) by {}
            if ok {
                assert forall|a: WorldArea| #[trigger] self.has_area(a) == ((old(self).has_area(a)
                    && area_slab(a) != slab) || placed_node(slab, nodes@, a) || placed_edge_area(
                    slab,
                    slab,
                    edges@,
                    a,
                )) by {
                    assert(s2.has_area(a) == (s1.has_area(a) || placed_node(slab, nodes@, a)));
                }
                assert forall|t: (WorldArea, WorldArea, SlabNavEdge)| #[trigger] self.has_edge(t) == ((
                old(self).has_edge(t) && area_slab(t.0) != slab && area_slab(t.1) != slab) || placed_edge(
                    slab,
                    slab,
                    edges@,
                    t,
                )) by {
                    assert(s2.has_edge(t) == s1.has_edge(t));
                    assert(s1.has_edge(t) == (old(self).has_edge(t) && area_slab(t.0) != slab && area_slab(t.1) != slab));
                }
            }
        }
        ok
    }

    /// Replaces the edges between slabs `from` and `to` (either way round) with the given
    /// edges, each from an area of `from` to an area of `to`, adding a node for each area not
    /// there yet. The other edges stay and every area keeps its node. `false` when the graph
    /// ran out of indices on the way.
    pub fn add_inter_slab_edges(
        &mut self,
        from: SlabLocation,
        to: SlabLocation,
        edges: &Vec<(SlabArea, SlabArea, SlabNavEdge)>,
    ) -> (r: bool)
        requires
            old(self).wf(),
        ensures
            final(self).wf(),
            keeps_areas(old(self).area_nodes(), final(self).area_nodes()),
            r ==> slabs_linked(*old(self), *final(self), from, to, edges@),
            !r ==> final(self).is_full(),
            final(self).node_count() <= old(self).node_count() + 2 * edges@.len(),
            final(self).edge_count() <= old(self).edge_count() + edges@.len(),
    {
        let ghost n0 = self.node_areas();
        let ghost e0 = self.edge_map();
        let ghost mut done: Set<u32> = Set::empty();
        proof {
            old(self).lemma_wf();
            assert(self.edge_map() =~= e0.restrict(e0.dom().filter(|x: u32| !(done.contains(x) && between(
                area_slab(n0[e0[x].0]),
                area_slab(n0[e0[x].1]),
                from,
                to,
            )))));
        }
        // remove old edges between these slabs
        let idxs = nav_graph_edge_indices(&self.graph);
        let mut j: usize = 0;
        while j < idxs.len()
            invariant
                j <= idxs@.len(),
                indices_of(idxs@, e0),
                self.wf(),
                self.node_areas() == n0,
                self.area_nodes() == old(self).area_nodes(),
                edges_within(n0, e0),
                forall|x: u32| #[trigger] done.contains(x) <==> exists|p: int| 0 <= p < j && idxs@[p] == x,
                self.edge_map() == e0.restrict(e0.dom().filter(|x: u32| !(done.contains(x) && between(
                    area_slab(n0[e0[x].0]),
                    area_slab(n0[e0[x].1]),
                    from,
                    to,
                )))),
            decreases idxs@.len() - j,
        {
            let e = idxs[j];
            proof {
                assert(e0.dom().contains(e));
                assert(!done.contains(e)) by {
                    if done.contains(e) {
                        let p = choose|p: int| 0 <= p < j && idxs@[p] == e;
                        assert(idxs@[p] < idxs@[j as int]);
                    }
                }
            }
            let (a, b) = nav_graph_edge_endpoints(&self.graph, e).unwrap();
            let sa = nav_graph_node_weight(&self.graph, a).unwrap().slab();
            let sb = nav_graph_node_weight(&self.graph, b).unwrap().slab();
            if (sa == from && sb == to) || (sa == to && sb == from) {
                nav_graph_remove_edge(&mut self.graph, e);
            }
            proof {
                done = done.insert(e);
                assert forall|x: u32| #[trigger] done.contains(x) <==> exists|p: int| 0 <= p < j + 1 && idxs@[p] == x by {
                    if x == e {
                        assert(idxs@[j as int] == x);
                    }
                    if x != e && (exists|p: int| 0 <= p < j + 1 && idxs@[p] == x) {
                        let p = choose|p: int| 0 <= p < j + 1 && idxs@[p] == x;
                        assert(p < j);
                    }
                }
                assert(self.edge_map() =~= e0.restrict(e0.dom().filter(|x: u32| !(done.contains(x) && between(
                    area_slab(n0[e0[x].0]),
                    area_slab(n0[e0[x].1]),
                    from,
                    to,
                )))));
                assert(self.area_nodes() =~= old(self).area_nodes());
            }
            j = j + 1;
        }
        proof {
            assert forall|x: u32| e0.dom().contains(x) implies #[trigger] done.contains(x) by {
                assert(idxs@.contains(x));
            }
            assert(self.edge_map() =~= edges_not_between(n0, e0, from, to));
            lemma_edges_not_between(n0, e0, from, to);
            assert(self.edge_map().dom().subset_of(e0.dom()));
            vstd::set_lib::lemma_len_subset(self.edge_map().dom(), e0.dom());
        }
        let ghost s1 = *self;
        let ok = self.add_edges(from, to, edges);
        proof {
            if ok {
                assert forall|t: (WorldArea, WorldArea, SlabNavEdge)| #[trigger] self.has_edge(t) == ((
                old(self).has_edge(t) && !between(area_slab(t.0), area_slab(t.1), from, to))
                    || placed_edge(from, to, edges@, t)) by {
                    assert(s1.has_edge(t) == (old(self).has_edge(t) && !between(area_slab(t.0), area_slab(t.1), from, to)));
                }
                assert forall|a: WorldArea| #[trigger] self.has_area(a) == (old(self).has_area(a)
                    || placed_edge_area(from, to, edges@, a)) by {
                    assert(s1.has_area(a) == old(self).has_area(a));
                }
            }
        }
        ok
    }
}

/// The edge touches node `i`.
pub open spec fn touches(edges: NavEdgeMap, e: u32, i: u32) -> bool {
    edges.dom().contains(e) && (edges[e].0 == i || edges[e].1 == i)
}

/// The area at the end of edge `e` away from node `i`, and the edge's weight.
pub open spec fn other_end(node_areas: NavNodeMap, edges: NavEdgeMap, e: u32, i: u32) -> (WorldArea, SlabNavEdge) {
    if edges[e].0 == i {
        (node_areas[edges[e].1], edges[e].2)
    } else {
        (node_areas[edges[e].0], edges[e].2)
    }
}

/// The edge joins areas of two different slabs.
pub open spec fn crosses_slabs(node_areas: NavNodeMap, edges: NavEdgeMap, e: u32) -> bool {
    edges.dom().contains(e) && area_slab(node_areas[edges[e].0]) != area_slab(node_areas[edges[e].1])
}

/// The list holds, for each edge of `es`, the area at its end away from node `i` and its
/// weight; `es` holds each edge that touches the node once.
pub open spec fn incident_listing(
    node_areas: NavNodeMap,
    edges: NavEdgeMap,
    i: u32,
    r: Seq<(WorldArea, SlabNavEdge)>,
    es: Seq<u32>,
) -> bool {
    &&& es.len() == r.len()
    &&& forall|j: int, k: int| 0 <= j < k < es.len() ==> es[j] != es[k]
    &&& forall|e: u32| touches(edges, e, i) <==> #[trigger] es.contains(e)
    &&& forall|j: int| 0 <= j < es.len() ==> #[trigger] r[j] == other_end(node_areas, edges, es[j], i)
}

/// The list holds, for each edge of `es`, the areas at its ends and its weight; `es` holds the
/// edges that join areas of two different slabs, in increasing order.
pub open spec fn crossing_listing(
    node_areas: NavNodeMap,
    edges: NavEdgeMap,
    r: Seq<(WorldArea, WorldArea, SlabNavEdge)>,
    es: Seq<u32>,
) -> bool {
    &&& es.len() == r.len()
    &&& forall|j: int, k: int| 0 <= j < k < es.len() ==> es[j] < es[k]
    &&& forall|e: u32| crosses_slabs(node_areas, edges, e) <==> #[trigger] es.contains(e)
    &&& forall|j: int| 0 <= j < es.len() ==> #[trigger] r[j] == edge_triple(node_areas, edges[es[j]])
}

impl WorldGraph {
    /// The areas of the graph, in the order of their nodes' indices.
    pub fn iter_nodes(&self) -> (r: Vec<WorldArea>)
        requires
            self.wf(),
        ensures
            forall|a: WorldArea| #[trigger] r@.contains(a) <==> self.has_area(a),
            forall|j: int, k: int|
                0 <= j < k < r@.len() ==> self.area_nodes()[#[trigger] r@[j]] < self.area_nodes()[#[trigger] r@[k]],
    {
        let ghost n = self.node_areas();
        proof {
            self.lemma_wf();
        }
        let idxs = nav_graph_node_indices(&self.graph);
        let mut out: Vec<WorldArea> = Vec::new();
        let mut j: usize = 0;
        while j < idxs.len()
            invariant
                j <= idxs@.len(),
                n == self.node_areas(),
                indices_of(idxs@, n),
                out@.len() == j,
                forall|p: int| 0 <= p < j ==> #[trigger] out@[p] == n[idxs@[p]],
            decreases idxs@.len() - j,
        {
            let i = idxs[j];
            proof {
                assert(n.dom().contains(i));
            }
            let a = nav_graph_node_weight(&self.graph, i).unwrap();
            out.push(a);
            j = j + 1;
        }
        proof {
            assert forall|a: WorldArea| #[trigger] out@.contains(a) <==> self.has_area(a) by {
                if out@.contains(a) {
                    let p = choose|p: int| 0 <= p < out@.len() && out@[p] == a;
                    assert(n.dom().contains(idxs@[p]));
                }
                if self.has_area(a) {
                    let i = self.area_nodes()[a];
                    assert(idxs@.contains(i));
                    let p = choose|p: int| 0 <= p < idxs@.len() && idxs@[p] == i;
                    assert(out@[p] == a);
                }
            }
            assert forall|j: int, k: int| 0 <= j < k < out@.len() implies self.area_nodes()[#[trigger] out@[j]]
                < self.area_nodes()[#[trigger] out@[k]] by {
                assert(n.dom().contains(idxs@[j]) && n.dom().contains(idxs@[k]));
            }
        }
        out
    }

    /// Each edge that touches the area once, as the area at its other end and its weight; the
    /// order is petgraph's.
    pub fn iter_edges(&self, node: WorldArea) -> (r: Vec<(WorldArea, SlabNavEdge)>)
        requires
            self.wf(),
            self.has_area(node),
        ensures
            exists|es: Seq<u32>|
                #[trigger] incident_listing(
                    self.node_areas(),
                    self.edge_map(),
                    self.area_nodes()[node],
                    r@,
                    es,
                ),
    {
        proof {
            self.lemma_wf();
        }
        let idx = self.node(node);
        let list = nav_graph_edges_of(&self.graph, idx);
        let ghost n = self.node_areas();
        let ghost em = self.edge_map();
        let ghost mut es: Seq<u32> = Seq::empty();
        let mut out: Vec<(WorldArea, SlabNavEdge)> = Vec::new();
        let mut j: usize = 0;
        while j < list.len()
            invariant
                j <= list@.len(),
                n == self.node_areas(),
                em == self.edge_map(),
                edges_within(n, em),
                es.len() == j,
                out@.len() == j,
                forall|p: int| 0 <= p < j ==> #[trigger] es[p] == list@[p].0,
                forall|p: int|
                    0 <= p < j ==> #[trigger] out@[p] == other_end(n, em, es[p], idx),
                forall|p: int|
                    0 <= p < list@.len() ==> {
                        let (e, s, t, w) = #[trigger] list@[p];
                        &&& s == idx
                        &&& em.dom().contains(e)
                        &&& em[e] == (idx, t, w) || em[e] == (t, idx, w)
                    },
            decreases list@.len() - j,
        {
            let (e, src, tgt, w) = list[j];
            let other = if idx == src {
                tgt
            } else {
                src
            };
            proof {
                assert(em.dom().contains(e));
                assert(n.dom().contains(other));
            }
            let a = nav_graph_node_weight(&self.graph, other).unwrap();
            out.push((a, w));
            proof {
                es = es.push(e);
                assert(out@[j as int] == other_end(n, em, e, idx));
            }
            j = j + 1;
        }
        proof {
            assert forall|e: u32| touches(em, e, idx) <==> #[trigger] es.contains(e) by {
                if touches(em, e, idx) {
                    let p = choose|p: int| 0 <= p < list@.len() && list@[p].0 == e;
                    assert(es[p] == e);
                }
                if es.contains(e) {
                    let p = choose|p: int| 0 <= p < es.len() && es[p] == e;
                    assert(list@[p].0 == e);
                }
            }
            assert(forall|j: int, k: int| 0 <= j < k < es.len() ==> es[j] != es[k]);
            assert(incident_listing(n, em, idx, out@, es));
        }
        out
    }

    /// The edges that join areas of two different slabs, as the areas at their ends, in the
    /// order they were given when each edge was added, and the edge's weight; in the order of
    /// the edges' indices.
    pub fn iter_inter_slab_edges(&self) -> (r: Vec<(WorldArea, WorldArea, SlabNavEdge)>)
        requires
            self.wf(),
        ensures
            exists|es: Seq<u32>|
                #[trigger] crossing_listing(self.node_areas(), self.edge_map(), r@, es),
    {
        proof {
            self.lemma_wf();
        }
        let ghost n = self.node_areas();
        let ghost em = self.edge_map();
        let idxs = nav_graph_edge_indices(&self.graph);
        let ghost mut es: Seq<u32> = Seq::empty();
        let mut out: Vec<(WorldArea, WorldArea, SlabNavEdge)> = Vec::new();
        let mut j: usize = 0;
        while j < idxs.len()
            invariant
                j <= idxs@.len(),
                n == self.node_areas(),
                em == self.edge_map(),
                edges_within(n, em),
                indices_of(idxs@, em),
                es.len() == out@.len(),
                forall|p: int, q: int| 0 <= p < q < es.len() ==> es[p] < es[q],
                forall|p: int| 0 <= p < es.len() ==> exists|q: int| 0 <= q < j && idxs@[q] == #[trigger] es[p],
                forall|e: u32|
                    (crosses_slabs(n, em, e) && exists|q: int| 0 <= q < j && idxs@[q] == e) <==> #[trigger] es.contains(e),
                forall|p: int| 0 <= p < es.len() ==> #[trigger] out@[p] == edge_triple(n, em[es[p]]),
            decreases idxs@.len() - j,
        {
            let e = idxs[j];
            proof {
                assert(em.dom().contains(e));
            }
            let (a, b) = nav_graph_edge_endpoints(&self.graph, e).unwrap();
            let src = nav_graph_node_weight(&self.graph, a).unwrap();
            let dst = nav_graph_node_weight(&self.graph, b).unwrap();
            let ghost es0 = es;
            if src.slab() != dst.slab() {
                let w = nav_graph_edge_weight(&self.graph, e).unwrap();
                out.push((src, dst, w));
                proof {
                    es = es.push(e);
                    assert forall|p: int, q: int| 0 <= p < q < es.len() implies es[p] < es[q] by {
                        if q == es.len() - 1 {
                            let r = choose|r: int| 0 <= r < j && idxs@[r] == #[trigger] es0[p];
                            assert(idxs@[r] < idxs@[j as int]);
                        }
                    }
                }
            }
            proof {
                assert forall|p: int| 0 <= p < es.len() implies exists|q: int| 0 <= q < j + 1 && idxs@[q] == #[trigger] es[p] by {
                    if p < es0.len() {
                        let r = choose|r: int| 0 <= r < j && idxs@[r] == #[trigger] es0[p];
                        assert(es[p] == es0[p]);
                    } else {
                        assert(idxs@[j as int] == es[p]);
                    }
                }
                assert forall|x: u32| (crosses_slabs(n, em, x) && exists|q: int| 0 <= q < j + 1 && idxs@[q] == x)
                    <==> #[trigger] es.contains(x) by {
                    if x == e {
                        if crosses_slabs(n, em, x) {
                            assert(es[es.len() - 1] == x);
                        }
                        if es.contains(x) && !crosses_slabs(n, em, x) {
                            assert(es == es0);
                            let p = choose|p: int| 0 <= p < es0.len() && es0[p] == x;
                            let r = choose|r: int| 0 <= r < j && idxs@[r] == #[trigger] es0[p];
                            assert(idxs@[r] < idxs@[j as int]);
                        }
                        assert(idxs@[j as int] == x);
                    } else {
                        if exists|q: int| 0 <= q < j + 1 && idxs@[q] == x {
                            let q = choose|q: int| 0 <= q < j + 1 && idxs@[q] == x;
                            assert(q < j);
                        }
                        if es.contains(x) {
                            let p = choose|p: int| 0 <= p < es.len() && es[p] == x;
                            if p < es0.len() {
                                assert(es0[p] == x);
                            }
                        }
                        if es0.contains(x) {
                            let p = choose|p: int| 0 <= p < es0.len() && es0[p] == x;
                            assert(es[p] == x);
                        }
                    }
                }
            }
            j = j + 1;
        }
        proof {
            assert forall|x: u32| crosses_slabs(n, em, x) <==> #[trigger] es.contains(x) by {
                if crosses_slabs(n, em, x) {
                    assert(idxs@.contains(x));
                }
            }
            assert(crossing_listing(n, em, out@, es));
        }
        out
    }
}

/// The two graphs hold the same areas and the same edges.
pub open spec fn same_content(g1: WorldGraph, g2: WorldGraph) -> bool {
    &&& forall|a: WorldArea| #[trigger] g1.has_area(a) == g2.has_area(a)
    &&& forall|t: (WorldArea, WorldArea, SlabNavEdge)| #[trigger] g1.has_edge(t) == g2.has_edge(t)
}

/// Absorbing the same graph of a slab a second time changes no area and no edge.
pub proof fn lemma_absorb_twice(
    g0: WorldGraph,
    g1: WorldGraph,
    g2: WorldGraph,
    slab: SlabLocation,
    ns: Seq<SlabArea>,
    es: Seq<(SlabArea, SlabArea, SlabNavEdge)>,
)
    requires
        slab_absorbed(g0, g1, slab, ns, es),
        slab_absorbed(g1, g2, slab, ns, es),
    ensures
        same_content(g1, g2),
{
    assert forall|a: WorldArea| #[trigger] g1.has_area(a) == g2.has_area(a) by {
        if area_slab(a) != slab {
            assert(!placed_node(slab, ns, a));
            assert(!placed_edge_area(slab, slab, es, a));
        }
    }
    assert forall|t: (WorldArea, WorldArea, SlabNavEdge)| #[trigger] g1.has_edge(t) == g2.has_edge(t) by {
        if area_slab(t.0) != slab || area_slab(t.1) != slab {
            assert(!placed_edge(slab, slab, es, t));
        }
    }
}

/// Taking a slab out of a graph that has absorbed a graph of the slab leaves what taking the
/// slab out of the graph before would leave: absorbing keeps nothing of the slab's old areas.
pub proof fn lemma_absorb_then_take_out(
    g0: WorldGraph,
    g1: WorldGraph,
    g2: WorldGraph,
    g3: WorldGraph,
    slab: SlabLocation,
    ns: Seq<SlabArea>,
    es: Seq<(SlabArea, SlabArea, SlabNavEdge)>,
)
    requires
        slab_absorbed(g0, g1, slab, ns, es),
        slab_taken_out(g1, g2, slab),
        slab_taken_out(g0, g3, slab),
    ensures
        same_content(g2, g3),
{
    assert forall|a: WorldArea| #[trigger] g2.has_area(a) == g3.has_area(a) by {
        if area_slab(a) != slab {
            assert(!placed_node(slab, ns, a));
            assert(!placed_edge_area(slab, slab, es, a));
        }
    }
    assert forall|t: (WorldArea, WorldArea, SlabNavEdge)| #[trigger] g2.has_edge(t) == g3.has_edge(t) by {
        if area_slab(t.0) != slab || area_slab(t.1) != slab {
            assert(!placed_edge(slab, slab, es, t));
        }
    }
}

/// Linking two slabs a second time with the same edges changes no area and no edge: the edges
/// between the slabs are replaced, not added to.
pub proof fn lemma_link_twice(
    g0: WorldGraph,
    g1: WorldGraph,
    g2: WorldGraph,
    from: SlabLocation,
    to: SlabLocation,
    es: Seq<(SlabArea, SlabArea, SlabNavEdge)>,
)
    requires
        slabs_linked(g0, g1, from, to, es),
        slabs_linked(g1, g2, from, to, es),
    ensures
        same_content(g1, g2),
{
    assert forall|t: (WorldArea, WorldArea, SlabNavEdge)| #[trigger] g1.has_edge(t) == g2.has_edge(t) by {
        if placed_edge(from, to, es, t) {
            let j = choose|j: int|
                0 <= j < es.len() && t == (
                    world_area_of(from, (#[trigger] es[j]).0),
                    world_area_of(to, es[j].1),
                    es[j].2,
                );
            assert(between(area_slab(t.0), area_slab(t.1), from, to));
        }
        if between(area_slab(t.0), area_slab(t.1), from, to) {
            assert(g1.has_edge(t) == placed_edge(from, to, es, t));
        }
    }
}

/// The sequence with each run of equal neighbours kept once.
pub open spec fn dedup<T>(s: Seq<T>) -> Seq<T>
    decreases s.len(),
{
    if s.len() <= 1 {
        s
    } else if s[s.len() - 1] == s[s.len() - 2] {
        dedup(s.drop_last())
    } else {
        dedup(s.drop_last()).push(s[s.len() - 1])
    }
}

/// Dropping neighbours that repeat keeps the last element last.
proof fn lemma_dedup_last<T>(s: Seq<T>)
    requires
        s.len() >= 1,
    ensures
        dedup(s).len() >= 1,
        dedup(s)[dedup(s).len() - 1] == s[s.len() - 1],
    decreases s.len(),
{
    if s.len() > 1 {
        lemma_dedup_last(s.drop_last());
    }
}

/// A route found through the world graph: each area to pass through with the edge that leaves
/// it, and the area it ends in.
pub struct Path {
    areas: Vec<(WorldArea, SlabNavEdge)>,
    target: WorldArea,
}

impl Path {
    /// The areas passed through, each with the edge that leaves it, in order.
    pub closed spec fn route_view(&self) -> Seq<(WorldArea, SlabNavEdge)> {
        self.areas@
    }

    /// The area the route ends in.
    pub closed spec fn target_view(&self) -> WorldArea {
        self.target
    }

    /// Every area of the route, the target last.
    pub open spec fn areas_view(&self) -> Seq<WorldArea> {
        self.route_view().map_values(|p: (WorldArea, SlabNavEdge)| p.0).push(self.target_view())
    }

    pub fn new(areas: Vec<(WorldArea, SlabNavEdge)>, target: WorldArea) -> (r: Self)
        ensures
            r.route_view() == areas@,
            r.target_view() == target,
    {
        Path { areas, target }
    }

    pub fn target(&self) -> (r: WorldArea)
        ensures
            r == self.target_view(),
    {
        self.target
    }

    /// The areas passed through and then the target.
    pub fn iter_areas(&self) -> (r: Vec<WorldArea>)
        ensures
            r@ == self.areas_view(),
    {
        let mut out: Vec<WorldArea> = Vec::new();
        let mut i: usize = 0;
        while i < self.areas.len()
            invariant
                i <= self.areas@.len(),
                out@ == self.areas@.subrange(0, i as int).map_values(|p: (WorldArea, SlabNavEdge)| p.0),
            decreases self.areas@.len() - i,
        {
            out.push(self.areas[i].0);
            proof {
                assert(self.areas@.subrange(0, i + 1) =~= self.areas@.subrange(0, i as int).push(self.areas@[i as int]));
                assert(out@ =~= self.areas@.subrange(0, i + 1).map_values(|p: (WorldArea, SlabNavEdge)| p.0));
            }
            i = i + 1;
        }
        out.push(self.target);
        proof {
            assert(self.areas@.subrange(0, self.areas@.len() as int) =~= self.areas@);
        }
        out
    }

    /// The slabs the route passes through, in order, each run of areas in one slab giving it
    /// once.
    pub fn iter_slabs(&self) -> (r: Vec<SlabLocation>)
        ensures
            r@ == dedup(self.areas_view().map_values(|a: WorldArea| area_slab(a))),
    {
        let areas = self.iter_areas();
        let ghost slabs = areas@.map_values(|a: WorldArea| area_slab(a));
        let mut out: Vec<SlabLocation> = Vec::new();
        let mut i: usize = 0;
        while i < areas.len()
            invariant
                i <= areas@.len(),
                slabs == areas@.map_values(|a: WorldArea| area_slab(a)),
                out@ == dedup(slabs.subrange(0, i as int)),
            decreases areas@.len() - i,
        {
            let s = areas[i].slab();
            let ghost prefix = slabs.subrange(0, i as int);
            let ghost next = slabs.subrange(0, i + 1);
            proof {
                assert(next.drop_last() =~= prefix);
                assert(next[next.len() - 1] == s);
                if i > 0 {
                    lemma_dedup_last(prefix);
                    assert(next[next.len() - 2] == prefix[prefix.len() - 1]);
                }
            }
            if out.len() == 0 || out[out.len() - 1] != s {
                out.push(s);
            }
            proof {
                if i == 0 {
                    assert(next.len() == 1);
                    assert(out@ =~= next);
                }
            }
            i = i + 1;
        }
        proof {
            assert(slabs.subrange(0, areas@.len() as int) =~= slabs);
        }
        out
    }

    /// The number of areas passed through before the target.
    pub fn area_count(&self) -> (r: usize)
        ensures
            r == self.route_view().len(),
    {
        self.areas.len()
    }

    /// The areas passed through, each with the edge that leaves it.
    pub fn route(&self) -> (r: Vec<(WorldArea, SlabNavEdge)>)
        ensures
            r@ == self.route_view(),
    {
        let mut out: Vec<(WorldArea, SlabNavEdge)> = Vec::new();
        let mut i: usize = 0;
        while i < self.areas.len()
            invariant
                i <= self.areas@.len(),
                out@ == self.areas@.subrange(0, i as int),
            decreases self.areas@.len() - i,
        {
            out.push(self.areas[i]);
            proof {
                assert(out@ =~= self.areas@.subrange(0, i + 1));
            }
            i = i + 1;
        }
        proof {
            assert(self.areas@.subrange(0, self.areas@.len() as int) =~= self.areas@);
        }
        out
    }
}

/// `chain` walks back from `last`, each node followed by the node it was reached from, to a
/// node reached from none.
pub open spec fn predecessor_chain<N, E>(came_from: Map<N, (N, E)>, last: N, chain: Seq<N>) -> bool {
    &&& chain.len() >= 1
    &&& chain[0] == last
    &&& forall|i: int|
        0 <= i < chain.len() - 1 ==> #[trigger] came_from.contains_key(chain[i])
            && came_from[chain[i]].0 == chain[i + 1]
    &&& !came_from.contains_key(chain[chain.len() - 1])
}

/// The chain back from `last` (see [predecessor_chain]), where there is one.
pub open spec fn chain_from<N, E>(came_from: Map<N, (N, E)>, last: N) -> Seq<N> {
    choose|chain: Seq<N>| predecessor_chain(came_from, last, chain)
}

/// `steps` holds, for each node of the chain but the last, what resolving the node it was
/// reached from and the edge taken gave.
pub open spec fn resolved_steps<N, E, RN, RE, F: Fn(N, E) -> (RN, RE)>(
    resolve: F,
    came_from: Map<N, (N, E)>,
    chain: Seq<N>,
    steps: Seq<(RN, RE)>,
) -> bool {
    &&& steps.len() == chain.len() - 1
    &&& forall|i: int|
        0 <= i < steps.len() ==> call_ensures(
            resolve,
            (chain[i + 1], came_from[chain[i]].1),
            #[trigger] steps[i],
        )
}

/// For each node reached by a search, the node it was reached from and the edge taken.
pub struct PathTracker<N, E> {
    came_from: HashMap<N, (N, E)>,
}

impl<N: Eq + std::hash::Hash + Copy, E: Copy> PathTracker<N, E> {
    /// The node each node was reached from, and the edge taken.
    pub closed spec fn view(&self) -> Map<N, (N, E)> {
        self.came_from@
    }

    pub fn new() -> (r: Self)
        ensures
            r@ == Map::<N, (N, E)>::empty(),
    {
        PathTracker { came_from: HashMap::new() }
    }

    /// Node `node` was reached from `previous` over `edge`.
    pub fn set_predecessor(&mut self, node: N, previous: N, edge: E)
        requires
            vstd::std_specs::hash::obeys_key_model::<N>(),
        ensures
            final(self)@ == old(self)@.insert(node, (previous, edge)),
    {
        self.came_from.insert(node, (previous, edge));
    }

    /// Path is (node, edge leaving it). Missing goal node
    ///
    /// Walks back from `last` to the node it was reached from, and on until a node reached from
    /// none, resolving each node passed and the edge that left it; appends what was resolved
    /// and then reverses the whole of `path_out`, so that the path reads from the start.
    pub fn reconstruct_path_to<RN, RE, F: Fn(N, E) -> (RN, RE)>(
        &self,
        last: N,
        resolve: F,
        path_out: &mut Vec<(RN, RE)>,
    )
        requires
            vstd::std_specs::hash::obeys_key_model::<N>(),
            exists|chain: Seq<N>| #[trigger] predecessor_chain(self@, last, chain),
            forall|n: N, e: E| resolve.requires((n, e)),
        ensures
            exists|steps: Seq<(RN, RE)>|
                #[trigger] resolved_steps(
                    resolve,
                    self@,
                    chain_from(self@, last),
                    steps,
                ) && final(path_out)@ == (old(path_out)@ + steps).reverse(),
    {
        let ghost m = self@;
        let ghost chain = chain_from(m, last);
        let ghost before = path_out@;
        let ghost mut steps: Seq<(RN, RE)> = Seq::empty();
        let ghost mut i: int = 0;
        path_out.reserve(self.came_from.len() / 2);
        let mut current = last;
        loop
            invariant_except_break
                0 <= i < chain.len(),
                current == chain[i],
            invariant
                m == self@,
                predecessor_chain(m, last, chain),
                forall|n: N, e: E| resolve.requires((n, e)),
                vstd::std_specs::hash::obeys_key_model::<N>(),
                steps.len() == i,
                path_out@ == before + steps,
                forall|j: int|
                    0 <= j < steps.len() ==> call_ensures(
                        resolve,
                        (chain[j + 1], m[chain[j]].1),
                        #[trigger] steps[j],
                    ),
            ensures
                steps.len() == chain.len() - 1,
            decreases chain.len() - i,
        {
            match self.came_from.get(&current) {
                Some(found) => {
                    let (previous, edge) = *found;
                    proof {
                        if i == chain.len() - 1 {
                            assert(!m.contains_key(chain[chain.len() - 1]));
                        }
                        assert(m.contains_key(chain[i]));
                    }
                    current = previous;
                    let step = resolve(previous, edge);
                    path_out.push(step);
                    proof {
                        steps = steps.push(step);
                        i = i + 1;
                    }
                },
                None => {
                    proof {
                        if i < chain.len() - 1 {
                            assert(m.contains_key(chain[i]));
                        }
                    }
                    break;
                },
            }
        }
        let ghost full = path_out@;
        let mut reversed: Vec<(RN, RE)> = Vec::new();
        loop
            invariant
                path_out@ == full.subrange(0, path_out@.len() as int),
                path_out@.len() <= full.len(),
                reversed@ == Seq::new(
                    (full.len() - path_out@.len()) as nat,
                    |j: int| full[full.len() - 1 - j],
                ),
            ensures
                reversed@ =~= full.reverse(),
            decreases path_out@.len(),
        {
            match path_out.pop() {
                Some(x) => {
                    reversed.push(x);
                    proof {
                        assert(reversed@ =~= Seq::new(
                            (full.len() - path_out@.len()) as nat,
                            |j: int| full[full.len() - 1 - j],
                        ));
                    }
                },
                None => {
                    break;
                },
            }
        }
        *path_out = reversed;
        proof {
            assert(resolved_steps(resolve, m, chain, steps));
        }
    }
}

/// The height an edge of the world graph climbs when taken from node `source`: its height
/// difference when `source` is the node it was added from, else the negated difference (see
/// [directed_step]).
pub fn directional_height(edge_source: u32, weight: SlabNavEdge, source: u32) -> (r: i8)
    requires
        edge_source == source || weight.height_diff as i8 != i8::MIN,
    ensures
        r as int == directed_step(weight.height_diff, edge_source == source),
{
    if edge_source == source {
        weight.height_diff as i8
    } else {
        -(weight.height_diff as i8)
    }
}

impl Default for WorldGraph {
    fn default() -> (r: Self)
        ensures
            r.wf(),
            r.node_areas() == NavNodeMap::empty(),
            r.edge_map() == NavEdgeMap::empty(),
            r.area_nodes() == Map::<WorldArea, u32>::empty(),
    {
        WorldGraph::new()
    }
}

} // verus!
