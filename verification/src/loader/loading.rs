use vstd::prelude::*;

use crate::chunk::slab::{AreaInfo, SliceNavArea};
use crate::chunk::slice_navmesh::SliceAreaIndex;
use crate::chunk::vertical_space::{slab_key, SlabVerticalSpace, ABSOLUTE_MAX_FREE_VERTICAL_SPACE};
use crate::coordinate::world::ChunkPosition;
use crate::navigationv2::world_graph::{keeps_areas, slabs_linked, WorldGraph};
use crate::navigationv2::{
    area_indices_fit, as_border_area, border_edge_of, border_input_ok, border_linked,
    discover_border_edges, filter_border_areas, filter_top_areas, indexed, indexed_filter,
    is_border_linked_edge, is_border_spec, is_top_area_spec, lemma_node_of_injective, no_dupes_spec,
    node_of, slices_sorted, sorted_border_entries, ChunkArea, NeighbourOffset, SlabArea, SlabNavEdge,
    MIN_TOP_SLICE,
};
use crate::occlusion::{internal_block_occlusion, internal_occlusion_view, occlusion_view, BlockOcclusion};
use crate::slab::{SlabLocation, SlabPosition};

verus! {

/// A neighbour of a slab whose areas are linked up with the slab's.
#[derive(Debug, Copy, Clone, PartialEq, Eq, Structural)]
pub enum UpdateNeighbour {
    North,
    East,
    South,
    West,
    Above,
}

impl UpdateNeighbour {
    /// The direction of the neighbouring chunk, or none for the slab directly above.
    pub open spec fn direction_spec(self) -> Option<NeighbourOffset> {
        match self {
            UpdateNeighbour::North => Some(NeighbourOffset::North),
            UpdateNeighbour::East => Some(NeighbourOffset::East),
            UpdateNeighbour::South => Some(NeighbourOffset::South),
            UpdateNeighbour::West => Some(NeighbourOffset::West),
            UpdateNeighbour::Above => None,
        }
    }

    pub fn direction(self) -> (r: Option<NeighbourOffset>)
        ensures
            r == self.direction_spec(),
    {
        match self {
            UpdateNeighbour::Above => None,
            UpdateNeighbour::North => Some(NeighbourOffset::North),
            UpdateNeighbour::East => Some(NeighbourOffset::East),
            UpdateNeighbour::South => Some(NeighbourOffset::South),
            UpdateNeighbour::West => Some(NeighbourOffset::West),
        }
    }

    /// The neighbouring slab: the same slab of the chunk in the direction, or the slab above in
    /// the same chunk.
    pub open spec fn neighbour_slab_spec(self, this_slab: SlabLocation) -> SlabLocation {
        match self.direction_spec() {
            Some(dir) => SlabLocation {
                slab: this_slab.slab,
                chunk: ChunkPosition(
                    (this_slab.chunk.0 + dir.offset_spec().0) as i32,
                    (this_slab.chunk.1 + dir.offset_spec().1) as i32,
                ),
            },
            None => SlabLocation { slab: (this_slab.slab + 1) as i32, chunk: this_slab.chunk },
        }
    }

    /// The neighbouring slab: the same slab of the chunk in the direction, or the slab above in
    /// the same chunk.
    pub fn neighbour_slab(self, this_slab: SlabLocation) -> (r: SlabLocation)
        requires
            this_slab.slab < i32::MAX,
            i32::MIN < this_slab.chunk.0 < i32::MAX,
            i32::MIN < this_slab.chunk.1 < i32::MAX,
        ensures
            r == self.neighbour_slab_spec(this_slab),
    {
        match self.direction() {
            Some(dir) => {
                let (dx, dy) = dir.offset();
                SlabLocation {
                    slab: this_slab.slab,
                    chunk: ChunkPosition(this_slab.chunk.0 + dx, this_slab.chunk.1 + dy),
                }
            },
            None => SlabLocation { slab: this_slab.slab + 1, chunk: this_slab.chunk },
        }
    }

    /// Which areas of this slab are at the border with the neighbour: those on the border in
    /// the neighbour's direction, or those that protrude into the slab above.
    pub open spec fn border_pred(self) -> spec_fn(SliceNavArea) -> bool {
        match self.direction_spec() {
            Some(dir) => |a: SliceNavArea| is_border_spec(dir, (a.from, a.to)),
            None => |a: SliceNavArea| a.slice >= MIN_TOP_SLICE && is_top_area_spec(a),
        }
    }

    /// The areas of this slab at the border with the neighbour (see [UpdateNeighbour::border_pred]),
    /// each with its index in its slice.
    pub open spec fn this_border_spec(self, this_areas: Seq<SliceNavArea>) -> Seq<(SliceNavArea, SliceAreaIndex)> {
        indexed_filter(this_areas, this_areas.len() as int, self.border_pred())
    }

    /// The areas of this slab at the border with the neighbour, each with its index in its
    /// slice: those on the border in the neighbour's direction, or those that protrude into
    /// the slab above.
    pub fn this_border_areas(self, this_areas: &[SliceNavArea]) -> (r: Vec<(SliceNavArea, SliceAreaIndex)>)
        requires
            slices_sorted(this_areas@),
            area_indices_fit(this_areas@),
        ensures
            r@ == self.this_border_spec(this_areas@),
    {
        match self.direction() {
            Some(dir) => {
                let r = filter_border_areas(this_areas, dir);
                proof {
                    assert(self.border_pred() =~= |a: SliceNavArea| is_border_spec(dir, (a.from, a.to)));
                }
                r
            },
            None => {
                let r = filter_top_areas(this_areas);
                proof {
                    assert(self.border_pred() =~= |a: SliceNavArea| a.slice >= MIN_TOP_SLICE && is_top_area_spec(a));
                }
                r
            },
        }
    }
}

/// An area of the slab above as a border area, if it is low enough in that slab for an area
/// below to reach it.
pub fn above_border_area(area: ChunkArea, info: &AreaInfo) -> (r: Option<(SliceNavArea, SliceAreaIndex)>)
    ensures
        r is Some <==> area.slab_area.slice_idx <= ABSOLUTE_MAX_FREE_VERTICAL_SPACE,
        r matches Some(p) ==> p.0 == (SliceNavArea {
            slice: area.slab_area.slice_idx,
            from: info.range.0,
            to: info.range.1,
            height: info.height,
        }) && p.1 == area.slab_area.slice_area,
{
    if area.slab_area.slice_idx <= ABSOLUTE_MAX_FREE_VERTICAL_SPACE {
        Some(
            (
                SliceNavArea {
                    slice: area.slab_area.slice_idx,
                    from: info.range.0,
                    to: info.range.1,
                    height: info.height,
                },
                area.slab_area.slice_area,
            ),
        )
    } else {
        None
    }
}

/// An area of this slab fit for linking with a neighbour: its slice inside the slab, its far
/// corner below the coordinate limit, and some free space above it, less than a slab's height.
pub open spec fn link_ready(a: SliceNavArea) -> bool {
    &&& a.slice < 32
    &&& a.to.0 < u8::MAX && a.to.1 < u8::MAX
    &&& 0 < a.height <= 32
}

/// An area of a neighbour fit for linking: its slice inside the slab, its far corner below the
/// coordinate limit, and some free space above it.
pub open spec fn neighbour_ready(p: (ChunkArea, AreaInfo)) -> bool {
    &&& p.0.slab_area.slice_idx < 32
    &&& p.1.range.1.0 < u8::MAX && p.1.range.1.1 < u8::MAX
    &&& p.1.height > 0
}

/// An area of the neighbour as linking takes it: its slice, range and height, and its index
/// in its slice.
pub open spec fn as_nav_pair(a: ChunkArea, info: AreaInfo) -> (SliceNavArea, SliceAreaIndex) {
    (
        SliceNavArea { slice: a.slab_area.slice_idx, from: info.range.0, to: info.range.1, height: info.height },
        a.slab_area.slice_area,
    )
}

/// The neighbour's area is at the border: for a neighbour in a direction, on its side facing
/// back; for the slab above, low enough to be reached from below.
pub open spec fn neighbour_keeps(dir: Option<NeighbourOffset>, a: ChunkArea, info: AreaInfo) -> bool {
    match dir {
        Some(d) => is_border_spec(d.opposite_spec(), info.range),
        None => a.slab_area.slice_idx <= ABSOLUTE_MAX_FREE_VERTICAL_SPACE,
    }
}

/// The neighbour's areas at the border (see [neighbour_keeps]), in order, as linking takes
/// them.
pub open spec fn neighbour_border_spec(
    dir: Option<NeighbourOffset>,
    areas: Seq<(ChunkArea, AreaInfo)>,
) -> Seq<(SliceNavArea, SliceAreaIndex)>
    decreases areas.len(),
{
    if areas.len() == 0 {
        Seq::empty()
    } else {
        let prev = neighbour_border_spec(dir, areas.drop_last());
        let last = areas[areas.len() - 1];
        if neighbour_keeps(dir, last.0, last.1) {
            prev.push(as_nav_pair(last.0, last.1))
        } else {
            prev
        }
    }
}

/// Each area the neighbour gives at the border is one of its areas; no two have the same slice
/// and index when no two of its areas do.
proof fn lemma_neighbour_border(dir: Option<NeighbourOffset>, areas: Seq<(ChunkArea, AreaInfo)>)
    ensures
        forall|k: int|
            0 <= k < neighbour_border_spec(dir, areas).len() ==> exists|i: int|
                0 <= i < areas.len() && #[trigger] neighbour_border_spec(dir, areas)[k] == as_nav_pair(
                    areas[i].0,
                    areas[i].1,
                ),
        (forall|i: int, j: int|
            0 <= i < j < areas.len() ==> (#[trigger] areas[i]).0.slab_area != (#[trigger] areas[j]).0.slab_area)
            ==> no_dupes_spec(neighbour_border_spec(dir, areas)),
    decreases areas.len(),
{
    if areas.len() > 0 {
        let init = areas.drop_last();
        lemma_neighbour_border(dir, init);
        let prev = neighbour_border_spec(dir, init);
        let r = neighbour_border_spec(dir, areas);
        assert forall|k: int| 0 <= k < r.len() implies exists|i: int|
            0 <= i < areas.len() && #[trigger] r[k] == as_nav_pair(areas[i].0, areas[i].1) by {
            if k < prev.len() {
                let i = choose|i: int| 0 <= i < init.len() && #[trigger] prev[k] == as_nav_pair(init[i].0, init[i].1);
                assert(r[k] == prev[k]);
                assert(init[i] == areas[i]);
            } else {
                assert(r[k] == as_nav_pair(areas[areas.len() - 1].0, areas[areas.len() - 1].1));
            }
        }
        if forall|i: int, j: int|
            0 <= i < j < areas.len() ==> (#[trigger] areas[i]).0.slab_area != (#[trigger] areas[j]).0.slab_area {
            assert forall|i: int, j: int| 0 <= i < j < init.len() implies (#[trigger] init[i]).0.slab_area
                != (#[trigger] init[j]).0.slab_area by {
                assert(init[i] == areas[i] && init[j] == areas[j]);
            }
            assert forall|a: int, b: int| 0 <= a < b < r.len() implies !(#[trigger] r[a].0.slice
                == #[trigger] r[b].0.slice && r[a].1 == r[b].1) by {
                if b >= prev.len() {
                    let last = areas[areas.len() - 1];
                    let i = choose|i: int| 0 <= i < init.len() && #[trigger] prev[a] == as_nav_pair(init[i].0, init[i].1);
                    assert(r[a] == prev[a]);
                    assert(init[i] == areas[i]);
                    assert(r[b] == as_nav_pair(last.0, last.1));
                    if r[a].0.slice == r[b].0.slice && r[a].1 == r[b].1 {
                        assert(areas[i].0.slab_area == last.0.slab_area);
                    }
                } else {
                    assert(r[a] == prev[a] && r[b] == prev[b]);
                }
            }
        }
    }
}

/// The positions of the areas that a filter keeps, in order.
proof fn lemma_indexed_filter_positions(
    areas: Seq<SliceNavArea>,
    n: int,
    pred: spec_fn(SliceNavArea) -> bool,
) -> (ps: Seq<int>)
    requires
        0 <= n <= areas.len(),
    ensures
        ps.len() == indexed_filter(areas, n, pred).len(),
        forall|k: int|
            0 <= k < ps.len() ==> 0 <= #[trigger] ps[k] < n && pred(areas[ps[k]]) && indexed_filter(
                areas,
                n,
                pred,
            )[k] == indexed(areas, ps[k]),
        forall|k: int, l: int| 0 <= k < l < ps.len() ==> #[trigger] ps[k] < #[trigger] ps[l],
    decreases n,
{
    if n <= 0 {
        Seq::empty()
    } else {
        let prev = lemma_indexed_filter_positions(areas, n - 1, pred);
        if pred(areas[n - 1]) {
            let ps = prev.push(n - 1);
            assert forall|k: int| 0 <= k < ps.len() implies 0 <= #[trigger] ps[k] < n && pred(areas[ps[k]])
                && indexed_filter(areas, n, pred)[k] == indexed(areas, ps[k]) by {
                if k < prev.len() {
                    assert(ps[k] == prev[k]);
                }
            }
            ps
        } else {
            prev
        }
    }
}

/// The border areas of this slab are fit for linking and no two have the same slice and index.
proof fn lemma_this_border(nb: UpdateNeighbour, areas: Seq<SliceNavArea>)
    requires
        slices_sorted(areas),
        area_indices_fit(areas),
        forall|p: int| 0 <= p < areas.len() ==> link_ready(#[trigger] areas[p]),
    ensures
        no_dupes_spec(nb.this_border_spec(areas)),
        border_input_ok(nb.this_border_spec(areas), true, nb.direction_spec() is None),
{
    let tb = nb.this_border_spec(areas);
    let ps = lemma_indexed_filter_positions(areas, areas.len() as int, nb.border_pred());
    assert forall|a: int, b: int| 0 <= a < b < tb.len() implies !(#[trigger] tb[a].0.slice
        == #[trigger] tb[b].0.slice && tb[a].1 == tb[b].1) by {
        if tb[a].0.slice == tb[b].0.slice && tb[a].1 == tb[b].1 {
            assert(node_of(areas, ps[a]) == node_of(areas, ps[b]));
            lemma_node_of_injective(areas, ps[a], ps[b]);
        }
    }
    assert forall|k: int| 0 <= k < tb.len() implies {
        let a = #[trigger] tb[k].0;
        &&& a.slice < 32
        &&& a.to.0 < u8::MAX && a.to.1 < u8::MAX
        &&& if nb.direction_spec() is None {
            32 <= a.slice + a.height <= u8::MAX && (a.slice + a.height) % 32 != 0
        } else {
            a.height > 0
        }
    } by {
        assert(link_ready(areas[ps[k]]));
        assert(tb[k].0 == areas[ps[k]]);
    }
}

/// Some edge of the list equals `e`.
pub open spec fn lists_edge(edges: Seq<(SlabArea, SlabArea, SlabNavEdge)>, e: (SlabArea, SlabArea, SlabNavEdge)) -> bool {
    edges.contains(e)
}

fn same_edge(a: &(SlabArea, SlabArea, SlabNavEdge), b: &(SlabArea, SlabArea, SlabNavEdge)) -> (r: bool)
    ensures
        r == (*a == *b),
{
    a.0.slice_idx == b.0.slice_idx && a.0.slice_area.0 == b.0.slice_area.0 && a.1.slice_idx
        == b.1.slice_idx && a.1.slice_area.0 == b.1.slice_area.0 && a.2.clearance == b.2.clearance
        && a.2.height_diff == b.2.height_diff
}

/// The edges once each, first comes first.
fn dedup_edges(edges: &Vec<(SlabArea, SlabArea, SlabNavEdge)>) -> (r: Vec<(SlabArea, SlabArea, SlabNavEdge)>)
    ensures
        r@.no_duplicates(),
        forall|e: (SlabArea, SlabArea, SlabNavEdge)| #[trigger] r@.contains(e) <==> edges@.contains(e),
{
    let mut out: Vec<(SlabArea, SlabArea, SlabNavEdge)> = Vec::new();
    let mut i: usize = 0;
    while i < edges.len()
        invariant
            i <= edges@.len(),
            out@.no_duplicates(),
            forall|e: (SlabArea, SlabArea, SlabNavEdge)|
                #[trigger] out@.contains(e) <==> edges@.subrange(0, i as int).contains(e),
        decreases edges@.len() - i,
    {
        let e = edges[i];
        let mut seen = false;
        let mut j: usize = 0;
        while j < out.len()
            invariant
                j <= out@.len(),
                seen <==> out@.subrange(0, j as int).contains(e),
            decreases out@.len() - j,
        {
            if same_edge(&out[j], &e) {
                seen = true;
            }
            proof {
                let s0 = out@.subrange(0, j as int);
                let s1 = out@.subrange(0, j + 1);
                assert(s1 =~= s0.push(out@[j as int]));
                if out@[j as int] == e {
                    assert(s1[j as int] == e);
                }
                if s1.contains(e) && !s0.contains(e) {
                    let k = choose|k: int| 0 <= k < s1.len() && s1[k] == e;
                    if k < j {
                        assert(s0[k] == e);
                    }
                }
                if s0.contains(e) {
                    let k = choose|k: int| 0 <= k < s0.len() && s0[k] == e;
                    assert(s1[k] == e);
                }
            }
            j = j + 1;
        }
        proof {
            assert(out@.subrange(0, out@.len() as int) =~= out@);
        }
        let ghost old_out = out@;
        if !seen {
            out.push(e);
            proof {
                assert forall|a: int, b: int| 0 <= a < b < out@.len() implies out@[a] != out@[b] by {
                    if b == out@.len() - 1 {
                        assert(old_out[a] == out@[a]);
                    } else {
                        assert(old_out[a] == out@[a] && old_out[b] == out@[b]);
                    }
                }
            }
        }
        proof {
            let s0 = edges@.subrange(0, i as int);
            let s1 = edges@.subrange(0, i + 1);
            assert(s1 =~= s0.push(e));
            assert forall|x: (SlabArea, SlabArea, SlabNavEdge)| #[trigger] out@.contains(x) <==> s1.contains(x) by {
                if s1.contains(x) && x != e {
                    let k = choose|k: int| 0 <= k < s1.len() && s1[k] == x;
                    assert(k < i);
                    assert(s0[k] == x);
                }
                if s0.contains(x) {
                    let k = choose|k: int| 0 <= k < s0.len() && s0[k] == x;
                    assert(s1[k] == x);
                }
                if x == e {
                    assert(s1[i as int] == x);
                }
                if out@.contains(x) && !old_out.contains(x) {
                    assert(x == e);
                }
                if old_out.contains(x) {
                    let k = choose|k: int| 0 <= k < old_out.len() && old_out[k] == x;
                    assert(out@[k] == x);
                }
                if !seen && x == e {
                    assert(out@[out@.len() - 1] == x);
                }
            }
        }
        i = i + 1;
    }
    proof {
        assert(edges@.subrange(0, edges@.len() as int) =~= edges@);
    }
    out
}

impl UpdateNeighbour {
    /// The neighbour's areas at the border (see [neighbour_border_spec]), in order, as linking
    /// takes them.
    pub fn neighbour_border_areas(self, neighbour_areas: &[(ChunkArea, AreaInfo)]) -> (r: Vec<(SliceNavArea, SliceAreaIndex)>)
        ensures
            r@ == neighbour_border_spec(self.direction_spec(), neighbour_areas@),
    {
        let dir = self.direction();
        let mut out: Vec<(SliceNavArea, SliceAreaIndex)> = Vec::new();
        let mut i: usize = 0;
        while i < neighbour_areas.len()
            invariant
                i <= neighbour_areas@.len(),
                dir == self.direction_spec(),
                out@ == neighbour_border_spec(dir, neighbour_areas@.subrange(0, i as int)),
            decreases neighbour_areas@.len() - i,
        {
            let (a, info) = neighbour_areas[i];
            let found = match dir {
                Some(d) => as_border_area(a, &info, d.opposite()),
                None => above_border_area(a, &info),
            };
            if let Some(p) = found {
                out.push(p);
            }
            proof {
                let s1 = neighbour_areas@.subrange(0, i + 1);
                assert(s1.drop_last() =~= neighbour_areas@.subrange(0, i as int));
                assert(s1[s1.len() - 1] == (a, info));
            }
            i = i + 1;
        }
        proof {
            assert(neighbour_areas@.subrange(0, neighbour_areas@.len() as int) =~= neighbour_areas@);
        }
        out
    }

    /// The areas of this slab at the border with the neighbour, without their indices.
    pub open spec fn border_areas_spec(self, this_areas: Seq<SliceNavArea>) -> Seq<SliceNavArea> {
        self.this_border_spec(this_areas).map_values(|e: (SliceNavArea, SliceAreaIndex)| e.0)
    }

    /// Whether the neighbour needs linking again: the areas of this slab at the border with it
    /// differ from those it was last linked with. Where they are the same, linking would find
    /// the same edges, and is skipped.
    pub fn border_changed(self, this_areas: &[SliceNavArea], last_linked: &[SliceNavArea]) -> (r: bool)
        requires
            slices_sorted(this_areas@),
            area_indices_fit(this_areas@),
        ensures
            r == (self.border_areas_spec(this_areas@) != last_linked@),
    {
        let border = self.this_border_areas(this_areas);
        let ghost now = self.border_areas_spec(this_areas@);
        if border.len() != last_linked.len() {
            assert(now.len() != last_linked@.len());
            return true;
        }
        let mut i: usize = 0;
        while i < border.len()
            invariant
                border@ == self.this_border_spec(this_areas@),
                now == self.border_areas_spec(this_areas@),
                border@.len() == last_linked@.len(),
                i <= border@.len(),
                forall|j: int| 0 <= j < i ==> now[j] == #[trigger] last_linked@[j],
            decreases border@.len() - i,
        {
            let a = border[i].0;
            let b = last_linked[i];
            if !(a.slice == b.slice && a.from.0 == b.from.0 && a.from.1 == b.from.1 && a.to.0 == b.to.0
                && a.to.1 == b.to.1 && a.height == b.height) {
                assert(now[i as int] != last_linked@[i as int]);
                return true;
            }
            i = i + 1;
        }
        assert(now =~= last_linked@);
        false
    }

    /// Linking finds the edge: both sides have areas at the border, and the edge joins a pair of
    /// them as [discover_border_edges] finds it.
    pub open spec fn finds_edge(
        self,
        this_areas: Seq<SliceNavArea>,
        neighbour_areas: Seq<(ChunkArea, AreaInfo)>,
        e: (SlabArea, SlabArea, SlabNavEdge),
    ) -> bool {
        let tb = self.this_border_spec(this_areas);
        let nb = neighbour_border_spec(self.direction_spec(), neighbour_areas);
        let sorted = sorted_border_entries(tb, nb, self.direction_spec() is None);
        &&& tb.len() > 0
        &&& nb.len() > 0
        &&& is_border_linked_edge(sorted, e, sorted.len() as int, self.direction_spec())
    }

    /// Links this slab's areas at the border with the neighbour's (already gathered, from the
    /// slab in the neighbour's direction or above): the edges between the two slabs in the
    /// world graph are replaced by those found between the two sides' border areas (see
    /// [UpdateNeighbour::finds_edge]), each once. `false` when the graph ran out of indices.
    pub fn link(
        self,
        graph: &mut WorldGraph,
        this_slab: SlabLocation,
        this_areas: &[SliceNavArea],
        neighbour_areas: &[(ChunkArea, AreaInfo)],
    ) -> (r: bool)
        requires
            old(graph).wf(),
            this_slab.slab < i32::MAX,
            i32::MIN < this_slab.chunk.0 < i32::MAX,
            i32::MIN < this_slab.chunk.1 < i32::MAX,
            slices_sorted(this_areas@),
            area_indices_fit(this_areas@),
            forall|p: int| 0 <= p < this_areas@.len() ==> link_ready(#[trigger] this_areas@[p]),
            forall|p: int| 0 <= p < neighbour_areas@.len() ==> neighbour_ready(#[trigger] neighbour_areas@[p]),
            forall|i: int, j: int|
                0 <= i < j < neighbour_areas@.len() ==> (#[trigger] neighbour_areas@[i]).0.slab_area
                    != (#[trigger] neighbour_areas@[j]).0.slab_area,
        ensures
            final(graph).wf(),
            keeps_areas(old(graph).area_nodes(), final(graph).area_nodes()),
            exists|es: Seq<(SlabArea, SlabArea, SlabNavEdge)>|
                #![trigger es.no_duplicates()]
                {
                    &&& es.no_duplicates()
                    &&& forall|e: (SlabArea, SlabArea, SlabNavEdge)|
                        lists_edge(es, e) <==> #[trigger] self.finds_edge(this_areas@, neighbour_areas@, e)
                    &&& r ==> slabs_linked(
                        *old(graph),
                        *final(graph),
                        this_slab,
                        self.neighbour_slab_spec(this_slab),
                        es,
                    )
                    &&& final(graph).node_count() <= old(graph).node_count() + 2 * es.len()
                    &&& final(graph).edge_count() <= old(graph).edge_count() + es.len()
                },
            !r ==> final(graph).is_full(),
    {
        let n_slab = self.neighbour_slab(this_slab);
        let ghost dir = self.direction_spec();
        let tb = self.this_border_areas(this_areas);
        let mut edges: Vec<(SlabArea, SlabArea, SlabNavEdge)> = Vec::new();
        proof {
            lemma_this_border(self, this_areas@);
        }
        if tb.len() > 0 {
            let nb = self.neighbour_border_areas(neighbour_areas);
            if nb.len() > 0 {
                proof {
                    lemma_neighbour_border(dir, neighbour_areas@);
                    assert forall|k: int| 0 <= k < nb@.len() implies {
                        let a = #[trigger] nb@[k].0;
                        &&& a.slice < 32
                        &&& a.to.0 < u8::MAX && a.to.1 < u8::MAX
                        &&& a.height > 0
                    } by {
                        let i = choose|i: int| 0 <= i < neighbour_areas@.len() && #[trigger] nb@[k] == as_nav_pair(
                            neighbour_areas@[i].0,
                            neighbour_areas@[i].1,
                        );
                        assert(neighbour_ready(neighbour_areas@[i]));
                    }
                }
                let found = discover_border_edges(&tb, &nb, self.direction());
                edges = dedup_edges(&found);
                proof {
                    let sorted = sorted_border_entries(tb@, nb@, dir is None);
                    assert forall|e: (SlabArea, SlabArea, SlabNavEdge)| lists_edge(edges@, e) <==> #[trigger] self.finds_edge(
                        this_areas@,
                        neighbour_areas@,
                        e,
                    ) by {
                        if found@.contains(e) {
                            let k = choose|k: int| 0 <= k < found@.len() && found@[k] == e;
                            assert(is_border_linked_edge(sorted, found@[k], sorted.len() as int, dir));
                        }
                        if is_border_linked_edge(sorted, e, sorted.len() as int, dir) {
                            let (i, j) = choose|i: int, j: int|
                                #![trigger border_edge_of(sorted, i, j, dir)]
                                border_linked(sorted, i, j, dir) && j < sorted.len() && e == border_edge_of(sorted, i, j, dir);
                            let k = choose|k: int| 0 <= k < found@.len() && #[trigger] found@[k] == border_edge_of(sorted, i, j, dir);
                            assert(found@.contains(e));
                        }
                    }
                }
            }
        }
        let ok = graph.add_inter_slab_edges(this_slab, n_slab, &edges);
        proof {
            assert(edges@.no_duplicates());
            if ok {
                assert forall|e: (SlabArea, SlabArea, SlabNavEdge)| lists_edge(edges@, e) <==> #[trigger] self.finds_edge(
                    this_areas@,
                    neighbour_areas@,
                    e,
                ) by {}
                assert(slabs_linked(*old(graph), *graph, this_slab, self.neighbour_slab_spec(this_slab), edges@));
            }
        }
        ok
    }
}

/// The side faces, in the order North, East, South, West, of a block at (`x`, `y`) whose
/// occlusion blocks of neighbouring chunks can change: for each edge of the chunk the block
/// lies on, the face towards that edge and the two beside it.
pub open spec fn edge_faces(x: int, y: int) -> Seq<bool> {
    Seq::new(
        4,
        |i: int|
            (y == 0 && (i == 1 || i == 2 || i == 3)) || (y == 15 && (i == 3 || i == 0 || i == 1))
                || (x == 0 && (i == 2 || i == 3 || i == 0)) || (x == 15 && (i == 0 || i == 1 || i
                == 2)),
    )
}

fn edge_faces_exec(x: u8, y: u8) -> (r: [bool; 4])
    ensures
        r@ == edge_faces(x as int, y as int),
{
    let mut side = [false; 4];
    if y == 0 {
        side[1] = true;
        side[2] = true;
        side[3] = true;
    } else if y == 15 {
        side[3] = true;
        side[0] = true;
        side[1] = true;
    }
    if x == 0 {
        side[2] = true;
        side[3] = true;
        side[0] = true;
    } else if x == 15 {
        side[0] = true;
        side[1] = true;
        side[2] = true;
    }
    proof {
        assert(side@ =~= edge_faces(x as int, y as int));
    }
    side
}

/// The block of the slab at the given slab order.
pub open spec fn key_pos(k: int) -> SlabPosition {
    SlabPosition((k % 16) as u8, ((k / 16) % 16) as u8, (k / 256) as i32)
}

proof fn lemma_key_pos(p: SlabPosition)
    requires
        p.valid(),
    ensures
        key_pos(slab_key(p.0 as int, p.1 as int, p.2 as int)) == p,
{
    let k = slab_key(p.0 as int, p.1 as int, p.2 as int);
    let q = p.2 as int * 16 + p.1 as int;
    vstd::arithmetic::div_mod::lemma_fundamental_div_mod_converse(k, 16, q, p.0 as int);
    vstd::arithmetic::div_mod::lemma_fundamental_div_mod_converse(q, 16, p.2 as int, p.1 as int);
    vstd::arithmetic::div_mod::lemma_fundamental_div_mod_converse(k, 256, p.2 as int, p.1 as int * 16 + p.0 as int);
}

/// A block whose occlusion neighbouring slabs can change, with the side faces (North, East,
/// South, West) and whether the top face is to be looked at again.
pub open spec fn face_need(pos: SlabPosition, sides: Seq<bool>, top: bool) -> (SlabPosition, Seq<bool>, bool) {
    (pos, sides, top)
}

/// The solid blocks under the first `j` runs of air of the slab (those above the bottom slice),
/// in order, each with the side faces at the chunk's edges and its top face.
pub open spec fn below_air_needs(blocks: Seq<(int, int)>, j: int) -> Seq<(SlabPosition, Seq<bool>, bool)>
    decreases j,
{
    if j <= 0 {
        Seq::empty()
    } else {
        let prev = below_air_needs(blocks, j - 1);
        let k = blocks[j - 1].0;
        let p = key_pos(k);
        if p.2 > 0 {
            let below = SlabPosition(p.0, p.1, (p.2 - 1) as i32);
            prev.push(face_need(below, edge_faces(p.0 as int, p.1 as int), true))
        } else {
            prev
        }
    }
}

/// The columns among the first `i` (row-major) whose top block is solid, as blocks of the top
/// slice with every side face and the top face.
pub open spec fn top_needs(above: Seq<u8>, i: int) -> Seq<(SlabPosition, Seq<bool>, bool)>
    decreases i,
{
    if i <= 0 {
        Seq::empty()
    } else if above[i - 1] == 0 {
        top_needs(above, i - 1).push(face_need(
            SlabPosition(((i - 1) % 16) as u8, ((i - 1) / 16) as u8, 31),
            seq![true, true, true, true],
            true,
        ))
    } else {
        top_needs(above, i - 1)
    }
}

/// The columns among the first `i` (row-major) whose bottom block is solid, as blocks of the
/// bottom slice with every side face and not the top face.
pub open spec fn bottom_needs(vs: SlabVerticalSpace, i: int) -> Seq<(SlabPosition, Seq<bool>, bool)>
    decreases i,
{
    if i <= 0 {
        Seq::empty()
    } else if vs.below_spec((i - 1) % 16, (i - 1) / 16) == 0 {
        bottom_needs(vs, i - 1).push(face_need(
            SlabPosition(((i - 1) % 16) as u8, ((i - 1) / 16) as u8, 0),
            seq![true, true, true, true],
            false,
        ))
    } else {
        bottom_needs(vs, i - 1)
    }
}

/// The blocks of a slab whose occlusion the neighbouring slabs can change, once the slab is in
/// the world, with the faces to look at again: the solid block under each run of air above the
/// bottom slice, with the side faces at the chunk's edges and its top face; then each solid
/// top block of a column, with every face; then each solid bottom block of a column, with its
/// side faces.
pub fn faces_needing_neighbours(vs: &SlabVerticalSpace) -> (r: Vec<(SlabPosition, [bool; 4], bool)>)
    requires
        vs.wf(),
    ensures
        ({
            let want = below_air_needs(vs.blocks_view(), vs.blocks_view().len() as int) + top_needs(
                vs.above_view(),
                256,
            ) + bottom_needs(*vs, 256);
            &&& r@.len() == want.len()
            &&& forall|i: int| 0 <= i < r@.len() ==> (#[trigger] r@[i].0, r@[i].1@, r@[i].2) == want[i]
        }),
{
    let blocks = vs.iter_blocks();
    let ghost bv = vs.blocks_view();
    let mut out: Vec<(SlabPosition, [bool; 4], bool)> = Vec::new();
    let mut j: usize = 0;
    while j < blocks.len()
        invariant
            j <= blocks@.len(),
            vs.wf(),
            bv == vs.blocks_view(),
            blocks@.len() == bv.len(),
            forall|a: int|
                0 <= a < blocks@.len() ==> slab_key(
                    (#[trigger] blocks@[a]).0.0 as int,
                    blocks@[a].0.1 as int,
                    blocks@[a].0.2 as int,
                ) == bv[a].0 && blocks@[a].0.valid(),
            out@.len() == below_air_needs(bv, j as int).len(),
            forall|i: int| 0 <= i < out@.len() ==> (#[trigger] out@[i].0, out@[i].1@, out@[i].2) == below_air_needs(bv, j as int)[i],
        decreases blocks@.len() - j,
    {
        let (pos, _h) = blocks[j];
        proof {
            assert(slab_key(blocks@[j as int].0.0 as int, blocks@[j as int].0.1 as int, blocks@[j as int].0.2 as int) == bv[j as int].0);
            lemma_key_pos(pos);
            assert(key_pos(bv[j as int].0) == pos);
        }
        let ghost before = out@;
        if pos.2 > 0 {
            let sides = edge_faces_exec(pos.0, pos.1);
            out.push((SlabPosition(pos.0, pos.1, pos.2 - 1), sides, true));
        }
        proof {
            assert forall|i: int| 0 <= i < out@.len() implies (#[trigger] out@[i].0, out@[i].1@, out@[i].2) == below_air_needs(bv, j + 1)[i] by {
                if i < before.len() {
                    assert(out@[i] == before[i]);
                }
            }
        }
        j = j + 1;
    }
    let ghost n1 = out@.len();
    let ghost p1 = below_air_needs(bv, bv.len() as int);
    let above = vs.above();
    let mut i: usize = 0;
    while i < 256
        invariant
            i <= 256,
            above@ == vs.above_view(),
            above@.len() == 256,
            n1 == p1.len(),
            out@.len() == p1.len() + top_needs(above@, i as int).len(),
            forall|a: int| 0 <= a < out@.len() ==> (#[trigger] out@[a].0, out@[a].1@, out@[a].2) == (p1 + top_needs(above@, i as int))[a],
        decreases 256 - i,
    {
        let ghost before = out@;
        if above[i] == 0 {
            out.push((SlabPosition((i % 16) as u8, (i / 16) as u8, 31), [true, true, true, true], true));
        }
        proof {
            let want = p1 + top_needs(above@, i + 1);
            assert forall|a: int| 0 <= a < out@.len() implies (#[trigger] out@[a].0, out@[a].1@, out@[a].2) == want[a] by {
                if a < before.len() {
                    assert(out@[a] == before[a]);
                } else {
                    assert(out@[a].1@ =~= seq![true, true, true, true]);
                }
            }
        }
        i = i + 1;
    }
    let ghost p2 = p1 + top_needs(above@, 256);
    let mut c: usize = 0;
    while c < 256
        invariant
            c <= 256,
            vs.wf(),
            out@.len() == p2.len() + bottom_needs(*vs, c as int).len(),
            forall|a: int| 0 <= a < out@.len() ==> (#[trigger] out@[a].0, out@[a].1@, out@[a].2) == (p2 + bottom_needs(*vs, c as int))[a],
        decreases 256 - c,
    {
        let ghost before = out@;
        let x = (c % 16) as u8;
        let y = (c / 16) as u8;
        if vs.below_at((x, y)) == 0 {
            out.push((SlabPosition(x, y, 0), [true, true, true, true], false));
        }
        proof {
            let want = p2 + bottom_needs(*vs, c + 1);
            assert forall|a: int| 0 <= a < out@.len() implies (#[trigger] out@[a].0, out@[a].1@, out@[a].2) == want[a] by {
                if a < before.len() {
                    assert(out@[a] == before[a]);
                } else {
                    assert(out@[a].1@ =~= seq![true, true, true, true]);
                }
            }
        }
        c = c + 1;
    }
    proof {
        assert(p2 + bottom_needs(*vs, 256) =~= below_air_needs(vs.blocks_view(), vs.blocks_view().len() as int) + top_needs(vs.above_view(), 256) + bottom_needs(*vs, 256));
    }
    out
}


/// The occlusion of a slab's blocks as the slab alone tells it, worked out when its terrain is
/// first put in the world, using the vertical space to skip the blocks known to be air: the
/// solid block under each run of air above the bottom slice, with its top and side faces (see
/// [below_air_needs]); then each solid top block of a column, with its side faces only, as
/// nothing is known above the slab (see [top_needs]).
pub fn init_internal_occlusion(solid: &[bool], vs: &SlabVerticalSpace) -> (r: Vec<(SlabPosition, BlockOcclusion)>)
    requires
        solid@.len() == 8192,
        vs.wf(),
    ensures
        ({
            let first = below_air_needs(vs.blocks_view(), vs.blocks_view().len() as int);
            let second = top_needs(vs.above_view(), 256);
            &&& r@.len() == first.len() + second.len()
            &&& forall|i: int|
                0 <= i < first.len() ==> (#[trigger] r@[i]).0 == first[i].0 && occlusion_view(r@[i].1)
                    == internal_occlusion_view(solid@, first[i].0, true)
            &&& forall|i: int|
                0 <= i < second.len() ==> (#[trigger] r@[first.len() + i]).0 == second[i].0
                    && occlusion_view(r@[first.len() + i].1) == internal_occlusion_view(solid@, second[i].0, false)
        }),
{
    let blocks = vs.iter_blocks();
    let ghost bv = vs.blocks_view();
    let mut out: Vec<(SlabPosition, BlockOcclusion)> = Vec::new();
    let mut j: usize = 0;
    while j < blocks.len()
        invariant
            solid@.len() == 8192,
            j <= blocks@.len(),
            vs.wf(),
            bv == vs.blocks_view(),
            blocks@.len() == bv.len(),
            forall|a: int|
                0 <= a < blocks@.len() ==> slab_key(
                    (#[trigger] blocks@[a]).0.0 as int,
                    blocks@[a].0.1 as int,
                    blocks@[a].0.2 as int,
                ) == bv[a].0 && blocks@[a].0.valid(),
            out@.len() == below_air_needs(bv, j as int).len(),
            forall|i: int|
                0 <= i < out@.len() ==> (#[trigger] out@[i]).0 == below_air_needs(bv, j as int)[i].0
                    && occlusion_view(out@[i].1) == internal_occlusion_view(solid@, below_air_needs(bv, j as int)[i].0, true),
        decreases blocks@.len() - j,
    {
        let (pos, _h) = blocks[j];
        proof {
            assert(slab_key(blocks@[j as int].0.0 as int, blocks@[j as int].0.1 as int, blocks@[j as int].0.2 as int) == bv[j as int].0);
            lemma_key_pos(pos);
            assert(key_pos(bv[j as int].0) == pos);
        }
        let ghost before = out@;
        if pos.2 > 0 {
            let below = SlabPosition(pos.0, pos.1, pos.2 - 1);
            out.push((below, internal_block_occlusion(solid, below, true)));
        }
        proof {
            assert forall|i: int| 0 <= i < out@.len() implies (#[trigger] out@[i]).0 == below_air_needs(bv, j + 1)[i].0
                && occlusion_view(out@[i].1) == internal_occlusion_view(solid@, below_air_needs(bv, j + 1)[i].0, true) by {
                if i < before.len() {
                    assert(out@[i] == before[i]);
                }
            }
        }
        j = j + 1;
    }
    let ghost p1 = below_air_needs(bv, bv.len() as int);
    let above = vs.above();
    let mut i: usize = 0;
    while i < 256
        invariant
            solid@.len() == 8192,
            i <= 256,
            above@ == vs.above_view(),
            above@.len() == 256,
            out@.len() == p1.len() + top_needs(above@, i as int).len(),
            forall|a: int|
                0 <= a < p1.len() ==> (#[trigger] out@[a]).0 == p1[a].0 && occlusion_view(out@[a].1)
                    == internal_occlusion_view(solid@, p1[a].0, true),
            forall|a: int|
                0 <= a < top_needs(above@, i as int).len() ==> (#[trigger] out@[p1.len() + a]).0
                    == top_needs(above@, i as int)[a].0 && occlusion_view(out@[p1.len() + a].1)
                    == internal_occlusion_view(solid@, top_needs(above@, i as int)[a].0, false),
        decreases 256 - i,
    {
        let ghost before = out@;
        if above[i] == 0 {
            let pos = SlabPosition((i % 16) as u8, (i / 16) as u8, 31);
            out.push((pos, internal_block_occlusion(solid, pos, false)));
        }
        proof {
            let t = top_needs(above@, i + 1);
            assert forall|a: int| 0 <= a < p1.len() implies (#[trigger] out@[a]).0 == p1[a].0 && occlusion_view(out@[a].1)
                == internal_occlusion_view(solid@, p1[a].0, true) by {
                assert(out@[a] == before[a]);
            }
            assert forall|a: int| 0 <= a < t.len() implies (#[trigger] out@[p1.len() + a]).0 == t[a].0
                && occlusion_view(out@[p1.len() + a].1) == internal_occlusion_view(solid@, t[a].0, false) by {
                if p1.len() + a < before.len() {
                    assert(out@[p1.len() + a] == before[p1.len() + a]);
                }
            }
        }
        i = i + 1;
    }
    out
}

} // verus!
